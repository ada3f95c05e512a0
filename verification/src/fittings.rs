//! The models of a vehicle that are not accessories: its own bodies, and the
//! animated ones.

use crate::sii::{opt_unit, parse, unit_in, Defs, SiiUnit, UnitView};
use crate::text::{
    cat, chars_of, dedup, ends, carries, holds, opt_text, ordered, same_str, sort, texts,
    unrepeated, unroot_str, unrooted,
};
use crate::tree::{join, listed, stem_before, stem_of, within, Nodes, Tree};
use crate::vehicle::{bare, or_empty, step, strip_ext, value_or_empty, VehicleDef, VehicleView};
use vstd::prelude::*;

verus! {

/// A model that is neither the body nor an accessory: the openable windows, the
/// wipers, the animated dashboard. These are declared under their own key names
/// (`windows_model`, `wiper_model`, `animated_model`).
pub struct ExtraModel {
    pub name: String,
    /// which root it belongs to
    pub kind: &'static str,
    pub model: String,
    /// `.pma` animation files. The skeleton is derived from these, so without
    /// them the model converts with no bones at all.
    pub anims: Vec<String>,
    /// These carry variants of their own just like accessories do.
    pub variants: Vec<String>,
}

#[verifier::ext_equal]
pub struct ExtraView {
    pub name: Seq<char>,
    pub kind: Seq<char>,
    pub model: Seq<char>,
    pub anims: Seq<Seq<char>>,
    pub variants: Seq<Seq<char>>,
}

impl View for ExtraModel {
    type V = ExtraView;

    open spec fn view(&self) -> ExtraView {
        ExtraView {
            name: self.name@,
            kind: self.kind@,
            model: self.model@,
            anims: texts(self.anims@),
            variants: texts(self.variants@),
        }
    }
}

pub open spec fn extra_views(v: Seq<ExtraModel>) -> Seq<ExtraView> {
    Seq::new(v.len(), |i: int| v[i]@)
}

/// Whether the value of the key `k` is an animation that is wanted. The value's
/// extension counts, not the key: animations also hide behind names like
/// `button_left_blinker`.
pub open spec fn wanted(d: Defs, k: Seq<char>, want: Seq<char>) -> bool {
    ".pma"@.is_suffix_of(d.keys[k]) && carries(k, want)
}

pub open spec fn anims_of(d: Defs, ks: Seq<Seq<char>>, want: Seq<char>) -> Seq<Seq<char>>
    decreases ks.len(),
{
    if ks.len() == 0 {
        Seq::empty()
    } else if wanted(d, ks.last(), want) {
        anims_of(d, ks.drop_last(), want).push(bare(d.keys[ks.last()]))
    } else {
        anims_of(d, ks.drop_last(), want)
    }
}

/// The animations whose key holds `want`, in order, each once.
pub open spec fn anims(d: Defs, want: Seq<char>) -> Seq<Seq<char>> {
    unrepeated(ordered(anims_of(d, d.order, want)))
}

fn anim_values(u: &SiiUnit, want: &str) -> (r: Vec<String>)
    requires
        u.wf(),
    ensures
        texts(r@) == anims(u@.defs, want@),
{
    let ghost d = u@.defs;
    let ghost all = d.order;
    let mut v: Vec<String> = Vec::new();
    let mut i: usize = 0;
    assert(texts(v@) =~= anims_of(d, all.take(0), want@));
    while i < u.order.len()
        invariant
            i <= u.order@.len(),
            u.wf(),
            d == u@.defs,
            all == texts(u.order@),
            texts(v@) == anims_of(d, all.take(i as int), want@),
        decreases u.order@.len() - i,
    {
        assert(all.take(i + 1).drop_last() =~= all.take(i as int));
        assert(all[i as int] == u.order@[i as int]@);
        assert(u@.defs.order.contains(all[i as int])) by {
            assert(u@.defs.order[i as int] == all[i as int]);
        }
        match u.keys.get(u.order[i].as_str()) {
            None => {
                assert(d.keys.contains_key(all[i as int]));
            },
            Some(val) => {
                let c = chars_of(val.as_str());
                let k = chars_of(u.order[i].as_str());
                if ends(c.as_slice(), ".pma") && holds(k.as_slice(), want) {
                    let ghost before = texts(v@);
                    v.push(strip_ext(val.as_str()));
                    assert(texts(v@) =~= before.push(bare(val@)));
                }
            },
        }
        i = i + 1;
    }
    assert(all.take(i as int) =~= all);
    dedup(sort(v))
}

/// The texts that are not empty.
pub open spec fn given(v: Seq<Seq<char>>) -> Seq<Seq<char>>
    decreases v.len(),
{
    if v.len() == 0 {
        Seq::empty()
    } else if v.last().len() > 0 {
        given(v.drop_last()).push(v.last())
    } else {
        given(v.drop_last())
    }
}

fn only_given(v: Vec<String>) -> (r: Vec<String>)
    ensures
        texts(r@) == given(texts(v@)),
{
    let ghost all = texts(v@);
    let mut r: Vec<String> = Vec::new();
    let mut i: usize = 0;
    assert(texts(r@) =~= given(all.take(0)));
    while i < v.len()
        invariant
            i <= v@.len(),
            all == texts(v@),
            texts(r@) == given(all.take(i as int)),
        decreases v@.len() - i,
    {
        assert(all.take(i + 1).drop_last() =~= all.take(i as int));
        let c = chars_of(v[i].as_str());
        if c.len() > 0 {
            let ghost before = texts(r@);
            r.push(v[i].clone());
            assert(texts(r@) =~= before.push(all[i as int]));
        }
        i = i + 1;
    }
    assert(all.take(i as int) =~= all);
    r
}

fn one(a: String) -> (r: Vec<String>)
    ensures
        texts(r@) == seq![a@],
{
    let mut r: Vec<String> = Vec::new();
    r.push(a);
    assert(texts(r@) =~= seq![a@]);
    r
}

fn two(a: String, b: String) -> (r: Vec<String>)
    ensures
        texts(r@) == seq![a@, b@],
{
    let mut r: Vec<String> = Vec::new();
    r.push(a);
    r.push(b);
    assert(texts(r@) =~= seq![a@, b@]);
    r
}

fn three(a: String, b: String, c: String) -> (r: Vec<String>)
    ensures
        texts(r@) == seq![a@, b@, c@],
{
    let mut r: Vec<String> = Vec::new();
    r.push(a);
    r.push(b);
    r.push(c);
    assert(texts(r@) =~= seq![a@, b@, c@]);
    r
}

/// The model that a definition names under `key`, if it does.
pub open spec fn extra_of(
    d: Defs,
    kind: Seq<char>,
    key: Seq<char>,
    name: Seq<char>,
    anims: Seq<Seq<char>>,
    variant: Seq<char>,
) -> Seq<ExtraView> {
    match d.get(key) {
        Some(m) => seq![
            ExtraView {
                name,
                kind,
                model: bare(m),
                anims,
                variants: given(seq![or_empty(d.get(variant))]),
            },
        ],
        None => Seq::empty(),
    }
}

/// The openable windows and the wipers.
pub open spec fn moving_parts(u: Option<UnitView>, kind: Seq<char>) -> Seq<ExtraView> {
    match u {
        Some(u) => extra_of(
            u.defs,
            kind,
            "windows_model"@,
            "windows"@,
            anims(u.defs, "window"@),
            "variant"@,
        ) + extra_of(
            u.defs,
            kind,
            "wiper_model"@,
            "wipers"@,
            anims(u.defs, "wiper"@),
            "variant"@,
        ),
        None => Seq::empty(),
    }
}

/// The animated dashboard, and what the cabin looks like from outside.
pub open spec fn interior_parts(u: Option<UnitView>) -> Seq<ExtraView> {
    match u {
        Some(u) => extra_of(
            u.defs,
            "interior"@,
            "animated_model"@,
            "dashboard"@,
            anims(u.defs, ""@),
            "variant"@,
        ) + extra_of(
            u.defs,
            "exterior"@,
            "ext_model"@,
            "ext_interior"@,
            Seq::empty(),
            "ext_variant"@,
        ),
        None => Seq::empty(),
    }
}

/// The definitions of a cabin or a chassis by its name.
pub open spec fn part_unit(t: Nodes, v: VehicleView, what: Seq<char>, name: Seq<char>) -> Option<
    UnitView,
> {
    unit_in(t, within(v.def_dir.push(what), name + ".sii"@))
}

/// The definitions in a file that may not have been chosen.
pub open spec fn chosen_unit(t: Nodes, p: Option<Seq<Seq<char>>>) -> Option<UnitView> {
    match p {
        Some(p) => unit_in(t, p),
        None => None,
    }
}

pub open spec fn opt_path(o: Option<&Vec<String>>) -> Option<Seq<Seq<char>>> {
    match o {
        Some(p) => Some(texts(p@)),
        None => None,
    }
}

fn add_extra(
    u: &SiiUnit,
    kind: &'static str,
    key: &str,
    name: &str,
    anims: Vec<String>,
    variant: &str,
    out: &mut Vec<ExtraModel>,
)
    ensures
        extra_views(final(out)@) == extra_views(old(out)@) + extra_of(
            u@.defs,
            kind@,
            key@,
            name@,
            texts(anims@),
            variant@,
        ),
{
    let ghost was = extra_views(out@);
    match u.get(key) {
        Some(m) => {
            let e = ExtraModel {
                name: name.to_owned(),
                kind,
                model: strip_ext(m),
                anims,
                variants: only_given(one(value_or_empty(u, variant))),
            };
            let ghost seen = e@;
            out.push(e);
            assert(extra_views(out@) =~= was + seq![seen]);
        },
        None => {
            assert(extra_views(out@) =~= was + Seq::<ExtraView>::empty());
        },
    }
}

fn add_moving(u: &Option<SiiUnit>, kind: &'static str, out: &mut Vec<ExtraModel>)
    requires
        u matches Some(u) ==> u.wf(),
    ensures
        extra_views(final(out)@) == extra_views(old(out)@) + moving_parts(opt_unit(*u), kind@),
{
    let ghost was = extra_views(out@);
    match u {
        Some(u) => {
            let a = anim_values(u, "window");
            add_extra(u, kind, "windows_model", "windows", a, "variant", out);
            let a = anim_values(u, "wiper");
            add_extra(u, kind, "wiper_model", "wipers", a, "variant", out);
        },
        None => {},
    }
    assert(extra_views(out@) =~= was + moving_parts(opt_unit(*u), kind@));
}

/// Collect the animated models declared by the chosen cabin, chassis and
/// interior. Wipers and openable windows belong to the cab, so they mount on the
/// cabin model when there is a separate one.
pub fn resolve_extras(
    tree: &Tree,
    v: &VehicleDef,
    cabin: &str,
    chassis: &str,
    interior_sii: Option<&Vec<String>>,
) -> (r: Vec<ExtraModel>)
    requires
        tree.wf(),
    ensures
        extra_views(r@) == moving_parts(part_unit(tree@, v@, "cabin"@, cabin@), "cabin"@)
            + moving_parts(part_unit(tree@, v@, "chassis"@, chassis@), "exterior"@)
            + interior_parts(chosen_unit(tree@, opt_path(interior_sii))),
{
    let mut out: Vec<ExtraModel> = Vec::new();
    assert(extra_views(out@) =~= Seq::<ExtraView>::empty());
    let u = parse(tree, &join(&step(&v.def_dir, "cabin"), cat(cabin, ".sii").as_str()));
    add_moving(&u, "cabin", &mut out);
    let u = parse(tree, &join(&step(&v.def_dir, "chassis"), cat(chassis, ".sii").as_str()));
    add_moving(&u, "exterior", &mut out);
    let ghost so_far = extra_views(out@);
    let u: Option<SiiUnit> = match interior_sii {
        Some(p) => parse(tree, p),
        None => None,
    };
    match &u {
        Some(u) => {
            let a = anim_values(u, "");
            add_extra(u, "interior", "animated_model", "dashboard", a, "variant", &mut out);
            let none: Vec<String> = Vec::new();
            assert(texts(none@) =~= Seq::<Seq<char>>::empty());
            add_extra(u, "exterior", "ext_model", "ext_interior", none, "ext_variant", &mut out);
        },
        None => {},
    }
    assert(extra_views(out@) =~= so_far + interior_parts(
        chosen_unit(tree@, opt_path(interior_sii)),
    ));
    assert(so_far =~= moving_parts(part_unit(tree@, v@, "cabin"@, cabin@), "cabin"@)
        + moving_parts(part_unit(tree@, v@, "chassis"@, chassis@), "exterior"@));
    out
}

// ------------------------------------------------------------ interiors ---

pub struct InteriorDef {
    pub stem: String,
    pub variant: String,
    /// the interior model named by the .sii
    pub model: String,
    /// from the root of the tree
    pub sii: Vec<String>,
}

#[verifier::ext_equal]
pub struct InteriorView {
    pub stem: Seq<char>,
    pub variant: Seq<char>,
    pub model: Seq<char>,
    pub sii: Seq<Seq<char>>,
}

impl View for InteriorDef {
    type V = InteriorView;

    open spec fn view(&self) -> InteriorView {
        InteriorView {
            stem: self.stem@,
            variant: self.variant@,
            model: self.model@,
            sii: texts(self.sii@),
        }
    }
}

pub open spec fn interior_views(v: Seq<InteriorDef>) -> Seq<InteriorView> {
    Seq::new(v.len(), |i: int| v[i]@)
}

/// The mesh of a definition. `model` is the normal key, but plenty of mods only
/// fill in `detail_model`.
pub open spec fn mesh_of(d: Defs) -> Option<Seq<char>> {
    match d.get("model"@) {
        Some(m) => Some(unrooted(bare(m))),
        None => match d.get("detail_model"@) {
            Some(m) => Some(unrooted(bare(m))),
            None => None,
        },
    }
}

pub fn model_of(u: &SiiUnit) -> (r: Option<String>)
    ensures
        opt_text(r) == mesh_of(u@.defs),
{
    match u.get("model") {
        Some(m) => Some(unroot_str(strip_ext(m).as_str())),
        None => match u.get("detail_model") {
            Some(m) => Some(unroot_str(strip_ext(m).as_str())),
            None => None,
        },
    }
}

/// The interior that the file with a stem defines, if it names a mesh.
pub open spec fn interior_of(t: Nodes, dir: Seq<Seq<char>>, name: Seq<char>) -> Option<
    InteriorView,
> {
    match (stem_before(name, "sii"@), unit_in(t, dir.push(name))) {
        (Some(stem), Some(u)) => match mesh_of(u.defs) {
            Some(model) => Some(
                InteriorView {
                    stem,
                    variant: or_empty(u.defs.get("variant"@)),
                    model,
                    sii: dir.push(name),
                },
            ),
            None => None,
        },
        _ => None,
    }
}

pub open spec fn interiors_of(t: Nodes, dir: Seq<Seq<char>>, stems: Seq<Seq<char>>) -> Seq<
    InteriorView,
>
    decreases stems.len(),
{
    if stems.len() == 0 {
        Seq::empty()
    } else {
        match interior_of(t, dir, stems.last() + ".sii"@) {
            Some(i) => interiors_of(t, dir, stems.drop_last()).push(i),
            None => interiors_of(t, dir, stems.drop_last()),
        }
    }
}

/// Interior definitions, which name both the model and the variant, in the order
/// of their stems.
pub fn interiors(tree: &Tree, v: &VehicleDef) -> (r: Vec<InteriorDef>)
    requires
        tree.wf(),
    ensures
        interior_views(r@) == interiors_of(
            tree@,
            v@.def_dir.push("interior"@),
            ordered(
                crate::vehicle::sii_stems(listed(tree@, v@.def_dir.push("interior"@))),
            ),
        ),
{
    let dir = step(&v.def_dir, "interior");
    let stems = crate::vehicle::stem_list(tree, &dir);
    let ghost all = texts(stems@);
    let ghost d = texts(dir@);
    let mut out: Vec<InteriorDef> = Vec::new();
    let mut i: usize = 0;
    assert(interior_views(out@) =~= interiors_of(tree@, d, all.take(0)));
    while i < stems.len()
        invariant
            i <= stems@.len(),
            all == texts(stems@),
            d == texts(dir@),
            tree.wf(),
            interior_views(out@) == interiors_of(tree@, d, all.take(i as int)),
        decreases stems@.len() - i,
    {
        assert(all.take(i + 1).drop_last() =~= all.take(i as int));
        let name = cat(stems[i].as_str(), ".sii");
        let p = step(&dir, name.as_str());
        match stem_of(name.as_str(), "sii") {
            None => {},
            Some(stem) => match parse(tree, &p) {
                None => {},
                Some(u) => match model_of(&u) {
                    None => {},
                    Some(model) => {
                        let x = InteriorDef {
                            stem,
                            variant: value_or_empty(&u, "variant"),
                            model,
                            sii: p,
                        };
                        let ghost before = interior_views(out@);
                        let ghost seen = x@;
                        out.push(x);
                        assert(interior_views(out@) =~= before.push(seen));
                    },
                },
            },
        }
        i = i + 1;
    }
    assert(all.take(i as int) =~= all);
    out
}

// --------------------------------------------------------------- bodies ---

/// One of the vehicle's own models, as opposed to a bolt-on accessory.
pub struct MainModel {
    /// "exterior" (the chassis), "cabin" or "interior"
    pub role: &'static str,
    pub model: String,
    /// Variants declared for this specific model by its own .sii.
    pub variants: Vec<String>,
}

#[verifier::ext_equal]
pub struct MainView {
    pub role: Seq<char>,
    pub model: Seq<char>,
    pub variants: Seq<Seq<char>>,
}

impl View for MainModel {
    type V = MainView;

    open spec fn view(&self) -> MainView {
        MainView { role: self.role@, model: self.model@, variants: texts(self.variants@) }
    }
}

pub open spec fn main_views(v: Seq<MainModel>) -> Seq<MainView> {
    Seq::new(v.len(), |i: int| v[i]@)
}

pub open spec fn unit_mesh(u: Option<UnitView>) -> Option<Seq<char>> {
    match u {
        Some(u) => mesh_of(u.defs),
        None => None,
    }
}

pub open spec fn unit_value(u: Option<UnitView>, k: Seq<char>) -> Seq<char> {
    match u {
        Some(u) => or_empty(u.defs.get(k)),
        None => Seq::empty(),
    }
}

/// One body, if there is a mesh for it.
pub open spec fn body(role: Seq<char>, model: Option<Seq<char>>, variants: Seq<Seq<char>>) -> Seq<
    MainView,
> {
    match model {
        Some(model) => seq![MainView { role, model, variants: given(variants) }],
        None => Seq::empty(),
    }
}

/// The bodies of a vehicle, given the definitions of its chassis, cabin and
/// interior. Where chassis and cabin share a file it is one body with the
/// variants of both. The interior also dictates a variant of the exterior: the
/// body's window and door layout has to match the seating plan inside.
pub open spec fn bodies(
    chassis: Option<UnitView>,
    cabin: Option<UnitView>,
    interior: Option<UnitView>,
) -> Seq<MainView> {
    let c = unit_mesh(chassis);
    let k = unit_mesh(cabin);
    let cv = unit_value(chassis, "variant"@);
    let kv = unit_value(cabin, "variant"@);
    let ev = unit_value(interior, "ext_variant"@);
    (if c is Some && c == k {
        body("exterior"@, c, seq![cv, kv, ev])
    } else {
        body("exterior"@, c, seq![cv, ev]) + body("cabin"@, k, seq![kv, ev])
    }) + body("interior"@, unit_mesh(interior), seq![unit_value(interior, "variant"@)])
}

fn mesh(u: &Option<SiiUnit>) -> (r: Option<String>)
    ensures
        opt_text(r) == unit_mesh(opt_unit(*u)),
{
    match u {
        Some(u) => model_of(u),
        None => None,
    }
}

fn value(u: &Option<SiiUnit>, k: &str) -> (r: String)
    ensures
        r@ == unit_value(opt_unit(*u), k@),
{
    match u {
        Some(u) => value_or_empty(u, k),
        None => String::new(),
    }
}

fn add_body(
    role: &'static str,
    model: Option<String>,
    variants: Vec<String>,
    out: &mut Vec<MainModel>,
)
    ensures
        main_views(final(out)@) == main_views(old(out)@) + body(
            role@,
            opt_text(model),
            texts(variants@),
        ),
{
    let ghost was = main_views(out@);
    match model {
        Some(model) => {
            let m = MainModel { role, model, variants: only_given(variants) };
            let ghost seen = m@;
            out.push(m);
            assert(main_views(out@) =~= was + seq![seen]);
        },
        None => {
            assert(main_views(out@) =~= was + Seq::<MainView>::empty());
        },
    }
}

/// The vehicle's own models.
///
/// A conventional truck keeps the chassis frame and the cab in two separate
/// .pmg files; a bus usually ships one model that is both, referenced by the
/// chassis and the cabin alike. Handle both: import each distinct file once, and
/// when the two roles share a file, give that single model both their variants.
pub fn main_models(
    tree: &Tree,
    v: &VehicleDef,
    cabin: &str,
    chassis: &str,
    interior_sii: Option<&Vec<String>>,
) -> (r: Vec<MainModel>)
    requires
        tree.wf(),
    ensures
        main_views(r@) == bodies(
            part_unit(tree@, v@, "chassis"@, chassis@),
            part_unit(tree@, v@, "cabin"@, cabin@),
            chosen_unit(tree@, opt_path(interior_sii)),
        ),
{
    let chassis_u = parse(
        tree,
        &join(&step(&v.def_dir, "chassis"), cat(chassis, ".sii").as_str()),
    );
    let cabin_u = parse(tree, &join(&step(&v.def_dir, "cabin"), cat(cabin, ".sii").as_str()));
    let interior_u: Option<SiiUnit> = match interior_sii {
        Some(p) => parse(tree, p),
        None => None,
    };
    let c = mesh(&chassis_u);
    let k = mesh(&cabin_u);
    let cv = value(&chassis_u, "variant");
    let kv = value(&cabin_u, "variant");
    let ev = value(&interior_u, "ext_variant");
    let mut out: Vec<MainModel> = Vec::new();
    assert(main_views(out@) =~= Seq::<MainView>::empty());
    let shared = match (&c, &k) {
        (Some(a), Some(b)) => same_str(a.as_str(), b.as_str()),
        _ => false,
    };
    assert(shared == (opt_text(c) is Some && opt_text(c) == opt_text(k)));
    if shared {
        add_body("exterior", c, three(cv, kv, ev), &mut out);
    } else {
        add_body("exterior", c, two(cv, ev.clone()), &mut out);
        add_body("cabin", k, two(kv, ev), &mut out);
    }
    let iv = value(&interior_u, "variant");
    add_body("interior", mesh(&interior_u), one(iv), &mut out);
    assert(main_views(out@) =~= bodies(
        opt_unit(chassis_u),
        opt_unit(cabin_u),
        opt_unit(interior_u),
    ));
    out
}

/// The chassis and the cabin of a vehicle never come out as two bodies of the
/// same file.
pub proof fn distinct_files_come_out_once(
    chassis: Option<UnitView>,
    cabin: Option<UnitView>,
    interior: Option<UnitView>,
    i: int,
    j: int,
)
    requires
        0 <= i < j < bodies(chassis, cabin, interior).len(),
        bodies(chassis, cabin, interior)[j].role != "interior"@,
    ensures
        bodies(chassis, cabin, interior)[i].model != bodies(chassis, cabin, interior)[j].model,
{
}

/// Where one file is both chassis and cabin, it is one body that shows the variants
/// of both, and the one that the interior asks of the outside.
pub proof fn a_shared_body_shows_both_variants(
    chassis: Option<UnitView>,
    cabin: Option<UnitView>,
    interior: Option<UnitView>,
)
    requires
        unit_mesh(chassis) is Some,
        unit_mesh(chassis) == unit_mesh(cabin),
    ensures
        bodies(chassis, cabin, interior).len() > 0,
        bodies(chassis, cabin, interior)[0] == (MainView {
            role: "exterior"@,
            model: unit_mesh(chassis)->0,
            variants: given(
                seq![
                    unit_value(chassis, "variant"@),
                    unit_value(cabin, "variant"@),
                    unit_value(interior, "ext_variant"@),
                ],
            ),
        }),
{
}

} // verus!
