//! Working out from its definitions which models make up a vehicle.

use crate::salvage::push_texts;
use crate::sii::{parse, unit_at, unit_in, Defs, SiiUnit, UnitView};
use crate::text::{
    after_prefix, before_suffix, cat, cat3, chars_of, clone_texts, contains_text, debug_text,
    found_from, joined, ordered, quoted_debug, same_str, sort, string_of, strip_prefix,
    strip_suffix, texts, trim, trimmed, unroot, unrooted,
};
use crate::tree::{
    base_of, file_in, folder_in, join, listed, node_at, spelled, stem_before, stem_of, steps,
    steps_of, within, Nodes, Tree,
};
use vstd::hash_set::StringHashSet;
use vstd::prelude::*;

verus! {

// ------------------------------------------------------------- vehicles ---

pub struct VehicleDef {
    /// from the root of the tree
    pub def_dir: Vec<String>,
    pub name: String,
    pub cabins: Vec<String>,
    pub chassis: Vec<String>,
    pub required: Vec<String>,
}

#[verifier::ext_equal]
pub struct VehicleView {
    pub def_dir: Seq<Seq<char>>,
    pub name: Seq<char>,
    pub cabins: Seq<Seq<char>>,
    pub chassis: Seq<Seq<char>>,
    pub required: Seq<Seq<char>>,
}

impl View for VehicleDef {
    type V = VehicleView;

    open spec fn view(&self) -> VehicleView {
        VehicleView {
            def_dir: texts(self.def_dir@),
            name: self.name@,
            cabins: texts(self.cabins@),
            chassis: texts(self.chassis@),
            required: texts(self.required@),
        }
    }
}

pub open spec fn vehicle_views(v: Seq<VehicleDef>) -> Seq<VehicleView> {
    Seq::new(v.len(), |i: int| v[i]@)
}

/// The stems of the names that end in `.sii`.
pub open spec fn sii_stems(v: Seq<Seq<char>>) -> Seq<Seq<char>>
    decreases v.len(),
{
    if v.len() == 0 {
        Seq::empty()
    } else {
        match stem_before(v.last(), "sii"@) {
            Some(s) => sii_stems(v.drop_last()).push(s),
            None => sii_stems(v.drop_last()),
        }
    }
}

/// The names that end in `.sii`.
pub open spec fn sii_names(v: Seq<Seq<char>>) -> Seq<Seq<char>>
    decreases v.len(),
{
    if v.len() == 0 {
        Seq::empty()
    } else if stem_before(v.last(), "sii"@) is Some {
        sii_names(v.drop_last()).push(v.last())
    } else {
        sii_names(v.drop_last())
    }
}

pub fn stem_list(tree: &Tree, dir: &Vec<String>) -> (r: Vec<String>)
    requires
        tree.wf(),
    ensures
        texts(r@) == ordered(sii_stems(listed(tree@, texts(dir@)))),
{
    let names = tree.list(dir);
    let ghost all = texts(names@);
    let mut r: Vec<String> = Vec::new();
    let mut i: usize = 0;
    assert(texts(r@) =~= sii_stems(all.take(0)));
    while i < names.len()
        invariant
            i <= names@.len(),
            all == texts(names@),
            texts(r@) == sii_stems(all.take(i as int)),
        decreases names@.len() - i,
    {
        assert(all.take(i + 1).drop_last() =~= all.take(i as int));
        match stem_of(names[i].as_str(), "sii") {
            Some(s) => {
                let ghost before = texts(r@);
                r.push(s);
                assert(texts(r@) =~= before.push(s@));
            },
            None => {},
        }
        i = i + 1;
    }
    assert(all.take(i as int) =~= all);
    sort(r)
}

pub(crate) fn sii_list(tree: &Tree, dir: &Vec<String>) -> (r: Vec<String>)
    requires
        tree.wf(),
    ensures
        texts(r@) == ordered(sii_names(listed(tree@, texts(dir@)))),
{
    let names = tree.list(dir);
    let ghost all = texts(names@);
    let mut r: Vec<String> = Vec::new();
    let mut i: usize = 0;
    assert(texts(r@) =~= sii_names(all.take(0)));
    while i < names.len()
        invariant
            i <= names@.len(),
            all == texts(names@),
            texts(r@) == sii_names(all.take(i as int)),
        decreases names@.len() - i,
    {
        assert(all.take(i + 1).drop_last() =~= all.take(i as int));
        if stem_of(names[i].as_str(), "sii").is_some() {
            let ghost before = texts(r@);
            r.push(names[i].clone());
            assert(texts(r@) =~= before.push(all[i as int]));
        }
        i = i + 1;
    }
    assert(all.take(i as int) =~= all);
    sort(r)
}

/// A path one name further.
pub(crate) fn step(p: &Vec<String>, name: &str) -> (r: Vec<String>)
    ensures
        texts(r@) == texts(p@).push(name@),
{
    let mut r = clone_texts(p);
    r.push(name.to_owned());
    assert(texts(r@) =~= texts(p@).push(name@));
    r
}

/// Where the trucks are defined.
pub open spec fn trucks() -> Seq<Seq<char>> {
    seq!["def"@, "vehicle"@, "truck"@]
}

/// The definition of the truck `name`, if there is one.
pub open spec fn vehicle_named(t: Nodes, name: Seq<char>) -> Option<VehicleView> {
    let dir = trucks().push(name);
    if !folder_in(t, dir) {
        None
    } else {
        match unit_in(t, dir.push("data.sii"@)) {
            None => None,
            Some(u) => Some(
                VehicleView {
                    def_dir: dir,
                    name,
                    cabins: ordered(sii_stems(listed(t, dir.push("cabin"@)))),
                    chassis: ordered(sii_stems(listed(t, dir.push("chassis"@)))),
                    required: u.defs.list("require"@),
                },
            ),
        }
    }
}

pub open spec fn vehicles_named(t: Nodes, names: Seq<Seq<char>>) -> Seq<VehicleView>
    decreases names.len(),
{
    if names.len() == 0 {
        Seq::empty()
    } else {
        match vehicle_named(t, names.last()) {
            Some(v) => vehicles_named(t, names.drop_last()).push(v),
            None => vehicles_named(t, names.drop_last()),
        }
    }
}

/// Find every truck definition in an extracted archive, in the order of their
/// names.
pub fn find_vehicles(tree: &Tree) -> (r: Vec<VehicleDef>)
    requires
        tree.wf(),
    ensures
        vehicle_views(r@) == vehicles_named(tree@, ordered(listed(tree@, trucks()))),
{
    let mut at: Vec<String> = Vec::new();
    at.push("def".to_owned());
    at.push("vehicle".to_owned());
    at.push("truck".to_owned());
    assert(texts(at@) =~= trucks());
    let names = sort(tree.list(&at));
    let ghost all = texts(names@);
    let mut out: Vec<VehicleDef> = Vec::new();
    let mut i: usize = 0;
    assert(vehicle_views(out@) =~= vehicles_named(tree@, all.take(0)));
    while i < names.len()
        invariant
            i <= names@.len(),
            all == texts(names@),
            tree.wf(),
            texts(at@) == trucks(),
            vehicle_views(out@) == vehicles_named(tree@, all.take(i as int)),
        decreases names@.len() - i,
    {
        assert(all.take(i + 1).drop_last() =~= all.take(i as int));
        let dir = step(&at, names[i].as_str());
        if tree.is_folder(&dir) {
            match parse(tree, &step(&dir, "data.sii")) {
                None => {},
                Some(u) => {
                    let required = own(u.list("require"));
                    let v = VehicleDef {
                        name: names[i].clone(),
                        cabins: stem_list(tree, &step(&dir, "cabin")),
                        chassis: stem_list(tree, &step(&dir, "chassis")),
                        required,
                        def_dir: dir,
                    };
                    let ghost before = vehicle_views(out@);
                    let ghost seen = v@;
                    out.push(v);
                    assert(vehicle_views(out@) =~= before.push(seen));
                },
            }
        }
        i = i + 1;
    }
    assert(all.take(i as int) =~= all);
    out
}

fn own(v: &[String]) -> (r: Vec<String>)
    ensures
        texts(r@) == texts(v@),
{
    let mut r: Vec<String> = Vec::new();
    let mut i: usize = 0;
    while i < v.len()
        invariant
            i <= v@.len(),
            texts(r@) =~= texts(v@).take(i as int),
        decreases v@.len() - i,
    {
        let ghost before = texts(r@);
        r.push(v[i].clone());
        assert(texts(r@) =~= before.push(v@[i as int]@));
        i = i + 1;
    }
    r
}

/// The name of a vehicle's own folder, with a slash behind it.
pub open spec fn own_mark(dir: Seq<Seq<char>>) -> Seq<char> {
    if dir.len() > 0 {
        dir.last() + "/"@
    } else {
        Seq::empty()
    }
}

/// What a reference without its root names inside a vehicle's own folder. References
/// are absolute, such as `def/vehicle/truck/<name>/accessory/roof/shape2.sii`, or
/// begin with the path of the folder; of any other, what follows the first `<name>/`
/// counts.
pub open spec fn inside_def(dir: Seq<Seq<char>>, clean: Seq<char>) -> Seq<char> {
    match after_prefix(clean, "def/vehicle/truck/"@ + own_mark(dir)) {
        Some(tail) => tail,
        None => match after_prefix(clean, joined(dir, "/"@) + "/"@) {
            Some(tail) => tail,
            None => match found_from(clean, own_mark(dir), 0) {
                Some(i) => clean.skip(i + own_mark(dir).len()),
                None => clean,
            },
        },
    }
}

/// Where a reference leads, as seen from the vehicle's own folder.
pub open spec fn from_def(dir: Seq<Seq<char>>, reference: Seq<char>) -> Seq<Seq<char>> {
    dir + steps(inside_def(dir, unrooted(reference)))
}

pub fn rel_to_def(dir: &Vec<String>, reference: &str) -> (r: Vec<String>)
    ensures
        texts(r@) == from_def(texts(dir@), reference@),
{
    let c = chars_of(reference);
    let clean = unroot(c.as_slice());
    let own = if dir.len() > 0 {
        cat(dir[dir.len() - 1].as_str(), "/")
    } else {
        String::new()
    };
    proof {
        if dir@.len() > 0 {
            assert(texts(dir@).last() == dir@.last()@);
        }
        assert(own@ =~= own_mark(texts(dir@)));
        crate::text::lemma_found(clean@, own@, 0);
    }
    let len: usize = clean.len();
    let full = cat("def/vehicle/truck/", own.as_str());
    let path = cat(crate::text::join(dir, "/").as_str(), "/");
    let mark = chars_of(own.as_str());
    let tail: &[char] = match strip_prefix(clean, full.as_str()) {
        Some(t) => t,
        None => match strip_prefix(clean, path.as_str()) {
            Some(t) => t,
            None => match crate::text::find_sub(clean, mark.as_slice()) {
                Some(i) => {
                    let t = &clean[i + mark.len()..len];
                    assert(t@ =~= clean@.skip(i + mark@.len()));
                    t
                },
                None => clean,
            },
        },
    };
    assert(tail@ == inside_def(texts(dir@), clean@));
    let mut r = clone_texts(dir);
    let more = steps_of(tail);
    push_texts(&mut r, &more);
    r
}

/// An absolute reference into a vehicle's own folder leads to what it names there,
/// whatever the folder is called.
pub proof fn absolute_references_lead_into_the_folder(dir: Seq<Seq<char>>, tail: Seq<char>)
    requires
        dir.len() > 0,
    ensures
        from_def(dir, "/def/vehicle/truck/"@ + dir.last() + "/"@ + tail) == dir + steps(tail),
{
    reveal_strlit("/def/vehicle/truck/");
    reveal_strlit("def/vehicle/truck/");
    let mark = "def/vehicle/truck/"@ + own_mark(dir);
    let clean = mark + tail;
    let reference = "/def/vehicle/truck/"@ + dir.last() + "/"@ + tail;
    assert(reference =~= seq!['/'] + clean);
    assert(reference.skip(1) =~= clean);
    assert(clean[0] == 'd');
    reveal_with_fuel(crate::text::front_trimmed, 3);
    assert(unrooted(reference) == clean);
    assert(mark.is_prefix_of(clean));
    assert(clean.skip(mark.len() as int) =~= tail);
}

/// An archive path without the extension of a model or an animation.
pub open spec fn bare(model: Seq<char>) -> Seq<char> {
    let m = trimmed(model);
    match before_suffix(m, ".pmd"@) {
        Some(s) => s,
        None => match before_suffix(m, ".pmg"@) {
            Some(s) => s,
            None => match before_suffix(m, ".pmc"@) {
                Some(s) => s,
                None => match before_suffix(m, ".pma"@) {
                    Some(s) => s,
                    None => match before_suffix(m, ".pms"@) {
                        Some(s) => s,
                        None => m,
                    },
                },
            },
        },
    }
}

/// Converters want archive paths without an extension.
pub fn strip_ext(model: &str) -> (r: String)
    ensures
        r@ == bare(model@),
{
    let c = chars_of(model);
    let m = trim(c.as_slice());
    let s = match strip_suffix(m, ".pmd") {
        Some(s) => s,
        None => match strip_suffix(m, ".pmg") {
            Some(s) => s,
            None => match strip_suffix(m, ".pmc") {
                Some(s) => s,
                None => match strip_suffix(m, ".pma") {
                    Some(s) => s,
                    None => match strip_suffix(m, ".pms") {
                        Some(s) => s,
                        None => m,
                    },
                },
            },
        },
    };
    string_of(s)
}

// ---------------------------------------------------------- accessories ---

pub struct Accessory {
    pub slot: String,
    /// "exterior" or "interior"
    pub kind: &'static str,
    /// archive path, no extension
    pub model: String,
    /// which .sii chose this shape, for tracing a bad mount
    pub sii: String,
    /// Accessory models carry variants of their own. Ignoring this leaves every
    /// layout stacked on top of the others.
    pub variant: String,
}

#[verifier::ext_equal]
pub struct AccessoryView {
    pub slot: Seq<char>,
    pub kind: Seq<char>,
    pub model: Seq<char>,
    pub sii: Seq<char>,
    pub variant: Seq<char>,
}

impl View for Accessory {
    type V = AccessoryView;

    open spec fn view(&self) -> AccessoryView {
        AccessoryView {
            slot: self.slot@,
            kind: self.kind@,
            model: self.model@,
            sii: self.sii@,
            variant: self.variant@,
        }
    }
}

pub open spec fn accessory_views(v: Seq<Accessory>) -> Seq<AccessoryView> {
    Seq::new(v.len(), |i: int| v[i]@)
}

/// Whether a definition names a model to fit.
pub open spec fn fits(d: Defs) -> bool {
    d.get("exterior_model"@) is Some || d.get("interior_model"@) is Some
}

fn has_model(u: &SiiUnit) -> (r: bool)
    ensures
        r == fits(u@.defs),
{
    u.get("exterior_model").is_some() || u.get("interior_model").is_some()
}

/// The slots filled so far, each with its definition.
pub open spec fn filled(c: Seq<(Seq<char>, UnitView)>, slot: Seq<char>) -> bool {
    exists|i: int| 0 <= i < c.len() && (#[trigger] c[i]).0 == slot
}

/// The slot that a definition file is for: the name of its folder.
pub open spec fn slot_of(p: Seq<Seq<char>>) -> Seq<char> {
    if p.len() >= 2 && p[p.len() - 2] != ".."@ {
        p[p.len() - 2]
    } else {
        Seq::empty()
    }
}

/// Where the references `ds` lead.
pub open spec fn from_defs(dir: Seq<Seq<char>>, ds: Seq<Seq<char>>) -> Seq<Seq<Seq<char>>> {
    Seq::new(ds.len(), |i: int| from_def(dir, ds[i]))
}

/// A search through default shapes: the files still to read, those met, and the
/// slots filled.
#[verifier::ext_equal]
pub struct Hunt {
    pub queue: Seq<Seq<Seq<char>>>,
    pub seen: Set<Seq<char>>,
    pub chosen: Seq<(Seq<char>, UnitView)>,
}

/// Every place that a default shape of any file can refer to.
pub open spec fn referred(t: Nodes, dir: Seq<Seq<char>>, nodes: Nodes) -> Seq<Seq<Seq<char>>>
    decreases nodes.len(),
{
    if nodes.len() == 0 {
        Seq::empty()
    } else {
        referred(t, dir, nodes.drop_last()) + from_defs(
            dir,
            unit_at(t, nodes.last().0).defs.list("defaults"@),
        )
    }
}

/// Where a search begins: the cabin's and the chassis's own definitions.
pub open spec fn beginnings(dir: Seq<Seq<char>>, cabin: Seq<char>, chassis: Seq<char>) -> Seq<
    Seq<Seq<char>>,
> {
    seq![
        within(dir.push("cabin"@), cabin + ".sii"@),
        within(dir.push("chassis"@), chassis + ".sii"@),
    ]
}

pub open spec fn spellings(v: Seq<Seq<Seq<char>>>) -> Seq<Seq<char>> {
    Seq::new(v.len(), |i: int| spelled(v[i]))
}

/// Everything that a search can come by.
pub open spec fn reachable(t: Nodes, dir: Seq<Seq<char>>, start: Seq<Seq<Seq<char>>>) -> Seq<
    Seq<char>,
> {
    spellings(start) + spellings(referred(t, dir, t))
}

/// How many of the places have not been met.
pub open spec fn unmet(all: Seq<Seq<char>>, seen: Set<Seq<char>>) -> nat
    decreases all.len(),
{
    if all.len() == 0 {
        0
    } else {
        unmet(all.drop_last(), seen) + (if seen.contains(all.last()) {
            0nat
        } else {
            1
        })
    }
}

pub proof fn lemma_unmet(all: Seq<Seq<char>>, seen: Set<Seq<char>>, p: Seq<char>)
    ensures
        unmet(all, seen.insert(p)) <= unmet(all, seen),
        all.contains(p) && !seen.contains(p) ==> unmet(all, seen.insert(p)) < unmet(all, seen),
    decreases all.len(),
{
    if all.len() > 0 {
        lemma_unmet(all.drop_last(), seen, p);
        if all.contains(p) && all.last() != p {
            let i = all.index_of(p);
            assert(all.drop_last()[i] == p);
        }
    }
}

/// Whether everything queued can be come by.
pub open spec fn sound(t: Nodes, dir: Seq<Seq<char>>, start: Seq<Seq<Seq<char>>>, h: Hunt) -> bool {
    forall|i: int|
        0 <= i < h.queue.len() ==> reachable(t, dir, start).contains(spelled(#[trigger] h.queue[i]))
}

pub proof fn lemma_referred(t: Nodes, dir: Seq<Seq<char>>, nodes: Nodes, at: Seq<char>, i: int)
    requires
        node_at(nodes, at) is Some,
        0 <= i < unit_at(t, at).defs.list("defaults"@).len(),
    ensures
        referred(t, dir, nodes).contains(from_def(dir, unit_at(t, at).defs.list("defaults"@)[i])),
    decreases nodes.len(),
{
    let want = from_def(dir, unit_at(t, at).defs.list("defaults"@)[i]);
    let rest = referred(t, dir, nodes.drop_last());
    let last = from_defs(dir, unit_at(t, nodes.last().0).defs.list("defaults"@));
    if nodes.last().0 == at {
        assert(last[i] == want);
        assert((rest + last)[rest.len() + i] == want);
    } else {
        lemma_referred(t, dir, nodes.drop_last(), at, i);
        let k = rest.index_of(want);
        assert((rest + last)[k] == want);
    }
}

pub proof fn lemma_sound_push(
    t: Nodes,
    dir: Seq<Seq<char>>,
    start: Seq<Seq<Seq<char>>>,
    at: Seq<char>,
    i: int,
)
    requires
        node_at(t, at) is Some,
        0 <= i < unit_at(t, at).defs.list("defaults"@).len(),
    ensures
        reachable(t, dir, start).contains(
            spelled(from_def(dir, unit_at(t, at).defs.list("defaults"@)[i])),
        ),
{
    lemma_referred(t, dir, t, at, i);
    let want = from_def(dir, unit_at(t, at).defs.list("defaults"@)[i]);
    let k = referred(t, dir, t).index_of(want);
    let a = spellings(start);
    let b = spellings(referred(t, dir, t));
    assert(b[k] == spelled(want));
    assert((a + b)[a.len() + k] == spelled(want));
}

/// What one step of a search makes of it, where the last file queued is new and
/// is the one at `at`.
pub open spec fn hunt_step(
    t: Nodes,
    dir: Seq<Seq<char>>,
    name: Seq<char>,
    h: Hunt,
    at: Seq<char>,
) -> Hunt {
    let p = h.queue.last();
    let u = unit_at(t, at);
    let slot = slot_of(p);
    Hunt {
        queue: h.queue.drop_last() + from_defs(dir, u.defs.list("defaults"@)),
        seen: h.seen.insert(spelled(p)),
        chosen: if fits(u.defs) && slot != name && slot != "cabin"@ && slot != "chassis"@
            && !filled(h.chosen, slot) {
            h.chosen.push((slot, u))
        } else {
            h.chosen
        },
    }
}

pub proof fn lemma_step_sound(
    t: Nodes,
    dir: Seq<Seq<char>>,
    name: Seq<char>,
    start: Seq<Seq<Seq<char>>>,
    h: Hunt,
    at: Seq<char>,
)
    requires
        sound(t, dir, start, h),
        h.queue.len() > 0,
        node_at(t, at) is Some,
    ensures
        sound(t, dir, start, hunt_step(t, dir, name, h, at)),
{
    let n = hunt_step(t, dir, name, h, at);
    let old_len = h.queue.len() - 1;
    assert forall|i: int| 0 <= i < n.queue.len() implies reachable(t, dir, start).contains(
        spelled(#[trigger] n.queue[i]),
    ) by {
        if i < old_len {
            assert(n.queue[i] == h.queue[i]);
        } else {
            lemma_sound_push(t, dir, start, at, i - old_len);
        }
    }
}

/// Where a search ends.
pub open spec fn hunted(
    t: Nodes,
    dir: Seq<Seq<char>>,
    name: Seq<char>,
    start: Seq<Seq<Seq<char>>>,
    h: Hunt,
) -> Hunt
    decreases unmet(reachable(t, dir, start), h.seen), h.queue.len(),
    when sound(t, dir, start, h)
{
    if h.queue.len() == 0 {
        h
    } else {
        let p = h.queue.last();
        let rest = Hunt { queue: h.queue.drop_last(), ..h };
        proof {
            assert(reachable(t, dir, start).contains(spelled(h.queue[h.queue.len() - 1])));
            lemma_unmet(reachable(t, dir, start), h.seen, spelled(p));
        }
        if h.seen.contains(spelled(p)) {
            hunted(t, dir, name, start, rest)
        } else {
            match file_in(t, Seq::empty(), p) {
                None => hunted(
                    t,
                    dir,
                    name,
                    start,
                    Hunt { seen: h.seen.insert(spelled(p)), ..rest },
                ),
                Some(f) => {
                    proof {
                        lemma_step_sound(t, dir, name, start, h, f.0);
                    }
                    hunted(t, dir, name, start, hunt_step(t, dir, name, h, f.0))
                },
            }
        }
    }
}

/// The slots that default shapes fill.
pub open spec fn defaults_of(
    t: Nodes,
    v: VehicleView,
    cabin: Seq<char>,
    chassis: Seq<char>,
) -> Seq<(Seq<char>, UnitView)> {
    let start = beginnings(v.def_dir, cabin, chassis);
    hunted(
        t,
        v.def_dir,
        v.name,
        start,
        Hunt { queue: start, seen: Set::empty(), chosen: Seq::empty() },
    ).chosen
}

pub proof fn lemma_start_sound(t: Nodes, dir: Seq<Seq<char>>, start: Seq<Seq<Seq<char>>>)
    ensures
        sound(t, dir, start, Hunt { queue: start, seen: Set::empty(), chosen: Seq::empty() }),
{
    let a = spellings(start);
    let b = spellings(referred(t, dir, t));
    assert forall|i: int| 0 <= i < start.len() implies reachable(t, dir, start).contains(
        spelled(#[trigger] start[i]),
    ) by {
        assert((a + b)[i] == spelled(start[i]));
    }
}

/// `s` with the folders among `names`, each name once.
pub open spec fn with_folders(
    t: Nodes,
    dir: Seq<Seq<char>>,
    s: Seq<Seq<char>>,
    names: Seq<Seq<char>>,
) -> Seq<Seq<char>>
    decreases names.len(),
{
    if names.len() == 0 {
        s
    } else {
        let rest = with_folders(t, dir, s, names.drop_last());
        if folder_in(t, dir.push(names.last())) && !rest.contains(names.last()) {
            rest.push(names.last())
        } else {
            rest
        }
    }
}

/// Every accessory slot the mod ships, not just the ones marked required.
/// Fitting one shape from each is what makes the vehicle look like the vehicle
/// instead of a bare cab.
pub open spec fn all_slots(t: Nodes, v: VehicleView) -> Seq<Seq<char>> {
    let dir = v.def_dir.push("accessory"@);
    ordered(with_folders(t, dir, v.required, listed(t, dir)))
}

/// The first of the files `names` in `dir` that names a model.
pub open spec fn first_fit(t: Nodes, dir: Seq<Seq<char>>, names: Seq<Seq<char>>) -> Option<UnitView>
    decreases names.len(),
{
    if names.len() == 0 {
        None
    } else {
        match first_fit(t, dir, names.drop_last()) {
            Some(u) => Some(u),
            None => match unit_in(t, dir.push(names.last())) {
                Some(u) => if fits(u.defs) {
                    Some(u)
                } else {
                    None
                },
                None => None,
            },
        }
    }
}

pub open spec fn shape_for(t: Nodes, v: VehicleView, slot: Seq<char>) -> Option<UnitView> {
    let dir = within(v.def_dir.push("accessory"@), slot);
    first_fit(t, dir, ordered(sii_names(listed(t, dir))))
}

/// The slots filled and the warnings given.
#[verifier::ext_equal]
pub struct Fitting {
    pub chosen: Seq<(Seq<char>, UnitView)>,
    pub warnings: Seq<Seq<char>>,
}

/// Filling the slots `slots`, each that is still free, with its first shape.
pub open spec fn fitted(
    t: Nodes,
    v: VehicleView,
    chosen: Seq<(Seq<char>, UnitView)>,
    slots: Seq<Seq<char>>,
) -> Fitting
    decreases slots.len(),
{
    if slots.len() == 0 {
        Fitting { chosen, warnings: Seq::empty() }
    } else {
        let f = fitted(t, v, chosen, slots.drop_last());
        let slot = slots.last();
        if filled(f.chosen, slot) {
            f
        } else {
            match shape_for(t, v, slot) {
                Some(u) => Fitting { chosen: f.chosen.push((slot, u)), ..f },
                None => if v.required.contains(slot) {
                    Fitting {
                        warnings: f.warnings.push(
                            "required slot "@ + debug_text(slot) + " has no model"@,
                        ),
                        ..f
                    }
                } else {
                    f
                },
            }
        }
    }
}

pub open spec fn slots_of(c: Seq<(Seq<char>, UnitView)>) -> Seq<Seq<char>> {
    Seq::new(c.len(), |i: int| c[i].0)
}

/// The definition that fills a slot: the first one there.
pub open spec fn filling(c: Seq<(Seq<char>, UnitView)>, slot: Seq<char>) -> Option<UnitView>
    decreases c.len(),
{
    if c.len() == 0 {
        None
    } else {
        match filling(c.drop_last(), slot) {
            Some(u) => Some(u),
            None => if c.last().0 == slot {
                Some(c.last().1)
            } else {
                None
            },
        }
    }
}

/// A value, or nothing.
pub open spec fn or_empty(o: Option<Seq<char>>) -> Seq<char> {
    match o {
        Some(s) => s,
        None => Seq::empty(),
    }
}

/// The models that a definition fits at its slot. Where interior and exterior
/// name the same file it is fitted once.
pub open spec fn fitted_by(slot: Seq<char>, u: UnitView) -> Seq<AccessoryView> {
    let ext = u.defs.get("exterior_model"@);
    let inner = u.defs.get("interior_model"@);
    let sii = base_of(u.path);
    let variant = or_empty(u.defs.get("variant"@));
    (match ext {
        Some(m) => seq![
            AccessoryView { slot, kind: "exterior"@, model: bare(m), sii, variant },
        ],
        None => Seq::empty(),
    }) + (match inner {
        Some(m) => if ext is Some && bare(m) == bare(ext->0) {
            Seq::empty()
        } else {
            seq![AccessoryView { slot, kind: "interior"@, model: bare(m), sii, variant }]
        },
        None => Seq::empty(),
    })
}

pub open spec fn doubled(slot: Seq<char>, u: UnitView) -> Seq<Seq<char>> {
    match (u.defs.get("exterior_model"@), u.defs.get("interior_model"@)) {
        (Some(e), Some(i)) => if bare(e) == bare(i) {
            seq![
                "slot "@ + debug_text(slot)
                    + ": interior_model is the same file as exterior_model, imported once"@,
            ]
        } else {
            Seq::empty()
        },
        _ => Seq::empty(),
    }
}

pub open spec fn mounted(c: Seq<(Seq<char>, UnitView)>, slots: Seq<Seq<char>>) -> Seq<AccessoryView>
    decreases slots.len(),
{
    if slots.len() == 0 {
        Seq::empty()
    } else {
        mounted(c, slots.drop_last()) + (match filling(c, slots.last()) {
            Some(u) => fitted_by(slots.last(), u),
            None => Seq::empty(),
        })
    }
}

pub open spec fn mount_warnings(c: Seq<(Seq<char>, UnitView)>, slots: Seq<Seq<char>>) -> Seq<
    Seq<char>,
>
    decreases slots.len(),
{
    if slots.len() == 0 {
        Seq::empty()
    } else {
        mount_warnings(c, slots.drop_last()) + (match filling(c, slots.last()) {
            Some(u) => doubled(slots.last(), u),
            None => Seq::empty(),
        })
    }
}

/// The accessory set that the game would fit by default for one cabin and
/// chassis, in the order of the slots, and the warnings that come with it.
pub open spec fn accessories(
    t: Nodes,
    v: VehicleView,
    cabin: Seq<char>,
    chassis: Seq<char>,
) -> (Seq<AccessoryView>, Seq<Seq<char>>) {
    let f = fitted(t, v, defaults_of(t, v, cabin, chassis), all_slots(t, v));
    let slots = ordered(slots_of(f.chosen));
    (mounted(f.chosen, slots), f.warnings + mount_warnings(f.chosen, slots))
}

// ------------------------------------------------------------ resolving ---

pub open spec fn chosen_views(v: Seq<(String, SiiUnit)>) -> Seq<(Seq<char>, UnitView)> {
    Seq::new(v.len(), |i: int| (v[i].0@, v[i].1@))
}

fn is_filled(c: &Vec<(String, SiiUnit)>, slot: &str) -> (r: bool)
    ensures
        r == filled(chosen_views(c@), slot@),
{
    let ghost all = chosen_views(c@);
    let mut i: usize = 0;
    while i < c.len()
        invariant
            i <= c@.len(),
            all == chosen_views(c@),
            forall|j: int| 0 <= j < i ==> (#[trigger] all[j]).0 != slot@,
        decreases c@.len() - i,
    {
        if same_str(c[i].0.as_str(), slot) {
            assert(all[i as int].0 == slot@);
            return true;
        }
        i = i + 1;
    }
    false
}

fn find_filling<'a>(c: &'a Vec<(String, SiiUnit)>, slot: &str) -> (r: Option<&'a SiiUnit>)
    ensures
        match r {
            Some(u) => filling(chosen_views(c@), slot@) == Some(u@),
            None => filling(chosen_views(c@), slot@) is None,
        },
{
    let ghost all = chosen_views(c@);
    let mut i: usize = 0;
    assert(all.take(0) =~= Seq::<(Seq<char>, UnitView)>::empty());
    while i < c.len()
        invariant
            i <= c@.len(),
            all == chosen_views(c@),
            filling(all.take(i as int), slot@) is None,
        decreases c@.len() - i,
    {
        assert(all.take(i + 1).drop_last() =~= all.take(i as int));
        if same_str(c[i].0.as_str(), slot) {
            proof {
                lemma_filling_grows(all, i + 1, slot@);
            }
            return Some(&c[i].1);
        }
        i = i + 1;
    }
    assert(all.take(i as int) =~= all);
    None
}

proof fn lemma_filling_grows(c: Seq<(Seq<char>, UnitView)>, n: int, slot: Seq<char>)
    requires
        0 <= n <= c.len(),
        filling(c.take(n), slot) is Some,
    ensures
        filling(c, slot) == filling(c.take(n), slot),
    decreases c.len(),
{
    if n == c.len() {
        assert(c.take(n) =~= c);
    } else {
        assert(c.drop_last().take(n) =~= c.take(n));
        lemma_filling_grows(c.drop_last(), n, slot);
    }
}

fn slot_name(p: &Vec<String>) -> (r: String)
    ensures
        r@ == slot_of(texts(p@)),
{
    if p.len() >= 2 && !same_str(p[p.len() - 2].as_str(), "..") {
        p[p.len() - 2].clone()
    } else {
        String::new()
    }
}

/// Where a list of names leads.
spec fn place_in(t: Nodes, p: Seq<Seq<char>>) -> Seq<char> {
    let f = file_in(t, Seq::empty(), p)->0;
    f.0
}

pub open spec fn path_views(v: Seq<Vec<String>>) -> Seq<Seq<Seq<char>>> {
    Seq::new(v.len(), |i: int| texts(v[i]@))
}

fn push_refs(queue: &mut Vec<Vec<String>>, dir: &Vec<String>, ds: &[String])
    ensures
        path_views(final(queue)@) == path_views(old(queue)@) + from_defs(
            texts(dir@),
            texts(ds@),
        ),
{
    let ghost start = path_views(queue@);
    let ghost more = from_defs(texts(dir@), texts(ds@));
    let mut i: usize = 0;
    while i < ds.len()
        invariant
            i <= ds@.len(),
            more == from_defs(texts(dir@), texts(ds@)),
            path_views(queue@) =~= start + more.take(i as int),
        decreases ds@.len() - i,
    {
        let ghost before = path_views(queue@);
        queue.push(rel_to_def(dir, ds[i].as_str()));
        assert(path_views(queue@) =~= before.push(more[i as int]));
        i = i + 1;
    }
    assert(more.take(i as int) =~= more);
}

fn find_defaults(tree: &Tree, v: &VehicleDef, cabin: &str, chassis: &str) -> (r: Vec<
    (String, SiiUnit),
>)
    requires
        tree.wf(),
    ensures
        chosen_views(r@) == defaults_of(tree@, v@, cabin@, chassis@),
        forall|i: int| 0 <= i < r@.len() ==> (#[trigger] r@[i]).1.wf(),
{
    let ghost t = tree@;
    let ghost dir = v@.def_dir;
    let ghost start = beginnings(dir, cabin@, chassis@);
    let mut chosen: Vec<(String, SiiUnit)> = Vec::new();
    let mut seen = StringHashSet::new();
    let mut queue: Vec<Vec<String>> = Vec::new();
    queue.push(join(&step(&v.def_dir, "cabin"), cat(cabin, ".sii").as_str()));
    queue.push(join(&step(&v.def_dir, "chassis"), cat(chassis, ".sii").as_str()));
    assert(path_views(queue@) =~= start);
    let ghost mut h = Hunt { queue: start, seen: Set::empty(), chosen: Seq::empty() };
    let ghost begin = h;
    proof {
        lemma_start_sound(t, dir, start);
        assert(chosen_views(chosen@) =~= h.chosen);
    }
    while queue.len() > 0
        invariant
            tree.wf(),
            t == tree@,
            dir == v@.def_dir,
            h.queue == path_views(queue@),
            h.seen == seen@,
            h.chosen == chosen_views(chosen@),
            sound(t, dir, start, h),
            sound(t, dir, start, begin),
            hunted(t, dir, v@.name, start, h) == hunted(t, dir, v@.name, start, begin),
            forall|i: int| 0 <= i < chosen@.len() ==> (#[trigger] chosen@[i]).1.wf(),
        decreases unmet(reachable(t, dir, start), h.seen), queue@.len(),
    {
        let ghost was = h;
        let p: Vec<String> = match queue.pop() {
            Some(p) => p,
            None => Vec::new(),
        };
        assert(path_views(queue@) =~= was.queue.drop_last());
        assert(texts(p@) == was.queue.last());
        let key = crate::text::join(&p, "/");
        proof {
            assert(reachable(t, dir, start).contains(spelled(was.queue[was.queue.len() - 1])));
            lemma_unmet(reachable(t, dir, start), was.seen, spelled(was.queue.last()));
            let rest = Hunt { queue: was.queue.drop_last(), ..was };
            assert forall|i: int| 0 <= i < rest.queue.len() implies reachable(
                t,
                dir,
                start,
            ).contains(spelled(#[trigger] rest.queue[i])) by {
                assert(rest.queue[i] == was.queue[i]);
            }
        }
        if seen.contains(key.as_str()) {
            proof {
                h = Hunt { queue: was.queue.drop_last(), ..was };
            }
        } else {
            seen.insert(key);
            match parse(tree, &p) {
                None => {
                    proof {
                        h = Hunt { queue: was.queue.drop_last(), seen: seen@, ..was };
                    }
                },
                Some(u) => {
                    let ghost at = place_in(t, texts(p@));
                    proof {
                        lemma_step_sound(t, dir, v@.name, start, was, at);
                        h = hunt_step(t, dir, v@.name, was, at);
                    }
                    push_refs(&mut queue, &v.def_dir, u.list("defaults"));
                    let slot = slot_name(&p);
                    if has_model(&u) && !same_str(slot.as_str(), v.name.as_str()) && !same_str(
                        slot.as_str(),
                        "cabin",
                    ) && !same_str(slot.as_str(), "chassis") && !is_filled(
                        &chosen,
                        slot.as_str(),
                    ) {
                        let ghost entry = (slot@, u@);
                        chosen.push((slot, u));
                        assert(chosen_views(chosen@) =~= was.chosen.push(entry));
                    }
                    assert(h.chosen =~= chosen_views(chosen@));
                },
            }
        }
    }
    chosen
}

fn list_slots(tree: &Tree, v: &VehicleDef) -> (r: Vec<String>)
    requires
        tree.wf(),
    ensures
        texts(r@) == all_slots(tree@, v@),
{
    let dir = step(&v.def_dir, "accessory");
    let names = tree.list(&dir);
    let ghost all = texts(names@);
    let mut r = clone_texts(&v.required);
    let mut i: usize = 0;
    assert(all.take(0) =~= Seq::<Seq<char>>::empty());
    while i < names.len()
        invariant
            i <= names@.len(),
            all == texts(names@),
            tree.wf(),
            texts(r@) == with_folders(tree@, texts(dir@), v@.required, all.take(i as int)),
        decreases names@.len() - i,
    {
        assert(all.take(i + 1).drop_last() =~= all.take(i as int));
        if tree.is_folder(&step(&dir, names[i].as_str())) && !contains_text(
            &r,
            names[i].as_str(),
        ) {
            let ghost before = texts(r@);
            r.push(names[i].clone());
            assert(texts(r@) =~= before.push(all[i as int]));
        }
        i = i + 1;
    }
    assert(all.take(i as int) =~= all);
    sort(r)
}

proof fn lemma_first_fit_grows(t: Nodes, dir: Seq<Seq<char>>, names: Seq<Seq<char>>, n: int)
    requires
        0 <= n <= names.len(),
        first_fit(t, dir, names.take(n)) is Some,
    ensures
        first_fit(t, dir, names) == first_fit(t, dir, names.take(n)),
    decreases names.len(),
{
    if n == names.len() {
        assert(names.take(n) =~= names);
    } else {
        assert(names.drop_last().take(n) =~= names.take(n));
        lemma_first_fit_grows(t, dir, names.drop_last(), n);
    }
}

fn find_shape(tree: &Tree, v: &VehicleDef, slot: &str) -> (r: Option<SiiUnit>)
    requires
        tree.wf(),
    ensures
        crate::sii::opt_unit(r) == shape_for(tree@, v@, slot@),
        r matches Some(u) ==> u.wf(),
{
    let dir = join(&step(&v.def_dir, "accessory"), slot);
    let names = sii_list(tree, &dir);
    let ghost all = texts(names@);
    let mut i: usize = 0;
    assert(all.take(0) =~= Seq::<Seq<char>>::empty());
    while i < names.len()
        invariant
            i <= names@.len(),
            all == texts(names@),
            tree.wf(),
            first_fit(tree@, texts(dir@), all.take(i as int)) is None,
            shape_for(tree@, v@, slot@) == first_fit(tree@, texts(dir@), all),
        decreases names@.len() - i,
    {
        assert(all.take(i + 1).drop_last() =~= all.take(i as int));
        match parse(tree, &step(&dir, names[i].as_str())) {
            Some(u) => {
                if has_model(&u) {
                    proof {
                        lemma_first_fit_grows(tree@, texts(dir@), all, i + 1);
                    }
                    return Some(u);
                }
            },
            None => {},
        }
        i = i + 1;
    }
    assert(all.take(i as int) =~= all);
    None
}

fn fill_slots(
    tree: &Tree,
    v: &VehicleDef,
    chosen: Vec<(String, SiiUnit)>,
    slots: &Vec<String>,
) -> (r: (Vec<(String, SiiUnit)>, Vec<String>))
    requires
        tree.wf(),
    ensures
        (Fitting { chosen: chosen_views(r.0@), warnings: texts(r.1@) }) == fitted(
            tree@,
            v@,
            chosen_views(chosen@),
            texts(slots@),
        ),
{
    let ghost start = chosen_views(chosen@);
    let ghost all = texts(slots@);
    let mut chosen = chosen;
    let mut warnings: Vec<String> = Vec::new();
    let mut i: usize = 0;
    assert(texts(warnings@) =~= Seq::<Seq<char>>::empty());
    assert(all.take(0) =~= Seq::<Seq<char>>::empty());
    while i < slots.len()
        invariant
            i <= slots@.len(),
            all == texts(slots@),
            tree.wf(),
            (Fitting { chosen: chosen_views(chosen@), warnings: texts(warnings@) }) == fitted(
                tree@,
                v@,
                start,
                all.take(i as int),
            ),
        decreases slots@.len() - i,
    {
        assert(all.take(i + 1).drop_last() =~= all.take(i as int));
        let slot = slots[i].as_str();
        if !is_filled(&chosen, slot) {
            match find_shape(tree, v, slot) {
                Some(u) => {
                    let ghost before = chosen_views(chosen@);
                    let ghost entry = (slot@, u@);
                    chosen.push((slot.to_owned(), u));
                    assert(chosen_views(chosen@) =~= before.push(entry));
                },
                None => {
                    if contains_text(&v.required, slot) {
                        let w = cat3(
                            "required slot ",
                            quoted_debug(slot).as_str(),
                            " has no model",
                        );
                        let ghost before = texts(warnings@);
                        warnings.push(w);
                        assert(texts(warnings@) =~= before.push(w@));
                    }
                },
            }
        }
        i = i + 1;
    }
    assert(all.take(i as int) =~= all);
    (chosen, warnings)
}

pub(crate) fn value_or_empty(u: &SiiUnit, k: &str) -> (r: String)
    ensures
        r@ == or_empty(u@.defs.get(k@)),
{
    match u.get(k) {
        Some(s) => s.to_owned(),
        None => String::new(),
    }
}

fn mount(slot: &str, u: &SiiUnit, out: &mut Vec<Accessory>, warnings: &mut Vec<String>)
    ensures
        accessory_views(final(out)@) == accessory_views(old(out)@) + fitted_by(slot@, u@),
        texts(final(warnings)@) == texts(old(warnings)@) + doubled(slot@, u@),
{
    let ghost was = accessory_views(out@);
    let ghost said = texts(warnings@);
    let ext: Option<String> = match u.get("exterior_model") {
        Some(m) => Some(strip_ext(m)),
        None => None,
    };
    let inner: Option<String> = match u.get("interior_model") {
        Some(m) => Some(strip_ext(m)),
        None => None,
    };
    let sii = crate::tree::base_text(u.path.as_str());
    let variant = value_or_empty(u, "variant");
    match &ext {
        Some(m) => {
            let a = Accessory {
                slot: slot.to_owned(),
                kind: "exterior",
                model: m.clone(),
                sii: sii.clone(),
                variant: variant.clone(),
            };
            let ghost seen = a@;
            out.push(a);
            assert(accessory_views(out@) =~= was + seq![seen]);
        },
        None => {
            assert(accessory_views(out@) =~= was + Seq::<AccessoryView>::empty());
        },
    }
    let ghost mid = accessory_views(out@);
    match inner {
        Some(m) => {
            let same = match &ext {
                Some(e) => same_str(e.as_str(), m.as_str()),
                None => false,
            };
            if same {
                let w = cat3(
                    "slot ",
                    quoted_debug(slot).as_str(),
                    ": interior_model is the same file as exterior_model, imported once",
                );
                warnings.push(w);
                assert(texts(warnings@) =~= said + seq![w@]);
                assert(accessory_views(out@) =~= mid + Seq::<AccessoryView>::empty());
            } else {
                let a = Accessory {
                    slot: slot.to_owned(),
                    kind: "interior",
                    model: m,
                    sii,
                    variant,
                };
                let ghost seen = a@;
                out.push(a);
                assert(accessory_views(out@) =~= mid + seq![seen]);
                assert(texts(warnings@) =~= said + Seq::<Seq<char>>::empty());
            }
        },
        None => {
            assert(accessory_views(out@) =~= mid + Seq::<AccessoryView>::empty());
            assert(texts(warnings@) =~= said + Seq::<Seq<char>>::empty());
        },
    }
    assert(accessory_views(out@) =~= was + fitted_by(slot@, u@));
}

/// Resolve the accessory set the game would fit by default for one cabin +
/// chassis combination.
pub fn resolve_accessories(tree: &Tree, v: &VehicleDef, cabin: &str, chassis: &str) -> (r: (
    Vec<Accessory>,
    Vec<String>,
))
    requires
        tree.wf(),
    ensures
        (accessory_views(r.0@), texts(r.1@)) == accessories(tree@, v@, cabin@, chassis@),
{
    let chosen = find_defaults(tree, v, cabin, chassis);
    let slots = list_slots(tree, v);
    let (chosen, warnings) = fill_slots(tree, v, chosen, &slots);
    let ghost c = chosen_views(chosen@);
    let ghost first = texts(warnings@);
    let mut names: Vec<String> = Vec::new();
    let mut i: usize = 0;
    while i < chosen.len()
        invariant
            i <= chosen@.len(),
            c == chosen_views(chosen@),
            texts(names@) =~= slots_of(c).take(i as int),
        decreases chosen@.len() - i,
    {
        let ghost before = texts(names@);
        names.push(chosen[i].0.clone());
        assert(texts(names@) =~= before.push(c[i as int].0));
        i = i + 1;
    }
    assert(slots_of(c).take(i as int) =~= slots_of(c));
    let names = sort(names);
    let ghost all = texts(names@);
    let mut warnings = warnings;
    let mut out: Vec<Accessory> = Vec::new();
    let mut i: usize = 0;
    assert(all.take(0) =~= Seq::<Seq<char>>::empty());
    assert(accessory_views(out@) =~= mounted(c, all.take(0)));
    assert(texts(warnings@) =~= first + mount_warnings(c, all.take(0)));
    while i < names.len()
        invariant
            i <= names@.len(),
            all == texts(names@),
            c == chosen_views(chosen@),
            accessory_views(out@) == mounted(c, all.take(i as int)),
            texts(warnings@) == first + mount_warnings(c, all.take(i as int)),
        decreases names@.len() - i,
    {
        assert(all.take(i + 1).drop_last() =~= all.take(i as int));
        let ghost said = texts(warnings@);
        let ghost had = accessory_views(out@);
        match find_filling(&chosen, names[i].as_str()) {
            Some(u) => {
                mount(names[i].as_str(), u, &mut out, &mut warnings);
            },
            None => {
                assert(accessory_views(out@) =~= had + Seq::<AccessoryView>::empty());
                assert(texts(warnings@) =~= said + Seq::<Seq<char>>::empty());
            },
        }
        assert(texts(warnings@) =~= first + mount_warnings(c, all.take(i + 1)));
        i = i + 1;
    }
    assert(all.take(i as int) =~= all);
    (out, warnings)
}

} // verus!
