//! The way of an archive to a scene: what is asked for, how the vehicle is found
//! out of the definitions, and what is handed to the converter.

use crate::assemble::{find_role, with_role};
use crate::fittings::{
    bodies, chosen_unit, extra_views, interior_parts, interior_views, interiors, interiors_of,
    main_models, main_views, moving_parts, opt_path, part_unit, resolve_extras, ExtraModel,
    ExtraView, InteriorDef, InteriorView, MainModel, MainView,
};
use crate::livery::{
    best_of, find_paint_job, find_wheels, opt_job, shared, wheels_in, with_candidates, JobView,
    PaintJob, Wheels, WheelsView,
};
use crate::scene::{debug_list, debug_texts};
use crate::text::{
    cat, cat3, chars_of, clone_texts, debug_text, decimal, ordered, quoted_debug, same_str, texts,
    write_usize,
};
use crate::tree::{listed, Nodes, Tree};
use crate::vehicle::{
    accessories, accessory_views, find_vehicles, resolve_accessories, sii_names, trucks,
    vehicle_views, vehicles_named, Accessory, AccessoryView, VehicleDef, VehicleView,
};
use vstd::prelude::*;

verus! {

// -------------------------------------------------------------- options ---

/// What a conversion is asked for. Paths are as the system spells them.
pub struct Options {
    pub archive: String,
    pub outdir: String,
    pub converter_pix: String,
    pub vehicle: String,
    pub cabin: String,
    pub chassis: String,
    pub interior_variant: String,
    /// Park the variants the vehicle is not wearing in a row beside it. They are
    /// half of what a mod ships, but they multiply the file size several times
    /// over, so this is a choice rather than a default.
    pub variants_row: bool,
    /// Pull the mod's audio out next to the model.
    pub sounds: bool,
    /// Leave an archive alone when its scene is already there.
    pub skip_existing: bool,
    /// Delete the working folder afterwards.
    pub cleanup: bool,
}

/// A name below a folder.
pub open spec fn below(dir: Seq<char>, name: Seq<char>) -> Seq<char> {
    if dir.len() == 0 || "/"@.is_suffix_of(dir) {
        dir + name
    } else {
        dir + "/"@ + name
    }
}

pub fn join_path(dir: &str, name: &str) -> (r: String)
    ensures
        r@ == below(dir@, name@),
{
    let c = chars_of(dir);
    if dir.is_empty() || crate::text::ends(c.as_slice(), "/") {
        cat(dir, name)
    } else {
        cat3(dir, "/", name)
    }
}

/// Everything that was not asked for lives here, so that the output folder shows
/// only the model and its textures.
pub open spec fn working(outdir: Seq<char>) -> Seq<char> {
    below(outdir, "_work"@)
}

pub fn work_dir(outdir: &str) -> (r: String)
    ensures
        r@ == working(outdir@),
{
    join_path(outdir, "_work")
}

pub fn extracted_dir(outdir: &str) -> (r: String)
    ensures
        r@ == below(working(outdir@), "extracted"@),
{
    join_path(work_dir(outdir).as_str(), "extracted")
}

// ---------------------------------------------------------------- notes ---

/// Something that is said along the way.
pub enum Note {
    Info(String),
    Warn(String),
}

#[verifier::ext_equal]
pub enum NoteView {
    Info(Seq<char>),
    Warn(Seq<char>),
}

impl View for Note {
    type V = NoteView;

    open spec fn view(&self) -> NoteView {
        match self {
            Note::Info(s) => NoteView::Info(s@),
            Note::Warn(s) => NoteView::Warn(s@),
        }
    }
}

pub open spec fn note_views(v: Seq<Note>) -> Seq<NoteView> {
    Seq::new(v.len(), |i: int| v[i]@)
}

fn info(v: &mut Vec<Note>, s: String)
    ensures
        note_views(final(v)@) == note_views(old(v)@).push(NoteView::Info(s@)),
{
    let ghost was = note_views(v@);
    v.push(Note::Info(s));
    assert(note_views(v@) =~= was.push(NoteView::Info(s@)));
}

fn warn(v: &mut Vec<Note>, s: String)
    ensures
        note_views(final(v)@) == note_views(old(v)@).push(NoteView::Warn(s@)),
{
    let ghost was = note_views(v@);
    v.push(Note::Warn(s));
    assert(note_views(v@) =~= was.push(NoteView::Warn(s@)));
}

pub open spec fn warnings_of(v: Seq<Seq<char>>) -> Seq<NoteView> {
    Seq::new(v.len(), |i: int| NoteView::Warn(v[i]))
}

fn warn_all(v: &mut Vec<Note>, w: &Vec<String>)
    ensures
        note_views(final(v)@) == note_views(old(v)@) + warnings_of(texts(w@)),
{
    let ghost was = note_views(v@);
    let ghost all = warnings_of(texts(w@));
    let mut i: usize = 0;
    assert(was + all.take(0) =~= was);
    while i < w.len()
        invariant
            i <= w@.len(),
            all == warnings_of(texts(w@)),
            note_views(v@) == was + all.take(i as int),
        decreases w@.len() - i,
    {
        warn(v, w[i].as_str().to_owned());
        assert((was + all.take(i as int)).push(all[i as int]) =~= was + all.take(i + 1));
        i = i + 1;
    }
    assert(all.take(i as int) =~= all);
}

// -------------------------------------------------------------- choices ---

/// The vehicle with a name, or else the first.
pub open spec fn chosen_vehicle(v: Seq<VehicleView>, name: Seq<char>) -> Option<int>
    decreases v.len(),
{
    if v.len() == 0 {
        None
    } else {
        match first_named(v, name) {
            Some(i) => Some(i),
            None => Some(0int),
        }
    }
}

pub open spec fn first_named(v: Seq<VehicleView>, name: Seq<char>) -> Option<int>
    decreases v.len(),
{
    if v.len() == 0 {
        None
    } else {
        match first_named(v.drop_last(), name) {
            Some(i) => Some(i),
            None => if v.last().name == name {
                Some(v.len() - 1)
            } else {
                None
            },
        }
    }
}

pub fn choose_vehicle(v: &Vec<VehicleDef>, name: &str) -> (r: Option<usize>)
    ensures
        match r {
            Some(i) => i < v@.len() && chosen_vehicle(vehicle_views(v@), name@) == Some(i as int),
            None => chosen_vehicle(vehicle_views(v@), name@) is None,
        },
{
    let ghost all = vehicle_views(v@);
    if v.len() == 0 {
        return None;
    }
    let mut found: Option<usize> = None;
    let mut i: usize = 0;
    while i < v.len()
        invariant
            i <= v@.len(),
            all == vehicle_views(v@),
            match found {
                Some(k) => k < i && first_named(all.take(i as int), name@) == Some(k as int),
                None => first_named(all.take(i as int), name@) is None,
            },
        decreases v@.len() - i,
    {
        assert(all.take(i + 1).drop_last() =~= all.take(i as int));
        assert(all[i as int] == v@[i as int]@);
        if found.is_none() && same_str(v[i].name.as_str(), name) {
            found = Some(i);
        }
        i = i + 1;
    }
    assert(all.take(i as int) =~= all);
    match found {
        Some(k) => Some(k),
        None => Some(0),
    }
}

/// Whether an interior is the one asked for, by its variant or its file.
pub open spec fn wanted_interior(i: InteriorView, want: Seq<char>) -> bool {
    want.len() > 0 && (i.variant == want || i.stem == want)
}

pub open spec fn first_wanted(v: Seq<InteriorView>, want: Seq<char>) -> Option<int>
    decreases v.len(),
{
    if v.len() == 0 {
        None
    } else {
        match first_wanted(v.drop_last(), want) {
            Some(i) => Some(i),
            None => if wanted_interior(v.last(), want) {
                Some(v.len() - 1)
            } else {
                None
            },
        }
    }
}

/// The interior asked for, or else the first.
pub open spec fn chosen_interior(v: Seq<InteriorView>, want: Seq<char>) -> Option<int> {
    match first_wanted(v, want) {
        Some(i) => Some(i),
        None => if v.len() > 0 {
            Some(0int)
        } else {
            None
        },
    }
}

pub fn choose_interior(v: &Vec<InteriorDef>, want: &str) -> (r: Option<usize>)
    ensures
        match r {
            Some(i) => i < v@.len() && chosen_interior(interior_views(v@), want@) == Some(
                i as int,
            ),
            None => chosen_interior(interior_views(v@), want@) is None,
        },
{
    let ghost all = interior_views(v@);
    let mut found: Option<usize> = None;
    let mut i: usize = 0;
    while i < v.len()
        invariant
            i <= v@.len(),
            all == interior_views(v@),
            match found {
                Some(k) => k < i && first_wanted(all.take(i as int), want@) == Some(k as int),
                None => first_wanted(all.take(i as int), want@) is None,
            },
        decreases v@.len() - i,
    {
        assert(all.take(i + 1).drop_last() =~= all.take(i as int));
        assert(all[i as int] == v@[i as int]@);
        if found.is_none() && !want.is_empty() && (same_str(v[i].variant.as_str(), want)
            || same_str(v[i].stem.as_str(), want)) {
            found = Some(i);
        }
        i = i + 1;
    }
    assert(all.take(i as int) =~= all);
    match found {
        Some(k) => Some(k),
        None => if v.len() > 0 {
            Some(0)
        } else {
            None
        },
    }
}

// -------------------------------------------------------- the vehicle ---

/// The vehicles in the definitions of an archive.
pub open spec fn vehicles_of(t: Nodes) -> Seq<VehicleView> {
    vehicles_named(t, ordered(listed(t, trucks())))
}

/// The interiors of a vehicle.
pub open spec fn interiors_in(t: Nodes, v: VehicleView) -> Seq<InteriorView> {
    interiors_of(
        t,
        v.def_dir.push("interior"@),
        ordered(crate::vehicle::sii_stems(listed(t, v.def_dir.push("interior"@)))),
    )
}

/// The interior that is taken.
pub open spec fn interior_taken(
    t: Nodes,
    v: VehicleView,
    want: Seq<char>,
) -> Option<InteriorView> {
    match chosen_interior(interiors_in(t, v), want) {
        Some(i) => Some(interiors_in(t, v)[i]),
        None => None,
    }
}

pub open spec fn sii_of(i: Option<InteriorView>) -> Option<Seq<Seq<char>>> {
    match i {
        Some(x) => Some(x.sii),
        None => None,
    }
}

/// The vehicle's own models.
pub open spec fn mains_of(
    t: Nodes,
    v: VehicleView,
    cabin: Seq<char>,
    chassis: Seq<char>,
    sii: Option<Seq<Seq<char>>>,
) -> Seq<MainView> {
    bodies(
        part_unit(t, v, "chassis"@, chassis),
        part_unit(t, v, "cabin"@, cabin),
        chosen_unit(t, sii),
    )
}

/// The models that move, as the definitions have them.
pub open spec fn movers_of(
    t: Nodes,
    v: VehicleView,
    cabin: Seq<char>,
    chassis: Seq<char>,
    sii: Option<Seq<Seq<char>>>,
) -> Seq<ExtraView> {
    moving_parts(part_unit(t, v, "cabin"@, cabin), "cabin"@) + moving_parts(
        part_unit(t, v, "chassis"@, chassis),
        "exterior"@,
    ) + interior_parts(chosen_unit(t, sii))
}

/// Where one model plays both roles there is no cabin to mount on: what belongs
/// to the cabin goes to the chassis.
pub open spec fn remounted(v: Seq<ExtraView>, main: Seq<MainView>) -> Seq<ExtraView> {
    if with_role(main, "cabin"@) is Some {
        v
    } else {
        Seq::new(
            v.len(),
            |i: int|
                if v[i].kind == "cabin"@ {
                    ExtraView { kind: "exterior"@, ..v[i] }
                } else {
                    v[i]
                },
        )
    }
}

fn remount(v: Vec<ExtraModel>, main: &Vec<MainModel>) -> (r: Vec<ExtraModel>)
    ensures
        extra_views(r@) == remounted(extra_views(v@), main_views(main@)),
{
    let ghost was = extra_views(v@);
    if find_role(main, "cabin").is_some() {
        return v;
    }
    let mut v = v;
    let n: usize = v.len();
    let ghost want = remounted(was, main_views(main@));
    let mut i: usize = 0;
    while i < n
        invariant
            i <= n,
            n == v@.len(),
            n == was.len(),
            want.len() == n,
            forall|k: int|
                0 <= k < n ==> #[trigger] want[k] == (if was[k].kind == "cabin"@ {
                    ExtraView { kind: "exterior"@, ..was[k] }
                } else {
                    was[k]
                }),
            forall|k: int| 0 <= k < i ==> (#[trigger] v@[k])@ == want[k],
            forall|k: int| i <= k < n ==> (#[trigger] v@[k])@ == was[k],
        decreases n - i,
    {
        if same_str(v[i].kind, "cabin") {
            let x = &v[i];
            let e = ExtraModel {
                name: x.name.as_str().to_owned(),
                kind: "exterior",
                model: x.model.as_str().to_owned(),
                anims: clone_texts(&x.anims),
                variants: clone_texts(&x.variants),
            };
            assert(e@ =~= want[i as int]);
            v.set(i, e);
        }
        i = i + 1;
    }
    assert(extra_views(v@) =~= want);
    v
}

/// What is said of the vehicle's own models.
pub open spec fn main_notes(v: Seq<MainView>) -> Seq<NoteView> {
    Seq::new(
        v.len(),
        |i: int|
            NoteView::Info(
                v[i].role + " model: "@ + v[i].model + " "@ + debug_list(v[i].variants),
            ),
    )
}

/// What is said of the models that move.
pub open spec fn mover_notes(v: Seq<ExtraView>) -> Seq<NoteView> {
    Seq::new(
        v.len(),
        |i: int|
            NoteView::Info(
                "animated model "@ + debug_text(v[i].name) + ": "@ + v[i].model + " ("@ + decimal(
                    v[i].anims.len(),
                ) + (if v[i].anims.len() == 1 {
                    " animation)"@
                } else {
                    " animations)"@
                }),
            ),
    )
}

/// What is said of the wheels.
pub open spec fn wheels_note(w: WheelsView) -> NoteView {
    match (w.rim_front, w.tyre) {
        (Some(r), Some(t)) => NoteView::Info("wheels: rim "@ + r + ", tyre "@ + t),
        (Some(r), None) => NoteView::Warn("found rim "@ + r + " but no tyre model in this mod"@),
        _ => NoteView::Warn("no wheel models in this archive - they are base-game assets"@),
    }
}

/// What is said of the paint.
pub open spec fn paint_note(p: Option<JobView>) -> NoteView {
    match p {
        Some(j) => NoteView::Info(
            "paint job "@ + debug_text(j.name) + (if j.airbrush {
                " (airbrush): "@
            } else {
                ": "@
            }) + j.mask,
        ),
        None => NoteView::Info("no paint job in this mod - the body keeps its plain colour"@),
    }
}

fn note_mains(n: &mut Vec<Note>, v: &Vec<MainModel>)
    ensures
        note_views(final(n)@) == note_views(old(n)@) + main_notes(main_views(v@)),
{
    let ghost was = note_views(n@);
    let ghost all = main_notes(main_views(v@));
    let mut i: usize = 0;
    assert(was + all.take(0) =~= was);
    while i < v.len()
        invariant
            i <= v@.len(),
            all == main_notes(main_views(v@)),
            note_views(n@) == was + all.take(i as int),
        decreases v@.len() - i,
    {
        assert(main_views(v@)[i as int] == v@[i as int]@);
        let a = cat3(v[i].role, " model: ", v[i].model.as_str());
        info(n, cat3(a.as_str(), " ", debug_texts(&v[i].variants).as_str()));
        assert((was + all.take(i as int)).push(all[i as int]) =~= was + all.take(i + 1));
        i = i + 1;
    }
    assert(all.take(i as int) =~= all);
}

fn note_movers(n: &mut Vec<Note>, v: &Vec<ExtraModel>)
    ensures
        note_views(final(n)@) == note_views(old(n)@) + mover_notes(extra_views(v@)),
{
    let ghost was = note_views(n@);
    let ghost all = mover_notes(extra_views(v@));
    let mut i: usize = 0;
    assert(was + all.take(0) =~= was);
    while i < v.len()
        invariant
            i <= v@.len(),
            all == mover_notes(extra_views(v@)),
            note_views(n@) == was + all.take(i as int),
        decreases v@.len() - i,
    {
        assert(extra_views(v@)[i as int] == v@[i as int]@);
        assert(v@[i as int]@.anims.len() == v@[i as int].anims@.len());
        let a = cat3("animated model ", quoted_debug(v[i].name.as_str()).as_str(), ": ");
        let b = cat3(a.as_str(), v[i].model.as_str(), " (");
        let c = cat3(
            b.as_str(),
            write_usize(v[i].anims.len()).as_str(),
            if v[i].anims.len() == 1 {
                " animation)"
            } else {
                " animations)"
            },
        );
        info(n, c);
        assert((was + all.take(i as int)).push(all[i as int]) =~= was + all.take(i + 1));
        i = i + 1;
    }
    assert(all.take(i as int) =~= all);
}

fn note_wheels(n: &mut Vec<Note>, w: &Wheels)
    ensures
        note_views(final(n)@) == note_views(old(n)@).push(wheels_note(w@)),
{
    match (&w.rim_front, &w.tyre) {
        (Some(r), Some(t)) => {
            let a = cat3("wheels: rim ", r.as_str(), ", tyre ");
            info(n, cat(a.as_str(), t.as_str()));
        },
        (Some(r), None) => {
            warn(n, cat3("found rim ", r.as_str(), " but no tyre model in this mod"));
        },
        _ => {
            warn(
                n,
                "no wheel models in this archive - they are base-game assets".to_owned(),
            );
        },
    }
}

fn note_paint(n: &mut Vec<Note>, p: &Option<PaintJob>)
    ensures
        note_views(final(n)@) == note_views(old(n)@).push(paint_note(opt_job(*p))),
{
    match p {
        Some(j) => {
            let a = cat3(
                "paint job ",
                quoted_debug(j.name.as_str()).as_str(),
                if j.airbrush {
                    " (airbrush): "
                } else {
                    ": "
                },
            );
            info(n, cat(a.as_str(), j.mask.as_str()));
        },
        None => {
            info(
                n,
                "no paint job in this mod - the body keeps its plain colour".to_owned(),
            );
        },
    }
}

/// A vehicle as it is assembled, and what was said on the way.
#[verifier::ext_equal]
pub struct ResolvedView {
    pub main: Seq<MainView>,
    pub accessories: Seq<AccessoryView>,
    pub extras: Seq<ExtraView>,
    pub wheels: WheelsView,
    pub paint: Option<JobView>,
    /// the model of the body
    pub body: Seq<char>,
    pub notes: Seq<NoteView>,
}

/// Why a vehicle could not be resolved, and what was said before.
#[verifier::ext_equal]
pub struct RefusedView {
    pub notes: Seq<NoteView>,
    pub error: Seq<char>,
}

pub open spec fn interior_note(i: Option<InteriorView>) -> Seq<NoteView> {
    match i {
        Some(x) => seq![
            NoteView::Info(
                "interior "@ + debug_text(x.stem) + " (variant "@ + debug_text(x.variant) + ")"@,
            ),
        ],
        None => Seq::empty(),
    }
}

/// How a vehicle is assembled, for the asked-for cabin, chassis and interior.
/// `files` are the paths of all the files of the archive.
pub open spec fn resolved(
    t: Nodes,
    files: Seq<Seq<char>>,
    vehicle: Seq<char>,
    cabin: Seq<char>,
    chassis: Seq<char>,
    interior: Seq<char>,
) -> Result<ResolvedView, RefusedView> {
    match chosen_vehicle(vehicles_of(t), vehicle) {
        None => Err(
            RefusedView {
                notes: Seq::empty(),
                error: "no truck definition found in this archive"@,
            },
        ),
        Some(k) => {
            let v = vehicles_of(t)[k];
            let fitted = accessories(t, v, cabin, chassis);
            let inside = interior_taken(t, v, interior);
            let said = warnings_of(fitted.1) + interior_note(inside);
            let main = mains_of(t, v, cabin, chassis, sii_of(inside));
            match with_role(main, "exterior"@) {
                None => Err(
                    RefusedView {
                        notes: said,
                        error: "chassis "@ + debug_text(chassis)
                            + " names no model - it has neither a `model:` nor a `detail_model:` line"@,
                    },
                ),
                Some(b) => {
                    let extras = remounted(
                        movers_of(t, v, cabin, chassis, sii_of(inside)),
                        main,
                    );
                    let wheels = shared(with_candidates(ordered(wheels_in(files))));
                    let paint = best_of(
                        t,
                        v.def_dir.push("paint_job"@),
                        ordered(sii_names(listed(t, v.def_dir.push("paint_job"@)))),
                    );
                    Ok(
                        ResolvedView {
                            main,
                            accessories: fitted.0,
                            extras,
                            wheels,
                            paint,
                            body: b.model,
                            notes: (said + main_notes(main) + mover_notes(extras)).push(
                                NoteView::Info(
                                    decimal(fitted.0.len()) + " accessories to mount"@,
                                ),
                            ).push(wheels_note(wheels)).push(paint_note(paint)),
                        },
                    )
                },
            }
        },
    }
}

pub struct Resolved {
    pub main: Vec<MainModel>,
    pub accessories: Vec<Accessory>,
    pub extras: Vec<ExtraModel>,
    pub wheels: Wheels,
    pub paint: Option<PaintJob>,
    pub body: String,
    pub notes: Vec<Note>,
}

impl View for Resolved {
    type V = ResolvedView;

    open spec fn view(&self) -> ResolvedView {
        ResolvedView {
            main: main_views(self.main@),
            accessories: accessory_views(self.accessories@),
            extras: extra_views(self.extras@),
            wheels: self.wheels@,
            paint: opt_job(self.paint),
            body: self.body@,
            notes: note_views(self.notes@),
        }
    }
}

pub struct Refused {
    pub notes: Vec<Note>,
    pub error: String,
}

impl View for Refused {
    type V = RefusedView;

    open spec fn view(&self) -> RefusedView {
        RefusedView { notes: note_views(self.notes@), error: self.error@ }
    }
}

pub open spec fn result_view(r: Result<Resolved, Refused>) -> Result<ResolvedView, RefusedView> {
    match r {
        Ok(x) => Ok(x@),
        Err(e) => Err(e@),
    }
}

/// Resolves how the vehicle is assembled.
pub fn resolve(
    tree: &Tree,
    files: &Vec<String>,
    vehicle: &str,
    cabin: &str,
    chassis: &str,
    interior: &str,
) -> (r: Result<Resolved, Refused>)
    requires
        tree.wf(),
    ensures
        result_view(r) == resolved(
            tree@,
            texts(files@),
            vehicle@,
            cabin@,
            chassis@,
            interior@,
        ),
{
    let mut notes: Vec<Note> = Vec::new();
    assert(note_views(notes@) =~= Seq::<NoteView>::empty());
    let vehicles = find_vehicles(tree);
    let k: usize = match choose_vehicle(&vehicles, vehicle) {
        None => {
            return Err(
                Refused {
                    notes,
                    error: "no truck definition found in this archive".to_owned(),
                },
            );
        },
        Some(k) => k,
    };
    let v = &vehicles[k];
    assert(vehicles_of(tree@)[k as int] == v@);
    let (accessories, warnings) = resolve_accessories(tree, v, cabin, chassis);
    warn_all(&mut notes, &warnings);
    assert(note_views(notes@) =~= warnings_of(texts(warnings@)));
    let choices = interiors(tree, v);
    let sii: Option<&Vec<String>> = match choose_interior(&choices, interior) {
        Some(i) => {
            assert(interior_views(choices@)[i as int] == choices@[i as int]@);
            let a = cat3(
                "interior ",
                quoted_debug(choices[i].stem.as_str()).as_str(),
                " (variant ",
            );
            info(
                &mut notes,
                cat3(a.as_str(), quoted_debug(choices[i].variant.as_str()).as_str(), ")"),
            );
            Some(&choices[i].sii)
        },
        None => None,
    };
    let ghost inside = interior_taken(tree@, v@, interior@);
    assert(opt_path(sii) == sii_of(inside));
    assert(note_views(notes@) =~= warnings_of(texts(warnings@)) + interior_note(inside));
    let main = main_models(tree, v, cabin, chassis, sii);
    let body = match find_role(&main, "exterior") {
        None => {
            let e = cat3(
                "chassis ",
                quoted_debug(chassis).as_str(),
                " names no model - it has neither a `model:` nor a `detail_model:` line",
            );
            return Err(Refused { notes, error: e });
        },
        Some(m) => m.model.as_str().to_owned(),
    };
    note_mains(&mut notes, &main);
    let extras = remount(resolve_extras(tree, v, cabin, chassis, sii), &main);
    note_movers(&mut notes, &extras);
    info(&mut notes, cat(write_usize(accessories.len()).as_str(), " accessories to mount"));
    let wheels = find_wheels(files);
    note_wheels(&mut notes, &wheels);
    let paint = find_paint_job(tree, &v.def_dir);
    note_paint(&mut notes, &paint);
    Ok(Resolved { main, accessories, extras, wheels, paint, body, notes })
}

} // verus!
