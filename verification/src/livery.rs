//! What a vehicle wears: its paint job and its wheels.

use crate::pim::{meaning, Decimals};
use crate::sii::{parse, unit_in, unquote, unquoted, UnitView};
use crate::text::{
    back_trimmed, chars_of, equals, front_trimmed, carries, holds, lower, lowered, opt_text,
    ordered, parts, pieces, replace, sort, split, string_of, texts, trim, trim_back, trim_front,
    trim_suffixes, trimmed, unroot, unrooted, with_for, without_suffixes, begins, Class,
};
use crate::tree::{base_of, base_text, listed, stem_before, stem_of, Nodes, Tree};
use crate::vehicle::{sii_list, sii_names, step};
use vstd::prelude::*;

verus! {

// ------------------------------------------------------------ paint job ---

/// The livery a truck wears.
///
/// The body renders as a flat `base_color` until a paint job supplies its mask
/// texture. The mask is the artwork; for `airbrush` paint jobs it covers the
/// paintable panels outright.
pub struct PaintJob {
    pub name: String,
    /// texture path inside the archive, without extension
    pub mask: String,
    /// as the definition spells it
    pub base_color: Option<String>,
    pub airbrush: bool,
}

#[verifier::ext_equal]
pub struct JobView {
    pub name: Seq<char>,
    pub mask: Seq<char>,
    pub base_color: Option<Seq<char>>,
    pub airbrush: bool,
}

impl View for PaintJob {
    type V = JobView;

    open spec fn view(&self) -> JobView {
        JobView {
            name: self.name@,
            mask: self.mask@,
            base_color: opt_text(self.base_color),
            airbrush: self.airbrush,
        }
    }
}

/// The texture that a mask names.
pub open spec fn mask_of(s: Seq<char>) -> Seq<char> {
    unrooted(unquoted(trimmed(s)))
}

/// The paint job that a definition file describes, if it has a mask.
pub open spec fn job_of(name: Seq<char>, u: UnitView) -> Option<JobView> {
    match u.defs.get("paint_job_mask"@) {
        None => None,
        Some(m) => if mask_of(m).len() == 0 {
            None
        } else {
            Some(
                JobView {
                    name: match stem_before(name, "sii"@) {
                        Some(s) => s,
                        None => name,
                    },
                    mask: without_suffixes(without_suffixes(mask_of(m), ".tobj"@), ".dds"@),
                    base_color: u.defs.get("base_color"@),
                    airbrush: match u.defs.get("airbrush"@) {
                        Some(v) => trimmed(v) == "true"@,
                        None => false,
                    },
                },
            )
        },
    }
}

/// Whether `job` is to be worn rather than `best`. An airbrush job's mask is a
/// finished design rather than a channel mask that needs colours choosing for
/// it.
pub open spec fn better(best: Option<JobView>, job: JobView) -> bool {
    match best {
        None => true,
        Some(b) => job.airbrush && !b.airbrush,
    }
}

/// The best job of the files `names` in `dir`.
pub open spec fn best_of(t: Nodes, dir: Seq<Seq<char>>, names: Seq<Seq<char>>) -> Option<JobView>
    decreases names.len(),
{
    if names.len() == 0 {
        None
    } else {
        let best = best_of(t, dir, names.drop_last());
        match unit_in(t, dir.push(names.last())) {
            None => best,
            Some(u) => match job_of(names.last(), u) {
                None => best,
                Some(job) => if better(best, job) {
                    Some(job)
                } else {
                    best
                },
            },
        }
    }
}

pub open spec fn opt_job(o: Option<PaintJob>) -> Option<JobView> {
    match o {
        Some(j) => Some(j@),
        None => None,
    }
}

fn read_job(name: &str, u: &crate::sii::SiiUnit) -> (r: Option<PaintJob>)
    ensures
        opt_job(r) == job_of(name@, u@),
{
    match u.get("paint_job_mask") {
        None => None,
        Some(m) => {
            let c = chars_of(m);
            let mask = unroot(unquote(trim(c.as_slice())));
            if mask.len() == 0 {
                return None;
            }
            let mask = trim_suffixes(trim_suffixes(mask, ".tobj"), ".dds");
            let airbrush = match u.get("airbrush") {
                Some(v) => {
                    let c = chars_of(v);
                    equals(trim(c.as_slice()), "true")
                },
                None => false,
            };
            let j = PaintJob {
                name: match stem_of(name, "sii") {
                    Some(s) => s,
                    None => name.to_owned(),
                },
                mask: string_of(mask),
                base_color: match u.get("base_color") {
                    Some(s) => Some(s.to_owned()),
                    None => None,
                },
                airbrush,
            };
            Some(j)
        },
    }
}

/// Pick the livery to apply. Prefer an airbrush paint job; ties break on the
/// file name so the same archive always converts the same way.
pub fn find_paint_job(tree: &Tree, def_dir: &Vec<String>) -> (r: Option<PaintJob>)
    requires
        tree.wf(),
    ensures
        opt_job(r) == best_of(
            tree@,
            texts(def_dir@).push("paint_job"@),
            ordered(sii_names(listed(tree@, texts(def_dir@).push("paint_job"@)))),
        ),
{
    let dir = step(def_dir, "paint_job");
    let names = sii_list(tree, &dir);
    let ghost all = texts(names@);
    let ghost d = texts(dir@);
    let mut best: Option<PaintJob> = None;
    let mut i: usize = 0;
    assert(all.take(0) =~= Seq::<Seq<char>>::empty());
    while i < names.len()
        invariant
            i <= names@.len(),
            all == texts(names@),
            d == texts(dir@),
            tree.wf(),
            opt_job(best) == best_of(tree@, d, all.take(i as int)),
        decreases names@.len() - i,
    {
        assert(all.take(i + 1).drop_last() =~= all.take(i as int));
        match parse(tree, &step(&dir, names[i].as_str())) {
            None => {},
            Some(u) => match read_job(names[i].as_str(), &u) {
                None => {},
                Some(job) => {
                    let take = match &best {
                        None => true,
                        Some(b) => job.airbrush && !b.airbrush,
                    };
                    if take {
                        best = Some(job);
                    }
                },
            },
        }
        i = i + 1;
    }
    assert(all.take(i as int) =~= all);
    best
}

/// Where any paint job is an airbrush job, one is picked.
pub proof fn an_airbrush_job_is_preferred(
    t: Nodes,
    dir: Seq<Seq<char>>,
    names: Seq<Seq<char>>,
    i: int,
)
    requires
        0 <= i < names.len(),
        unit_in(t, dir.push(names[i])) is Some,
        job_of(names[i], unit_in(t, dir.push(names[i]))->0) is Some,
        (job_of(names[i], unit_in(t, dir.push(names[i]))->0)->0).airbrush,
    ensures
        best_of(t, dir, names) is Some,
        (best_of(t, dir, names)->0).airbrush,
    decreases names.len(),
{
    if i < names.len() - 1 {
        assert(names.drop_last()[i] == names[i]);
        an_airbrush_job_is_preferred(t, dir, names.drop_last(), i);
    }
}

proof fn lemma_some_job(t: Nodes, dir: Seq<Seq<char>>, names: Seq<Seq<char>>, i: int)
    requires
        0 <= i < names.len(),
        unit_in(t, dir.push(names[i])) is Some,
        job_of(names[i], unit_in(t, dir.push(names[i]))->0) is Some,
    ensures
        best_of(t, dir, names) is Some,
    decreases names.len(),
{
    if i < names.len() - 1 {
        assert(names.drop_last()[i] == names[i]);
        lemma_some_job(t, dir, names.drop_last(), i);
    }
}

/// Ties break on the file name: a paint job comes first among those of its kind.
pub proof fn the_first_of_its_kind_is_picked(
    t: Nodes,
    dir: Seq<Seq<char>>,
    names: Seq<Seq<char>>,
    i: int,
)
    requires
        0 <= i < names.len(),
        unit_in(t, dir.push(names[i])) is Some,
        job_of(names[i], unit_in(t, dir.push(names[i]))->0) is Some,
        best_of(t, dir, names) is Some,
        (best_of(t, dir, names)->0).airbrush == (job_of(
            names[i],
            unit_in(t, dir.push(names[i]))->0,
        )->0).airbrush,
    ensures
        best_of(t, dir, names.take(i + 1)) == best_of(t, dir, names),
    decreases names.len(),
{
    if i == names.len() - 1 {
        assert(names.take(i + 1) =~= names);
    } else {
        let f = names.drop_last();
        assert(f.take(i + 1) =~= names.take(i + 1));
        assert(f[i] == names[i]);
        lemma_some_job(t, dir, f, i);
        if (job_of(names[i], unit_in(t, dir.push(names[i]))->0)->0).airbrush {
            an_airbrush_job_is_preferred(t, dir, f, i);
        }
        the_first_of_its_kind_is_picked(t, dir, f, i);
    }
}

/// What stands inside the parentheses of a colour.
pub open spec fn colour_body(s: Seq<char>) -> Seq<char> {
    back_trimmed(front_trimmed(trimmed(s), Class::Is('(')), Class::Is(')'))
}

/// The spellings of the numbers in a colour.
pub open spec fn colour_words(s: Seq<char>) -> Seq<Seq<char>> {
    let p = pieces(colour_body(s), ',');
    Seq::new(p.len(), |i: int| trimmed(p[i]))
}

pub fn color_spellings(s: &str) -> (r: Vec<String>)
    ensures
        texts(r@) == colour_words(s@),
{
    let c = chars_of(s);
    let inner = trim_back(trim_front(trim(c.as_slice()), Class::Is('(')), Class::Is(')'));
    let v = split(inner, ',');
    let mut r: Vec<String> = Vec::new();
    let mut i: usize = 0;
    let ghost all = pieces(colour_body(s@), ',');
    while i < v.len()
        invariant
            i <= v@.len(),
            parts(v@) == all,
            texts(r@) =~= Seq::new(i as nat, |k: int| trimmed(all[k])),
        decreases v@.len() - i,
    {
        assert(parts(v@)[i as int] == v@[i as int]@);
        let ghost before = texts(r@);
        r.push(string_of(trim(v[i])));
        assert(texts(r@) =~= before.push(trimmed(all[i as int])));
        i = i + 1;
    }
    assert(texts(r@) =~= colour_words(s@));
    r
}

/// The colour that a text spells, as the bits of its three numbers.
pub open spec fn colour_of(s: Seq<char>, t: Map<Seq<char>, u32>) -> Option<(u32, u32, u32)> {
    let w = colour_words(s);
    if w.len() < 3 {
        None
    } else {
        match (meaning(t, w[0]), meaning(t, w[1]), meaning(t, w[2])) {
            (Some(r), Some(g), Some(b)) => Some((r, g, b)),
            _ => None,
        }
    }
}

pub fn parse_color(s: &str, t: &Decimals) -> (r: Option<(u32, u32, u32)>)
    ensures
        r == colour_of(s@, t@),
{
    let w = color_spellings(s);
    if w.len() < 3 {
        return None;
    }
    assert(texts(w@)[0] == w@[0]@ && texts(w@)[1] == w@[1]@ && texts(w@)[2] == w@[2]@);
    let a = chars_of(w[0].as_str());
    let b = chars_of(w[1].as_str());
    let c = chars_of(w[2].as_str());
    match (t.get(a.as_slice()), t.get(b.as_slice()), t.get(c.as_slice())) {
        (Some(r), Some(g), Some(b)) => Some((r, g, b)),
        _ => None,
    }
}

// --------------------------------------------------------------- wheels ---

/// The wheel models a mod ships, if any.
///
/// Wheels are not accessories: the chassis carries `wheel_f_N_0` / `wheel_r_N_0`
/// locators and the game fits a rim and a tyre at each. The models usually are
/// in the archive, so they can be mounted directly off the locators.
pub struct Wheels {
    pub rim_front: Option<String>,
    pub rim_rear: Option<String>,
    pub tyre: Option<String>,
}

#[verifier::ext_equal]
pub struct WheelsView {
    pub rim_front: Option<Seq<char>>,
    pub rim_rear: Option<Seq<char>>,
    pub tyre: Option<Seq<char>>,
}

impl View for Wheels {
    type V = WheelsView;

    open spec fn view(&self) -> WheelsView {
        WheelsView {
            rim_front: opt_text(self.rim_front),
            rim_rear: opt_text(self.rim_rear),
            tyre: opt_text(self.tyre),
        }
    }
}

/// Whether a path marks a model as part of a wheel. Mod authors are not
/// consistent about naming these in English.
pub open spec fn wheel_word(s: Seq<char>) -> bool {
    carries(s, "wheel"@) || carries(s, "roda"@) || carries(s, "disc"@) || carries(s, "/rim"@) || carries(s, "tire"@)
        || carries(s, "tyre"@)
}

pub open spec fn rim(s: Seq<char>) -> bool {
    carries(s, "disc"@) || carries(s, "rim"@) || carries(s, "roda"@)
}

/// The wheel model that a file of the archive is, if it is one: a `.pmg` below
/// `vehicle` whose path has a word for it.
pub open spec fn wheel_in(path: Seq<char>) -> Option<Seq<char>> {
    let s = lowered(with_for(path, '\\', '\\', '/'));
    if "vehicle/"@.is_prefix_of(path) && stem_before(base_of(path), "pmg"@) is Some && wheel_word(s) {
        Some(without_suffixes(s, ".pmg"@))
    } else {
        None
    }
}

pub open spec fn wheels_in(paths: Seq<Seq<char>>) -> Seq<Seq<char>>
    decreases paths.len(),
{
    if paths.len() == 0 {
        Seq::empty()
    } else {
        match wheel_in(paths.last()) {
            Some(s) => wheels_in(paths.drop_last()).push(s),
            None => wheels_in(paths.drop_last()),
        }
    }
}

/// One more candidate: the first rim for the front, the first other one for the
/// rear, and the first model that is no rim for the tyre.
pub open spec fn with_candidate(w: WheelsView, c: Seq<char>) -> WheelsView {
    if rim(c) && carries(c, "front"@) && w.rim_front is None {
        WheelsView { rim_front: Some(c), ..w }
    } else if rim(c) && carries(c, "rear"@) && w.rim_rear is None {
        WheelsView { rim_rear: Some(c), ..w }
    } else if !rim(c) && !carries(c, "null"@) && w.tyre is None {
        WheelsView { tyre: Some(c), ..w }
    } else {
        w
    }
}

pub open spec fn with_candidates(cs: Seq<Seq<char>>) -> WheelsView
    decreases cs.len(),
{
    if cs.len() == 0 {
        WheelsView { rim_front: None, rim_rear: None, tyre: None }
    } else {
        with_candidate(with_candidates(cs.drop_last()), cs.last())
    }
}

/// A mod with only one rim model uses it front and rear.
pub open spec fn shared(w: WheelsView) -> WheelsView {
    WheelsView {
        rim_front: if w.rim_front is None {
            w.rim_rear
        } else {
            w.rim_front
        },
        rim_rear: if w.rim_rear is None {
            w.rim_front
        } else {
            w.rim_rear
        },
        ..w
    }
}

fn is_rim(c: &[char]) -> (r: bool)
    ensures
        r == rim(c@),
{
    holds(c, "disc") || holds(c, "rim") || holds(c, "roda")
}

fn find_wheel(path: &str) -> (r: Option<String>)
    ensures
        opt_text(r) == wheel_in(path@),
{
    let c = chars_of(path);
    let base = base_text(path);
    if !begins(c.as_slice(), "vehicle/") || stem_of(base.as_str(), "pmg").is_none() {
        return None;
    }
    let s = replace(c.as_slice(), '\\', '\\', '/');
    let s = lower(s.as_slice());
    let w = s.as_slice();
    if holds(w, "wheel") || holds(w, "roda") || holds(w, "disc") || holds(w, "/rim") || holds(
        w,
        "tire",
    ) || holds(w, "tyre") {
        Some(string_of(trim_suffixes(w, ".pmg")))
    } else {
        None
    }
}

/// The wheels among the files of an extracted archive, given by their paths.
pub fn find_wheels(paths: &Vec<String>) -> (r: Wheels)
    ensures
        r@ == shared(with_candidates(ordered(wheels_in(texts(paths@))))),
{
    let ghost all = texts(paths@);
    let mut found: Vec<String> = Vec::new();
    let mut i: usize = 0;
    assert(texts(found@) =~= wheels_in(all.take(0)));
    while i < paths.len()
        invariant
            i <= paths@.len(),
            all == texts(paths@),
            texts(found@) == wheels_in(all.take(i as int)),
        decreases paths@.len() - i,
    {
        assert(all.take(i + 1).drop_last() =~= all.take(i as int));
        match find_wheel(paths[i].as_str()) {
            Some(s) => {
                let ghost before = texts(found@);
                found.push(s);
                assert(texts(found@) =~= before.push(s@));
            },
            None => {},
        }
        i = i + 1;
    }
    assert(all.take(i as int) =~= all);
    let found = sort(found);
    let ghost cs = texts(found@);
    let mut w = Wheels { rim_front: None, rim_rear: None, tyre: None };
    let mut i: usize = 0;
    assert(cs.take(0) =~= Seq::<Seq<char>>::empty());
    while i < found.len()
        invariant
            i <= found@.len(),
            cs == texts(found@),
            w@ == with_candidates(cs.take(i as int)),
        decreases found@.len() - i,
    {
        assert(cs.take(i + 1).drop_last() =~= cs.take(i as int));
        let c = chars_of(found[i].as_str());
        let s = c.as_slice();
        if is_rim(s) && holds(s, "front") && w.rim_front.is_none() {
            w.rim_front = Some(found[i].clone());
        } else if is_rim(s) && holds(s, "rear") && w.rim_rear.is_none() {
            w.rim_rear = Some(found[i].clone());
        } else if !is_rim(s) && !holds(s, "null") && w.tyre.is_none() {
            w.tyre = Some(found[i].clone());
        }
        i = i + 1;
    }
    assert(cs.take(i as int) =~= cs);
    let ghost before = w@;
    if w.rim_front.is_none() {
        w.rim_front = copied(&w.rim_rear);
    } else if w.rim_rear.is_none() {
        w.rim_rear = copied(&w.rim_front);
    }
    assert(w@ =~= shared(before));
    w
}

pub(crate) fn copied(o: &Option<String>) -> (r: Option<String>)
    ensures
        opt_text(r) == opt_text(*o),
{
    match o {
        Some(s) => Some(s.clone()),
        None => None,
    }
}

/// A mod with a rim for one axle has one for both.
pub proof fn one_rim_serves_both_axles(paths: Seq<Seq<char>>)
    ensures
        ({
            let w = shared(with_candidates(ordered(wheels_in(paths))));
            w.rim_front is Some <==> w.rim_rear is Some
        }),
{
}

} // verus!
