//! Laying out a vehicle: which models stand where, and which textures go with
//! them.
//!
//! Where a locator is in space, and how much of a model lies inside the body, is
//! measured outside; the measures arrive here as the bits of 32-bit floats, or
//! as the text they print as.

use crate::fittings::{extra_views, main_views, ExtraModel, ExtraView, MainModel, MainView};
use crate::livery::{JobView, PaintJob, Wheels, WheelsView};
use crate::pim::{Locator, ModelView};
use crate::pit::TraitView;
use crate::scene::{held, instance_views, Instance, InstanceView, Loader, Stats, StatsView};
use crate::text::{
    after_prefix, begins, cat, cat3, chars_of, clone_texts, debug_text, decimal, ordered,
    pieces, quoted_debug, same_str, sort, split, string_of, strip_prefix, texts,
    unroot, unrooted, write_usize,
};
use crate::vehicle::{accessory_views, Accessory, AccessoryView};
use vstd::prelude::*;

verus! {

// --------------------------------------------------------------- wheels ---

pub open spec fn only_digits(s: Seq<char>) -> bool {
    s.len() > 0 && forall|i: int| 0 <= i < s.len() ==> '0' <= #[trigger] s[i] <= '9'
}

/// Whether a locator carries a wheel: `wheel_f` or `wheel_r` with one or two
/// numbers behind. The second number is optional.
pub open spec fn names_a_wheel(name: Seq<char>) -> bool {
    match after_prefix(name, "wheel_"@) {
        None => false,
        Some(rest) => {
            let p = pieces(rest, '_');
            &&& p[0] == "f"@ || p[0] == "r"@
            &&& 2 <= p.len() <= 3
            &&& forall|i: int| 1 <= i < p.len() ==> only_digits(#[trigger] p[i])
        },
    }
}

fn is_number(s: &[char]) -> (r: bool)
    ensures
        r == only_digits(s@),
{
    if s.len() == 0 {
        return false;
    }
    let mut i: usize = 0;
    while i < s.len()
        invariant
            i <= s@.len(),
            forall|j: int| 0 <= j < i ==> '0' <= #[trigger] s@[j] <= '9',
        decreases s@.len() - i,
    {
        if s[i] < '0' || s[i] > '9' {
            return false;
        }
        i = i + 1;
    }
    true
}

/// `wheel_f_0_0`, and also `wheel_r_0`.
pub fn is_wheel_locator(name: &str) -> (r: bool)
    ensures
        r == names_a_wheel(name@),
{
    let c = chars_of(name);
    match strip_prefix(c.as_slice(), "wheel_") {
        None => false,
        Some(rest) => {
            let p = split(rest, '_');
            proof {
                crate::text::lemma_pieces_nonempty(rest@, '_');
                assert(crate::text::parts(p@)[0] == p@[0]@);
            }
            if !crate::text::equals(p[0], "f") && !crate::text::equals(p[0], "r") {
                return false;
            }
            if p.len() < 2 || p.len() > 3 {
                return false;
            }
            let mut i: usize = 1;
            while i < p.len()
                invariant
                    1 <= i <= p@.len(),
                    after_prefix(name@, "wheel_"@) == Some(rest@),
                    crate::text::parts(p@) == pieces(rest@, '_'),
                    forall|j: int| 1 <= j < i ==> only_digits(#[trigger] pieces(rest@, '_')[j]),
                decreases p@.len() - i,
            {
                assert(pieces(rest@, '_')[i as int] == p@[i as int]@);
                if !is_number(p[i]) {
                    return false;
                }
                i = i + 1;
            }
            true
        },
    }
}

// ------------------------------------------------------------------ fit ---

/// Whether the bits are those of no number.
pub open spec fn no_number(b: u32) -> bool {
    b % 0x8000_0000 > 0x7f80_0000
}

/// The place of a number among all numbers, by its bits; both zeros are one.
pub open spec fn rank(b: u32) -> int {
    if b < 0x8000_0000 {
        b as int
    } else {
        0x8000_0000 - b
    }
}

/// Whether one number is greater than another, by their bits.
pub open spec fn exceeds(a: u32, b: u32) -> bool {
    !no_number(a) && !no_number(b) && rank(a) > rank(b)
}

pub fn greater(a: u32, b: u32) -> (r: bool)
    ensures
        r == exceeds(a, b),
{
    if a % 0x8000_0000 > 0x7f80_0000 || b % 0x8000_0000 > 0x7f80_0000 {
        return false;
    }
    let x: i64 = if a < 0x8000_0000 {
        a as i64
    } else {
        0x8000_0000 - (a as i64)
    };
    let y: i64 = if b < 0x8000_0000 {
        b as i64
    } else {
        0x8000_0000 - (b as i64)
    };
    x > y
}

/// The bits of minus one.
pub const MINUS_ONE: u32 = 0xbf80_0000;

/// The bits of 0.999.
pub const NEARLY_ALL: u32 = 0x3f7f_be77;

/// A space that a model may have been drawn in, and how much of it lies inside
/// the body if it was; nothing where it cannot be measured.
pub struct Candidate {
    pub label: &'static str,
    pub score: Option<u32>,
}

pub struct CandidateView {
    pub label: Seq<char>,
    pub score: Option<u32>,
}

impl View for Candidate {
    type V = CandidateView;

    open spec fn view(&self) -> CandidateView {
        CandidateView { label: self.label@, score: self.score }
    }
}

pub open spec fn candidate_views(v: Seq<Candidate>) -> Seq<CandidateView> {
    Seq::new(v.len(), |i: int| v[i]@)
}

/// The first of the best candidates, with its score.
pub open spec fn best_of(c: Seq<CandidateView>) -> (Option<int>, u32)
    decreases c.len(),
{
    if c.len() == 0 {
        (None, MINUS_ONE)
    } else {
        let b = best_of(c.drop_last());
        match c.last().score {
            Some(s) => if exceeds(s, b.1) {
                (Some(c.len() - 1), s)
            } else {
                b
            },
            None => b,
        }
    }
}

pub struct FitView {
    pub index: Option<int>,
    pub label: Seq<char>,
    pub score: u32,
}

/// What a space is called in a note.
pub open spec fn called(label: Seq<char>) -> Seq<char> {
    if label == "body"@ || label == "cabin"@ || label == "interior"@ {
        label
    } else {
        "declared"@
    }
}

/// The space that lands the model inside the body. Without a body to measure
/// against, or a measure, it is the first.
pub open spec fn fit_of(body: bool, c: Seq<CandidateView>) -> FitView {
    let b = best_of(c);
    if !body || exceeds(0, b.1) {
        FitView {
            index: if c.len() > 0 {
                Some(0int)
            } else {
                None
            },
            label: "declared"@,
            score: 0,
        }
    } else {
        FitView {
            index: b.0,
            label: match b.0 {
                Some(i) => called(c[i].label),
                None => "declared"@,
            },
            score: b.1,
        }
    }
}

pub struct Fit {
    pub index: Option<usize>,
    pub label: &'static str,
    pub score: u32,
}

impl View for Fit {
    type V = FitView;

    open spec fn view(&self) -> FitView {
        FitView {
            index: match self.index {
                Some(i) => Some(i as int),
                None => None,
            },
            label: self.label@,
            score: self.score,
        }
    }
}

/// The name of a space, as a fit is labelled with it.
pub fn space_label(label: &str) -> (r: &'static str)
    ensures
        r@ == called(label@),
{
    if same_str(label, "body") {
        "body"
    } else if same_str(label, "cabin") {
        "cabin"
    } else if same_str(label, "interior") {
        "interior"
    } else {
        "declared"
    }
}

/// Picks the placement that actually lands the model inside the body. Which
/// space a model is authored in is not reliably declared; measuring beats
/// maintaining a table of exceptions.
pub fn best_fit(body: bool, candidates: &Vec<Candidate>) -> (r: Fit)
    ensures
        r@ == fit_of(body, candidate_views(candidates@)),
        r.index matches Some(i) ==> i < candidates@.len(),
{
    let ghost all = candidate_views(candidates@);
    let mut best: Option<usize> = None;
    let mut score: u32 = MINUS_ONE;
    let mut i: usize = 0;
    while i < candidates.len()
        invariant
            i <= candidates@.len(),
            all == candidate_views(candidates@),
            score == best_of(all.take(i as int)).1,
            best_of(all.take(i as int)).0 == (match best {
                Some(k) => Some(k as int),
                None => None,
            }),
            best matches Some(k) ==> k < candidates@.len(),
        decreases candidates@.len() - i,
    {
        assert(all.take(i + 1).drop_last() =~= all.take(i as int));
        assert(all[i as int] == candidates@[i as int]@);
        match candidates[i].score {
            Some(s) => {
                if greater(s, score) {
                    best = Some(i);
                    score = s;
                }
            },
            None => {},
        }
        i = i + 1;
    }
    assert(all.take(i as int) =~= all);
    if !body || greater(0, score) {
        let first: Option<usize> = if candidates.len() > 0 {
            Some(0)
        } else {
            None
        };
        return Fit { index: first, label: "declared", score: 0 };
    }
    let label = match best {
        Some(k) => {
            assert(all[k as int] == candidates@[k as int]@);
            space_label(candidates[k].label)
        },
        None => "declared",
    };
    Fit { index: best, label, score }
}

/// No candidate fits better than the one that is picked.
pub proof fn nothing_fits_better(c: Seq<CandidateView>, i: int)
    requires
        0 <= i < c.len(),
        c[i].score is Some,
    ensures
        !exceeds(c[i].score->0, fit_of(true, c).score),
{
    lemma_best(c, i);
}

proof fn lemma_best(c: Seq<CandidateView>, i: int)
    requires
        0 <= i < c.len(),
        c[i].score is Some,
    ensures
        !exceeds(c[i].score->0, best_of(c).1),
        !no_number(best_of(c).1),
    decreases c.len(),
{
    lemma_best_is_a_number(c);
    if i < c.len() - 1 {
        assert(c.drop_last()[i] == c[i]);
        lemma_best(c.drop_last(), i);
    }
}

proof fn lemma_best_is_a_number(c: Seq<CandidateView>)
    ensures
        !no_number(best_of(c).1),
    decreases c.len(),
{
    if c.len() > 0 {
        lemma_best_is_a_number(c.drop_last());
    }
}

// ------------------------------------------------------------- locators ---

/// Where a model is put: where the body is, or at a locator of one of the
/// vehicle's own models, given by its number there.
#[derive(Clone, Copy)]
pub enum Place {
    Body,
    Exterior(usize),
    Cabin(usize),
    Interior(usize),
}

/// The vehicle's own models, by what they are.
#[derive(Clone, Copy)]
pub enum Role {
    Exterior,
    Cabin,
    Interior,
}

pub open spec fn place_of(r: Role, i: usize) -> Place {
    match r {
        Role::Exterior => Place::Exterior(i),
        Role::Cabin => Place::Cabin(i),
        Role::Interior => Place::Interior(i),
    }
}

fn at(r: Role, i: usize) -> (p: Place)
    ensures
        p == place_of(r, i),
{
    match r {
        Role::Exterior => Place::Exterior(i),
        Role::Cabin => Place::Cabin(i),
        Role::Interior => Place::Interior(i),
    }
}

/// The first of the vehicle's models with a role.
pub open spec fn with_role(v: Seq<MainView>, role: Seq<char>) -> Option<MainView>
    decreases v.len(),
{
    if v.len() == 0 {
        None
    } else if v[0].role == role {
        Some(v[0])
    } else {
        with_role(v.skip(1), role)
    }
}

pub(crate) fn find_role<'a>(v: &'a Vec<MainModel>, role: &str) -> (r: Option<&'a MainModel>)
    ensures
        match r {
            Some(m) => with_role(main_views(v@), role@) == Some(m@),
            None => with_role(main_views(v@), role@) is None,
        },
{
    let ghost all = main_views(v@);
    let mut i: usize = 0;
    assert(all.skip(0) =~= all);
    while i < v.len()
        invariant
            i <= v@.len(),
            all == main_views(v@),
            with_role(all.skip(i as int), role@) == with_role(all, role@),
        decreases v@.len() - i,
    {
        assert(all.skip(i as int)[0] == all[i as int]);
        assert(all[i as int] == v@[i as int]@);
        if same_str(v[i].role, role) {
            return Some(&v[i]);
        }
        assert(all.skip(i as int).skip(1) =~= all.skip(i + 1));
        i = i + 1;
    }
    None
}

pub type Models = Map<Seq<char>, Option<(ModelView, TraitView)>>;

/// The names of the locators of a model; none where it could not be read.
pub open spec fn locator_names(l: Models, model: Seq<char>) -> Seq<Seq<char>> {
    match held(l, model) {
        Some(x) => Seq::new(x.0.locators.len(), |i: int| x.0.locators[i].name),
        None => Seq::empty(),
    }
}

/// Where the spot with a name is.
pub open spec fn spot_named(s: Seq<(Seq<char>, Place)>, name: Seq<char>) -> Option<Place>
    decreases s.len(),
{
    if s.len() == 0 {
        None
    } else if s[0].0 == name {
        Some(s[0].1)
    } else {
        spot_named(s.skip(1), name)
    }
}

/// `s` with a spot more, unless there is one of that name.
pub open spec fn with_spot(s: Seq<(Seq<char>, Place)>, name: Seq<char>, p: Place) -> Seq<
    (Seq<char>, Place),
> {
    if spot_named(s, name) is Some {
        s
    } else {
        s.push((name, p))
    }
}

/// `s` with the first `n` of the locators `names` of a model behind.
pub open spec fn with_spots(
    s: Seq<(Seq<char>, Place)>,
    names: Seq<Seq<char>>,
    prefix: Seq<char>,
    r: Role,
    n: nat,
) -> Seq<(Seq<char>, Place)>
    decreases n,
{
    if n == 0 {
        s
    } else {
        with_spot(
            with_spots(s, names, prefix, r, (n - 1) as nat),
            prefix + names[n - 1],
            place_of(r, (n - 1) as usize),
        )
    }
}

pub open spec fn with_model_spots(
    s: Seq<(Seq<char>, Place)>,
    l: Models,
    m: Option<MainView>,
    prefix: Seq<char>,
    r: Role,
) -> Seq<(Seq<char>, Place)> {
    match m {
        Some(v) => {
            let names = locator_names(l, v.model);
            with_spots(s, names, prefix, r, names.len())
        },
        None => s,
    }
}

/// The spots of the chassis and the cabin, which share one space.
pub open spec fn body_spots(l: Models, v: Seq<MainView>) -> Seq<(Seq<char>, Place)> {
    with_model_spots(
        with_model_spots(
            Seq::empty(),
            l,
            with_role(v, "exterior"@),
            Seq::empty(),
            Role::Exterior,
        ),
        l,
        with_role(v, "cabin"@),
        Seq::empty(),
        Role::Cabin,
    )
}

/// All the spots; those of the interior, which has a space of its own, stand
/// under names of their own.
pub open spec fn all_spots(l: Models, v: Seq<MainView>) -> Seq<(Seq<char>, Place)> {
    with_model_spots(
        body_spots(l, v),
        l,
        with_role(v, "interior"@),
        "int:"@,
        Role::Interior,
    )
}

pub open spec fn spot_views(v: Seq<(String, Place)>) -> Seq<(Seq<char>, Place)> {
    Seq::new(v.len(), |i: int| (v[i].0@, v[i].1))
}

fn find_spot(v: &Vec<(String, Place)>, name: &str) -> (r: Option<Place>)
    ensures
        r == spot_named(spot_views(v@), name@),
{
    let ghost all = spot_views(v@);
    let mut i: usize = 0;
    assert(all.skip(0) =~= all);
    while i < v.len()
        invariant
            i <= v@.len(),
            all == spot_views(v@),
            spot_named(all.skip(i as int), name@) == spot_named(all, name@),
        decreases v@.len() - i,
    {
        assert(all.skip(i as int)[0] == all[i as int]);
        if same_str(v[i].0.as_str(), name) {
            return Some(v[i].1);
        }
        assert(all.skip(i as int).skip(1) =~= all.skip(i + 1));
        i = i + 1;
    }
    None
}

fn add_spots(
    v: &mut Vec<(String, Place)>,
    loader: &Loader,
    m: Option<&MainModel>,
    prefix: &str,
    role: Role,
)
    requires
        loader.wf(),
    ensures
        spot_views(final(v)@) == with_model_spots(
            spot_views(old(v)@),
            loader@,
            (match m {
                Some(x) => Some(x@),
                None => None,
            }),
            prefix@,
            role,
        ),
{
    let ghost start = spot_views(v@);
    match m {
        None => {},
        Some(main) => match loader.peek(main.model.as_str()) {
            None => {},
            Some(x) => {
                let ghost names = locator_names(loader@, main@.model);
                let locs: &Vec<Locator> = &x.0.locators;
                let mut i: usize = 0;
                while i < locs.len()
                    invariant
                        i <= locs@.len(),
                        names.len() == locs@.len(),
                        forall|k: int| 0 <= k < names.len() ==> #[trigger] names[k] == locs@[k].name@,
                        spot_views(v@) == with_spots(start, names, prefix@, role, i as nat),
                    decreases locs@.len() - i,
                {
                    let ghost before = spot_views(v@);
                    assert(names[i as int] == locs@[i as int].name@);
                    let name = cat(prefix, locs[i].name.as_str());
                    if find_spot(v, name.as_str()).is_none() {
                        let ghost key = name@;
                        v.push((name, at(role, i)));
                        assert(spot_views(v@) =~= before.push((key, place_of(role, i))));
                    }
                    i = i + 1;
                }
            },
        },
    }
}

/// No two spots have one name.
pub open spec fn distinct_spots(s: Seq<(Seq<char>, Place)>) -> bool {
    forall|i: int, j: int|
        0 <= i < j < s.len() ==> (#[trigger] s[i]).0 != (#[trigger] s[j]).0
}

proof fn lemma_spot_named(s: Seq<(Seq<char>, Place)>, name: Seq<char>)
    ensures
        match spot_named(s, name) {
            Some(p) => exists|i: int| 0 <= i < s.len() && #[trigger] s[i] == (name, p),
            None => forall|i: int| 0 <= i < s.len() ==> (#[trigger] s[i]).0 != name,
        },
    decreases s.len(),
{
    if s.len() > 0 {
        let t = s.skip(1);
        lemma_spot_named(t, name);
        if s[0].0 == name {
            assert(s[0] == (name, s[0].1));
        } else {
            match spot_named(t, name) {
                Some(p) => {
                    let i = choose|i: int| 0 <= i < t.len() && #[trigger] t[i] == (name, p);
                    assert(s[i + 1] == (name, p));
                },
                None => {
                    assert forall|i: int| 0 <= i < s.len() implies (#[trigger] s[i]).0 != name by {
                        if i > 0 {
                            assert(s[i] == t[i - 1]);
                        }
                    }
                },
            }
        }
    }
}

proof fn lemma_with_spots_distinct(
    s: Seq<(Seq<char>, Place)>,
    names: Seq<Seq<char>>,
    prefix: Seq<char>,
    r: Role,
    n: nat,
)
    requires
        distinct_spots(s),
    ensures
        distinct_spots(with_spots(s, names, prefix, r, n)),
    decreases n,
{
    if n > 0 {
        lemma_with_spots_distinct(s, names, prefix, r, (n - 1) as nat);
        let t = with_spots(s, names, prefix, r, (n - 1) as nat);
        lemma_spot_named(t, prefix + names[n - 1]);
    }
}

/// Each spot has a name of its own: where two locators share one, the first
/// keeps it.
pub proof fn spots_have_names_of_their_own(l: Models, v: Seq<MainView>)
    ensures
        distinct_spots(body_spots(l, v)),
        distinct_spots(all_spots(l, v)),
{
    let e = with_model_spots(
        Seq::empty(),
        l,
        with_role(v, "exterior"@),
        Seq::empty(),
        Role::Exterior,
    );
    if let Some(m) = with_role(v, "exterior"@) {
        let names = locator_names(l, m.model);
        lemma_with_spots_distinct(Seq::empty(), names, Seq::empty(), Role::Exterior, names.len());
    }
    assert(distinct_spots(e));
    if let Some(m) = with_role(v, "cabin"@) {
        let names = locator_names(l, m.model);
        lemma_with_spots_distinct(e, names, Seq::empty(), Role::Cabin, names.len());
    }
    let b = body_spots(l, v);
    if let Some(m) = with_role(v, "interior"@) {
        let names = locator_names(l, m.model);
        lemma_with_spots_distinct(b, names, "int:"@, Role::Interior, names.len());
    }
}

// --------------------------------------------------------------- layout ---

/// What a vehicle is made of.
pub struct Layout {
    pub variants_row: bool,
    pub models: Vec<MainModel>,
    pub accessories: Vec<Accessory>,
    pub extras: Vec<ExtraModel>,
    pub wheels: Wheels,
    pub paint: Option<PaintJob>,
}

pub struct LayoutView {
    pub variants_row: bool,
    pub models: Seq<MainView>,
    pub accessories: Seq<AccessoryView>,
    pub extras: Seq<ExtraView>,
    pub wheels: WheelsView,
    pub paint: Option<JobView>,
}

impl View for Layout {
    type V = LayoutView;

    open spec fn view(&self) -> LayoutView {
        LayoutView {
            variants_row: self.variants_row,
            models: main_views(self.models@),
            accessories: accessory_views(self.accessories@),
            extras: extra_views(self.extras@),
            wheels: self.wheels@,
            paint: match self.paint {
                Some(p) => Some(p@),
                None => None,
            },
        }
    }
}

/// A fit, and its score in percent as it is printed.
pub struct Measured {
    pub fit: Fit,
    pub percent: String,
}

pub struct MeasuredView {
    pub fit: FitView,
    pub percent: Seq<char>,
}

impl View for Measured {
    type V = MeasuredView;

    open spec fn view(&self) -> MeasuredView {
        MeasuredView { fit: self.fit@, percent: self.percent@ }
    }
}

pub open spec fn measured_views(v: Seq<Measured>) -> Seq<MeasuredView> {
    Seq::new(v.len(), |i: int| v[i]@)
}

/// The instances of a scene, where each is put, and what is said on the way.
#[verifier::ext_equal]
pub struct ArrangedView {
    pub instances: Seq<InstanceView>,
    pub places: Seq<Place>,
    pub notes: Seq<Seq<char>>,
}

impl ArrangedView {
    pub open spec fn with(
        self,
        name: Seq<char>,
        model: Seq<char>,
        variants: Seq<Seq<char>>,
        place: Place,
    ) -> ArrangedView {
        ArrangedView {
            instances: self.instances.push(InstanceView { name, model, variants }),
            places: self.places.push(place),
            ..self
        }
    }

    pub open spec fn saying(self, note: Seq<char>) -> ArrangedView {
        ArrangedView { notes: self.notes.push(note), ..self }
    }

    /// One of the vehicle's own models, where the body is.
    pub open spec fn with_body(self, m: Option<MainView>) -> ArrangedView {
        match m {
            Some(x) => self.with(x.role, x.model, x.variants, Place::Body),
            None => self,
        }
    }
}

/// The spaces that the interior may be drawn in: that of the locator the body
/// has for it, and that of the body.
pub open spec fn interior_places(s: Seq<(Seq<char>, Place)>) -> Seq<(Seq<char>, Place)> {
    match spot_named(s, "interior"@) {
        Some(p) => seq![("interior"@, p), ("body"@, Place::Body)],
        None => seq![("body"@, Place::Body)],
    }
}

/// The place that a fit picks.
pub open spec fn picked(c: Seq<(Seq<char>, Place)>, f: FitView) -> Place {
    match f.index {
        Some(i) => if 0 <= i < c.len() {
            c[i].1
        } else {
            Place::Body
        },
        None => Place::Body,
    }
}

/// Where the interior is put.
pub open spec fn interior_place(l: Models, v: Seq<MainView>, f: FitView) -> Place {
    if with_role(v, "interior"@) is Some {
        picked(interior_places(body_spots(l, v)), f)
    } else {
        Place::Body
    }
}

/// The spaces that an extra may be drawn in.
pub open spec fn extra_places(v: Seq<MainView>, interior: Place) -> Seq<(Seq<char>, Place)> {
    if with_role(v, "interior"@) is Some {
        seq![("body"@, Place::Body), ("interior"@, interior)]
    } else {
        seq![("body"@, Place::Body)]
    }
}

pub open spec fn with_extra(
    a: ArrangedView,
    e: ExtraView,
    m: MeasuredView,
    c: Seq<(Seq<char>, Place)>,
) -> ArrangedView {
    let said = if m.fit.label != "body"@ || exceeds(NEARLY_ALL, m.fit.score) {
        a.saying(
            "extra "@ + debug_text(e.name) + " placed in "@ + m.fit.label + " space ("@ + m.percent
                + "%)"@,
        )
    } else {
        a
    };
    said.with("anim_"@ + e.name, e.model, e.variants, picked(c, m.fit))
}

pub open spec fn with_extras(
    a: ArrangedView,
    e: Seq<ExtraView>,
    m: Seq<MeasuredView>,
    c: Seq<(Seq<char>, Place)>,
) -> ArrangedView
    decreases e.len(),
{
    if e.len() == 0 {
        a
    } else {
        with_extra(
            with_extras(a, e.drop_last(), m, c),
            e.last(),
            m[e.len() - 1],
            c,
        )
    }
}

/// The spot that an accessory is mounted at. An exterior part never borrows an
/// interior locator of the same name, nor the other way round.
pub open spec fn mount_name(a: AccessoryView) -> Seq<char> {
    if a.kind == "interior"@ {
        "int:"@ + a.slot
    } else {
        a.slot
    }
}

pub open spec fn with_accessories(
    a: ArrangedView,
    v: Seq<AccessoryView>,
    s: Seq<(Seq<char>, Place)>,
) -> ArrangedView
    decreases v.len(),
{
    if v.len() == 0 {
        a
    } else {
        let r = with_accessories(a, v.drop_last(), s);
        let x = v.last();
        match spot_named(s, mount_name(x)) {
            Some(p) => r.with(
                "acc_"@ + x.slot + "_"@ + x.kind,
                x.model,
                if x.variant.len() == 0 {
                    Seq::empty()
                } else {
                    seq![x.variant]
                },
                p,
            ),
            None => r,
        }
    }
}

/// The names of the spots that carry a wheel, in order.
pub open spec fn wheel_names(s: Seq<(Seq<char>, Place)>) -> Seq<Seq<char>>
    decreases s.len(),
{
    if s.len() == 0 {
        Seq::empty()
    } else {
        let r = wheel_names(s.drop_last());
        if names_a_wheel(s.last().0) {
            r.push(s.last().0)
        } else {
            r
        }
    }
}

/// The models of one wheel: the rim of its axle and the tyre, as far as there
/// are any.
pub open spec fn wheel_models(w: WheelsView, name: Seq<char>) -> Seq<Seq<char>> {
    let rim = if after_prefix(name, "wheel_f"@) is Some {
        w.rim_front
    } else {
        w.rim_rear
    };
    let first = match rim {
        Some(m) => seq![m],
        None => Seq::empty(),
    };
    match w.tyre {
        Some(m) => first.push(m),
        None => first,
    }
}

pub open spec fn with_wheel(
    a: ArrangedView,
    name: Seq<char>,
    p: Place,
    models: Seq<Seq<char>>,
) -> ArrangedView
    decreases models.len(),
{
    if models.len() == 0 {
        a
    } else {
        with_wheel(a, name, p, models.drop_last()).with(
            "wheel"@ + decimal((models.len() - 1) as nat) + "_"@ + name,
            models.last(),
            Seq::empty(),
            p,
        )
    }
}

pub open spec fn with_wheels(
    a: ArrangedView,
    names: Seq<Seq<char>>,
    s: Seq<(Seq<char>, Place)>,
    w: WheelsView,
) -> ArrangedView
    decreases names.len(),
{
    if names.len() == 0 {
        a
    } else {
        let name = names.last();
        with_wheel(
            with_wheels(a, names.drop_last(), s, w),
            name,
            (match spot_named(s, name) {
                Some(p) => p,
                None => Place::Body,
            }),
            wheel_models(w, name),
        )
    }
}

pub open spec fn body_arranged(v: Seq<MainView>) -> ArrangedView {
    (ArrangedView {
        instances: Seq::empty(),
        places: Seq::empty(),
        notes: Seq::empty(),
    }).with_body(with_role(v, "exterior"@)).with_body(with_role(v, "cabin"@))
}

pub open spec fn interior_arranged(
    a: ArrangedView,
    v: Seq<MainView>,
    m: MeasuredView,
    p: Place,
) -> ArrangedView {
    match with_role(v, "interior"@) {
        Some(x) => a.saying(
            "interior placed in "@ + m.fit.label + " space ("@ + m.percent
                + "% inside the body)"@,
        ).with("interior"@, x.model, x.variants, p),
        None => a,
    }
}

/// The parts that wheels have added: as many as came behind the first `n`.
pub open spec fn wheel_note(names: nat, parts: int) -> Seq<char> {
    "wheels: "@ + decimal(names) + " locators, "@ + decimal(parts as nat) + " parts"@
}

/// The whole arrangement: chassis, cabin, interior, what moves, what is mounted,
/// and the wheels.
pub open spec fn arranged(
    l: Models,
    v: LayoutView,
    interior: MeasuredView,
    extras: Seq<MeasuredView>,
) -> ArrangedView {
    let at = interior_place(l, v.models, interior.fit);
    let spots = all_spots(l, v.models);
    let fixed = interior_arranged(body_arranged(v.models), v.models, interior, at);
    let moving = with_extras(fixed, v.extras, extras, extra_places(v.models, at));
    let fitted = with_accessories(moving, v.accessories, spots);
    let mounted = fitted.saying(
        "accessories mounted: "@ + decimal(
            (fitted.instances.len() - moving.instances.len()) as nat,
        ),
    );
    let names = ordered(wheel_names(spots));
    let wheeled = with_wheels(mounted, names, spots, v.wheels);
    let counted = if names.len() > 0 {
        wheeled.saying(
            wheel_note(names.len(), wheeled.instances.len() - mounted.instances.len()),
        )
    } else {
        wheeled
    };
    match v.paint {
        Some(p) => counted.saying("paint job "@ + debug_text(p.name) + " on the bodywork"@),
        None => counted,
    }
}

pub struct Arranged {
    pub instances: Vec<Instance>,
    pub places: Vec<Place>,
    pub notes: Vec<String>,
}

impl View for Arranged {
    type V = ArrangedView;

    open spec fn view(&self) -> ArrangedView {
        ArrangedView {
            instances: instance_views(self.instances@),
            places: self.places@,
            notes: texts(self.notes@),
        }
    }
}

impl Arranged {
    fn new() -> (r: Arranged)
        ensures
            r@ == (ArrangedView {
                instances: Seq::empty(),
                places: Seq::empty(),
                notes: Seq::empty(),
            }),
    {
        let r = Arranged { instances: Vec::new(), places: Vec::new(), notes: Vec::new() };
        assert(r@ =~= (ArrangedView {
            instances: Seq::empty(),
            places: Seq::empty(),
            notes: Seq::empty(),
        }));
        r
    }

    fn put(&mut self, name: String, model: &str, variants: Vec<String>, place: Place)
        ensures
            final(self)@ == old(self)@.with(name@, model@, texts(variants@), place),
    {
        let ghost was = self@;
        let inst = Instance { name, model: model.to_owned(), variants };
        let ghost v = inst@;
        self.instances.push(inst);
        self.places.push(place);
        assert(instance_views(self.instances@) =~= was.instances.push(v));
        assert(self@ =~= was.with(name@, model@, texts(variants@), place));
    }

    fn say(&mut self, note: String)
        ensures
            final(self)@ == old(self)@.saying(note@),
    {
        let ghost was = self@;
        self.notes.push(note);
        assert(texts(self.notes@) =~= was.notes.push(note@));
        assert(self@ =~= was.saying(note@));
    }

    fn put_body(&mut self, m: Option<&MainModel>)
        ensures
            final(self)@ == old(self)@.with_body(
                match m {
                    Some(x) => Some(x@),
                    None => None,
                },
            ),
    {
        match m {
            Some(x) => {
                self.put(
                    x.role.to_owned(),
                    x.model.as_str(),
                    clone_texts(&x.variants),
                    Place::Body,
                );
            },
            None => {},
        }
    }

    fn put_extra(&mut self, e: &ExtraModel, m: &Measured, c: &Vec<(String, Place)>)
        ensures
            final(self)@ == with_extra(old(self)@, e@, m@, spot_views(c@)),
    {
        if !same_str(m.fit.label, "body") || greater(NEARLY_ALL, m.fit.score) {
            let a = cat3(
                "extra ",
                quoted_debug(e.name.as_str()).as_str(),
                " placed in ",
            );
            let b = cat3(a.as_str(), m.fit.label, " space (");
            self.say(cat3(b.as_str(), m.percent.as_str(), "%)"));
        }
        let p = pick(c, &m.fit);
        self.put(
            cat("anim_", e.name.as_str()),
            e.model.as_str(),
            clone_texts(&e.variants),
            p,
        );
    }

    fn put_extras(&mut self, e: &Vec<ExtraModel>, m: &Vec<Measured>, c: &Vec<(String, Place)>)
        requires
            m@.len() == e@.len(),
        ensures
            final(self)@ == with_extras(
                old(self)@,
                extra_views(e@),
                measured_views(m@),
                spot_views(c@),
            ),
    {
        let ghost start = self@;
        let ghost all = extra_views(e@);
        let ghost mv = measured_views(m@);
        let mut i: usize = 0;
        assert(all.take(0) =~= Seq::<ExtraView>::empty());
        while i < e.len()
            invariant
                i <= e@.len(),
                m@.len() == e@.len(),
                all == extra_views(e@),
                mv == measured_views(m@),
                self@ == with_extras(start, all.take(i as int), mv, spot_views(c@)),
            decreases e@.len() - i,
        {
            assert(all.take(i + 1).drop_last() =~= all.take(i as int));
            assert(all.take(i + 1).last() == e@[i as int]@);
            assert(mv[i as int] == m@[i as int]@);
            self.put_extra(&e[i], &m[i], c);
            i = i + 1;
        }
        assert(all.take(i as int) =~= all);
    }

    fn put_accessories(&mut self, v: &Vec<Accessory>, s: &Vec<(String, Place)>)
        ensures
            final(self)@ == with_accessories(old(self)@, accessory_views(v@), spot_views(s@)),
    {
        let ghost start = self@;
        let ghost all = accessory_views(v@);
        let mut i: usize = 0;
        assert(all.take(0) =~= Seq::<AccessoryView>::empty());
        while i < v.len()
            invariant
                i <= v@.len(),
                all == accessory_views(v@),
                self@ == with_accessories(start, all.take(i as int), spot_views(s@)),
            decreases v@.len() - i,
        {
            assert(all.take(i + 1).drop_last() =~= all.take(i as int));
            let x = &v[i];
            assert(all.take(i + 1).last() == x@);
            let key = if same_str(x.kind, "interior") {
                cat("int:", x.slot.as_str())
            } else {
                x.slot.as_str().to_owned()
            };
            match find_spot(s, key.as_str()) {
                None => {},
                Some(p) => {
                    let mut variants: Vec<String> = Vec::new();
                    if !x.variant.as_str().is_empty() {
                        variants.push(x.variant.as_str().to_owned());
                    }
                    assert(texts(variants@) =~= (if x.variant@.len() == 0 {
                        Seq::<Seq<char>>::empty()
                    } else {
                        seq![x.variant@]
                    }));
                    let name = cat3(cat("acc_", x.slot.as_str()).as_str(), "_", x.kind);
                    self.put(name, x.model.as_str(), variants, p);
                },
            }
            i = i + 1;
        }
        assert(all.take(i as int) =~= all);
    }

    fn put_wheel(&mut self, name: &str, p: Place, w: &Wheels)
        ensures
            final(self)@ == with_wheel(old(self)@, name@, p, wheel_models(w@, name@)),
    {
        let ghost start = self@;
        let c = chars_of(name);
        let front = begins(c.as_slice(), "wheel_f");
        let rim = if front {
            &w.rim_front
        } else {
            &w.rim_rear
        };
        let mut models: Vec<String> = Vec::new();
        assert(texts(models@) =~= Seq::<Seq<char>>::empty());
        match rim {
            Some(m) => {
                models.push(m.as_str().to_owned());
                assert(texts(models@) =~= seq![m@]);
            },
            None => {},
        }
        let ghost first = texts(models@);
        match &w.tyre {
            Some(m) => {
                models.push(m.as_str().to_owned());
                assert(texts(models@) =~= first.push(m@));
            },
            None => {},
        }
        let ghost all = texts(models@);
        assert(all == wheel_models(w@, name@));
        let mut i: usize = 0;
        assert(all.take(0) =~= Seq::<Seq<char>>::empty());
        while i < models.len()
            invariant
                i <= models@.len(),
                all == texts(models@),
                self@ == with_wheel(start, name@, p, all.take(i as int)),
            decreases models@.len() - i,
        {
            assert(all.take(i + 1).drop_last() =~= all.take(i as int));
            let none: Vec<String> = Vec::new();
            assert(texts(none@) =~= Seq::<Seq<char>>::empty());
            let label = cat3(cat("wheel", write_usize(i).as_str()).as_str(), "_", name);
            self.put(label, models[i].as_str(), none, p);
            i = i + 1;
        }
        assert(all.take(i as int) =~= all);
    }

    fn put_wheels(&mut self, names: &Vec<String>, s: &Vec<(String, Place)>, w: &Wheels)
        ensures
            final(self)@ == with_wheels(old(self)@, texts(names@), spot_views(s@), w@),
    {
        let ghost start = self@;
        let ghost all = texts(names@);
        let mut i: usize = 0;
        assert(all.take(0) =~= Seq::<Seq<char>>::empty());
        while i < names.len()
            invariant
                i <= names@.len(),
                all == texts(names@),
                self@ == with_wheels(start, all.take(i as int), spot_views(s@), w@),
            decreases names@.len() - i,
        {
            assert(all.take(i + 1).drop_last() =~= all.take(i as int));
            let p = match find_spot(s, names[i].as_str()) {
                Some(p) => p,
                None => Place::Body,
            };
            self.put_wheel(names[i].as_str(), p, w);
            i = i + 1;
        }
        assert(all.take(i as int) =~= all);
    }
}

fn pick(c: &Vec<(String, Place)>, f: &Fit) -> (r: Place)
    ensures
        r == picked(spot_views(c@), f@),
{
    match f.index {
        Some(i) => if i < c.len() {
            c[i].1
        } else {
            Place::Body
        },
        None => Place::Body,
    }
}

fn find_wheel_names(s: &Vec<(String, Place)>) -> (r: Vec<String>)
    ensures
        texts(r@) == wheel_names(spot_views(s@)),
{
    let ghost all = spot_views(s@);
    let mut r: Vec<String> = Vec::new();
    let mut i: usize = 0;
    assert(all.take(0) =~= Seq::<(Seq<char>, Place)>::empty());
    assert(texts(r@) =~= Seq::<Seq<char>>::empty());
    while i < s.len()
        invariant
            i <= s@.len(),
            all == spot_views(s@),
            texts(r@) == wheel_names(all.take(i as int)),
        decreases s@.len() - i,
    {
        assert(all.take(i + 1).drop_last() =~= all.take(i as int));
        let ghost before = texts(r@);
        if is_wheel_locator(s[i].0.as_str()) {
            r.push(s[i].0.as_str().to_owned());
            assert(texts(r@) =~= before.push(s@[i as int].0@));
        }
        i = i + 1;
    }
    assert(all.take(i as int) =~= all);
    r
}

fn find_body_spots(loader: &Loader, models: &Vec<MainModel>) -> (r: Vec<(String, Place)>)
    requires
        loader.wf(),
    ensures
        spot_views(r@) == body_spots(loader@, main_views(models@)),
{
    let mut r: Vec<(String, Place)> = Vec::new();
    let none = String::new();
    assert(none@ =~= Seq::<char>::empty());
    assert(spot_views(r@) =~= Seq::<(Seq<char>, Place)>::empty());
    add_spots(&mut r, loader, find_role(models, "exterior"), none.as_str(), Role::Exterior);
    add_spots(&mut r, loader, find_role(models, "cabin"), none.as_str(), Role::Cabin);
    r
}

fn labelled(label: &str, p: Place) -> (r: (String, Place))
    ensures
        r.0@ == label@,
        r.1 == p,
{
    (label.to_owned(), p)
}

/// The spaces that the interior may be drawn in.
pub fn places_for_interior(loader: &Loader, models: &Vec<MainModel>) -> (r: Vec<(String, Place)>)
    requires
        loader.wf(),
    ensures
        spot_views(r@) == interior_places(body_spots(loader@, main_views(models@))),
{
    let spots = find_body_spots(loader, models);
    let mut r: Vec<(String, Place)> = Vec::new();
    match find_spot(&spots, "interior") {
        Some(p) => {
            r.push(labelled("interior", p));
            r.push(labelled("body", Place::Body));
            assert(spot_views(r@) =~= seq![("interior"@, p), ("body"@, Place::Body)]);
        },
        None => {
            r.push(labelled("body", Place::Body));
            assert(spot_views(r@) =~= seq![("body"@, Place::Body)]);
        },
    }
    r
}

/// Where a fit puts the interior.
pub fn interior_at(loader: &Loader, models: &Vec<MainModel>, f: &Fit) -> (r: Place)
    requires
        loader.wf(),
    ensures
        r == interior_place(loader@, main_views(models@), f@),
{
    match find_role(models, "interior") {
        Some(_) => pick(&places_for_interior(loader, models), f),
        None => Place::Body,
    }
}

/// The spaces that an extra may be drawn in.
pub fn places_for_extra(models: &Vec<MainModel>, interior: Place) -> (r: Vec<(String, Place)>)
    ensures
        spot_views(r@) == extra_places(main_views(models@), interior),
{
    let mut r: Vec<(String, Place)> = Vec::new();
    r.push(labelled("body", Place::Body));
    if find_role(models, "interior").is_some() {
        r.push(labelled("interior", interior));
        assert(spot_views(r@) =~= seq![("body"@, Place::Body), ("interior"@, interior)]);
    } else {
        assert(spot_views(r@) =~= seq![("body"@, Place::Body)]);
    }
    r
}

/// Arranges a vehicle. `interior` is how its interior fits, and `extras` how each
/// of its extras does.
pub fn arrange(
    loader: &Loader,
    layout: &Layout,
    interior: &Measured,
    extras: &Vec<Measured>,
) -> (r: Arranged)
    requires
        loader.wf(),
        extras@.len() == layout.extras@.len(),
    ensures
        r@ == arranged(loader@, layout@, interior@, measured_views(extras@)),
{
    let models = &layout.models;
    let at = interior_at(loader, models, &interior.fit);
    let mut spots = find_body_spots(loader, models);
    add_spots(&mut spots, loader, find_role(models, "interior"), "int:", Role::Interior);
    let mut a = Arranged::new();
    a.put_body(find_role(models, "exterior"));
    a.put_body(find_role(models, "cabin"));
    match find_role(models, "interior") {
        Some(m) => {
            let s = cat3("interior placed in ", interior.fit.label, " space (");
            a.say(cat3(s.as_str(), interior.percent.as_str(), "% inside the body)"));
            a.put("interior".to_owned(), m.model.as_str(), clone_texts(&m.variants), at);
        },
        None => {},
    }
    a.put_extras(&layout.extras, extras, &places_for_extra(models, at));
    let before: usize = a.instances.len();
    a.put_accessories(&layout.accessories, &spots);
    proof {
        lemma_accessories_grow(
            with_extras(
                interior_arranged(body_arranged(layout@.models), layout@.models, interior@, at),
                layout@.extras,
                measured_views(extras@),
                extra_places(layout@.models, at),
            ),
            layout@.accessories,
            spot_views(spots@),
        );
    }
    let mounted: usize = a.instances.len() - before;
    a.say(cat("accessories mounted: ", write_usize(mounted).as_str()));
    let names = sort(find_wheel_names(&spots));
    let before: usize = a.instances.len();
    let ghost here = a@;
    a.put_wheels(&names, &spots, &layout.wheels);
    proof {
        lemma_wheels_grow(here, texts(names@), spot_views(spots@), layout.wheels@);
    }
    if names.len() > 0 {
        let parts: usize = a.instances.len() - before;
        let s = cat3("wheels: ", write_usize(names.len()).as_str(), " locators, ");
        a.say(cat3(s.as_str(), write_usize(parts).as_str(), " parts"));
    }
    match &layout.paint {
        Some(p) => {
            a.say(
                cat3("paint job ", quoted_debug(p.name.as_str()).as_str(), " on the bodywork"),
            );
        },
        None => {},
    }
    a
}

proof fn lemma_accessories_grow(
    a: ArrangedView,
    v: Seq<AccessoryView>,
    s: Seq<(Seq<char>, Place)>,
)
    ensures
        with_accessories(a, v, s).instances.len() >= a.instances.len(),
    decreases v.len(),
{
    if v.len() > 0 {
        lemma_accessories_grow(a, v.drop_last(), s);
    }
}

proof fn lemma_wheel_grows(a: ArrangedView, name: Seq<char>, p: Place, models: Seq<Seq<char>>)
    ensures
        with_wheel(a, name, p, models).instances.len() == a.instances.len() + models.len(),
    decreases models.len(),
{
    if models.len() > 0 {
        lemma_wheel_grows(a, name, p, models.drop_last());
    }
}

proof fn lemma_wheels_grow(
    a: ArrangedView,
    names: Seq<Seq<char>>,
    s: Seq<(Seq<char>, Place)>,
    w: WheelsView,
)
    ensures
        with_wheels(a, names, s, w).instances.len() >= a.instances.len(),
    decreases names.len(),
{
    if names.len() > 0 {
        lemma_wheels_grow(a, names.drop_last(), s, w);
        let name = names.last();
        let p = match spot_named(s, name) {
            Some(p) => p,
            None => Place::Body,
        };
        lemma_wheel_grows(
            with_wheels(a, names.drop_last(), s, w),
            name,
            p,
            wheel_models(w, name),
        );
    }
}

proof fn lemma_spots_marked(
    s: Seq<(Seq<char>, Place)>,
    names: Seq<Seq<char>>,
    prefix: Seq<char>,
    r: Role,
    n: nat,
)
    requires
        forall|i: int|
            0 <= i < s.len() && (#[trigger] s[i]).1 is Interior ==> after_prefix(s[i].0, "int:"@)
                is Some,
        r is Interior ==> prefix == "int:"@,
    ensures
        ({
            let t = with_spots(s, names, prefix, r, n);
            forall|i: int|
                0 <= i < t.len() && (#[trigger] t[i]).1 is Interior ==> after_prefix(
                    t[i].0,
                    "int:"@,
                ) is Some
        }),
    decreases n,
{
    if n > 0 {
        lemma_spots_marked(s, names, prefix, r, (n - 1) as nat);
        if r is Interior {
            let name = prefix + names[n - 1];
            assert(name.subrange(0, prefix.len() as int) =~= prefix);
            assert(prefix.is_prefix_of(name));
        }
    }
}

/// A part of the outside never borrows a locator of the interior, even where one
/// has the name of its slot: that threw a front panel metres clear of the body.
pub proof fn outside_parts_stay_off_interior_locators(
    l: Models,
    v: Seq<MainView>,
    a: AccessoryView,
)
    requires
        a.kind != "interior"@,
        after_prefix(a.slot, "int:"@) is None,
    ensures
        spot_named(all_spots(l, v), mount_name(a)) matches Some(p) ==> !(p is Interior),
{
    let e = with_model_spots(
        Seq::empty(),
        l,
        with_role(v, "exterior"@),
        Seq::empty(),
        Role::Exterior,
    );
    if let Some(m) = with_role(v, "exterior"@) {
        let names = locator_names(l, m.model);
        lemma_spots_marked(Seq::empty(), names, Seq::empty(), Role::Exterior, names.len());
    }
    if let Some(m) = with_role(v, "cabin"@) {
        let names = locator_names(l, m.model);
        lemma_spots_marked(e, names, Seq::empty(), Role::Cabin, names.len());
    }
    let b = body_spots(l, v);
    if let Some(m) = with_role(v, "interior"@) {
        let names = locator_names(l, m.model);
        lemma_spots_marked(b, names, "int:"@, Role::Interior, names.len());
    }
    lemma_spot_named(all_spots(l, v), mount_name(a));
}

// -------------------------------------------------------------- reports ---

/// The texture that a livery lays over the panels, from the root of the archive.
pub open spec fn mask_path(p: JobView) -> Seq<char> {
    "/"@ + unrooted(p.mask)
}

pub fn paint_mask(p: &PaintJob) -> (r: String)
    ensures
        r@ == mask_path(p@),
{
    let c = chars_of(p.mask.as_str());
    cat("/", string_of(unroot(c.as_slice())).as_str())
}

/// What is said of a finished scene.
pub open spec fn scene_notes(s: StatsView) -> Seq<Seq<char>> {
    let counts = decimal(s.meshes) + " meshes, "@ + decimal(s.tris as nat) + " tris, "@ + decimal(
        s.duplicates_dropped as nat,
    ) + " duplicates dropped ("@ + decimal(s.duplicate_tris as nat) + " tris), "@ + decimal(
        s.shadow_dropped as nat,
    ) + " shadow proxies dropped"@;
    if s.spare_slots > 0 {
        seq![
            decimal(s.spare_slots) + " unworn variant(s) parked beside the vehicle ("@ + decimal(
                s.spare_meshes as nat,
            ) + " meshes)"@,
            counts,
        ]
    } else {
        seq![counts]
    }
}

pub fn notes_on(s: &Stats) -> (r: Vec<String>)
    ensures
        texts(r@) == scene_notes(s@),
{
    let a = cat3(write_usize(s.meshes).as_str(), " meshes, ", write_usize(s.tris).as_str());
    let b = cat3(
        a.as_str(),
        " tris, ",
        write_usize(s.duplicates_dropped).as_str(),
    );
    let c = cat3(
        b.as_str(),
        " duplicates dropped (",
        write_usize(s.duplicate_tris).as_str(),
    );
    let d = cat3(c.as_str(), " tris), ", write_usize(s.shadow_dropped).as_str());
    let counts = cat(d.as_str(), " shadow proxies dropped");
    let mut r: Vec<String> = Vec::new();
    if s.spare_slots > 0 {
        let x = cat3(
            write_usize(s.spare_slots).as_str(),
            " unworn variant(s) parked beside the vehicle (",
            write_usize(s.spare_meshes).as_str(),
        );
        r.push(cat(x.as_str(), " meshes)"));
    }
    r.push(counts);
    assert(texts(r@) =~= scene_notes(s@));
    r
}

/// The complaint about each model that was not there.
pub open spec fn missing_notes(v: Seq<Seq<char>>) -> Seq<Seq<char>> {
    Seq::new(v.len(), |i: int| "model not converted: "@ + v[i])
}

pub fn complaints(v: &Vec<String>) -> (r: Vec<String>)
    ensures
        texts(r@) == missing_notes(texts(v@)),
{
    let mut r: Vec<String> = Vec::new();
    let mut i: usize = 0;
    while i < v.len()
        invariant
            i <= v@.len(),
            r@.len() == i,
            forall|k: int|
                0 <= k < i ==> (#[trigger] r@[k])@ == "model not converted: "@ + v@[k]@,
        decreases v@.len() - i,
    {
        r.push(cat("model not converted: ", v[i].as_str()));
        i = i + 1;
    }
    assert(texts(r@) =~= missing_notes(texts(v@)));
    r
}

proof fn lemma_extras_paired(
    a: ArrangedView,
    e: Seq<ExtraView>,
    m: Seq<MeasuredView>,
    c: Seq<(Seq<char>, Place)>,
)
    requires
        a.instances.len() == a.places.len(),
    ensures
        ({
            let r = with_extras(a, e, m, c);
            r.instances.len() == r.places.len()
        }),
    decreases e.len(),
{
    if e.len() > 0 {
        lemma_extras_paired(a, e.drop_last(), m, c);
    }
}

proof fn lemma_accessories_paired(
    a: ArrangedView,
    v: Seq<AccessoryView>,
    s: Seq<(Seq<char>, Place)>,
)
    requires
        a.instances.len() == a.places.len(),
    ensures
        ({
            let r = with_accessories(a, v, s);
            r.instances.len() == r.places.len()
        }),
    decreases v.len(),
{
    if v.len() > 0 {
        lemma_accessories_paired(a, v.drop_last(), s);
    }
}

proof fn lemma_wheel_paired(a: ArrangedView, name: Seq<char>, p: Place, models: Seq<Seq<char>>)
    requires
        a.instances.len() == a.places.len(),
    ensures
        ({
            let r = with_wheel(a, name, p, models);
            r.instances.len() == r.places.len()
        }),
    decreases models.len(),
{
    if models.len() > 0 {
        lemma_wheel_paired(a, name, p, models.drop_last());
    }
}

proof fn lemma_wheels_paired(
    a: ArrangedView,
    names: Seq<Seq<char>>,
    s: Seq<(Seq<char>, Place)>,
    w: WheelsView,
)
    requires
        a.instances.len() == a.places.len(),
    ensures
        ({
            let r = with_wheels(a, names, s, w);
            r.instances.len() == r.places.len()
        }),
    decreases names.len(),
{
    if names.len() > 0 {
        lemma_wheels_paired(a, names.drop_last(), s, w);
        let name = names.last();
        let p = match spot_named(s, name) {
            Some(p) => p,
            None => Place::Body,
        };
        lemma_wheel_paired(
            with_wheels(a, names.drop_last(), s, w),
            name,
            p,
            wheel_models(w, name),
        );
    }
}

/// Every instance of a vehicle has a place.
pub proof fn every_instance_has_a_place(
    l: Models,
    v: LayoutView,
    interior: MeasuredView,
    extras: Seq<MeasuredView>,
)
    ensures
        arranged(l, v, interior, extras).instances.len() == arranged(
            l,
            v,
            interior,
            extras,
        ).places.len(),
{
    let at = interior_place(l, v.models, interior.fit);
    let spots = all_spots(l, v.models);
    let fixed = interior_arranged(body_arranged(v.models), v.models, interior, at);
    let c = extra_places(v.models, at);
    lemma_extras_paired(fixed, v.extras, extras, c);
    let moving = with_extras(fixed, v.extras, extras, c);
    lemma_accessories_paired(moving, v.accessories, spots);
    let fitted = with_accessories(moving, v.accessories, spots);
    let mounted = fitted.saying(
        "accessories mounted: "@ + decimal(
            (fitted.instances.len() - moving.instances.len()) as nat,
        ),
    );
    lemma_wheels_paired(mounted, ordered(wheel_names(spots)), spots, v.wheels);
}

/// Wheels appear only where there are models for them: without any, the locators
/// stay empty.
pub proof fn wheels_need_models(
    a: ArrangedView,
    names: Seq<Seq<char>>,
    s: Seq<(Seq<char>, Place)>,
    w: WheelsView,
)
    requires
        w.rim_front is None,
        w.rim_rear is None,
        w.tyre is None,
    ensures
        with_wheels(a, names, s, w) == a,
    decreases names.len(),
{
    if names.len() > 0 {
        wheels_need_models(a, names.drop_last(), s, w);
    }
}

} // verus!
