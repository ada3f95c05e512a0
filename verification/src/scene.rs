//! Assembling a vehicle out of models and traits: which pieces of which model
//! stand in the scene, under which name and with which material.
//!
//! Where a piece stands in space is not worked out here; the fingerprints of the
//! placed pieces are taken as given.

use crate::fbxscene::PAINT_UV;
use crate::harvest::{adding, adding_all, lemma_pushed, Names};
use crate::pim::{self, owners, Decimals, Model, ModelView, ONE};
use crate::pit::{self, casts_only, means_opacity, variant_named, Trait, TraitView};
use crate::pmg;
use crate::points::{geometry_key, key_of, Point};
use crate::text::{
    carries, cat, cat3, chars_of, debug_text, decimal, holds, joined, opt_text, precedes,
    quoted_debug, same_str, str_before, texts, write_usize,
};
use std::collections::HashSet;
use vstd::hash_map::StringHashMap;
use vstd::prelude::*;

verus! {

// -------------------------------------------------------------- loading ---

/// What there is to read a model from: the text of its `.pim`, the bytes of its
/// `.pmg` and the text of its `.pit`, with what the decimals in the texts stand
/// for.
pub struct Sources {
    pub pim: Option<String>,
    pub pmg: Option<Vec<u8>>,
    pub pit: Option<String>,
    pub decimals: Decimals,
}

pub open spec fn no_trait() -> TraitView {
    TraitView { materials: Map::empty(), variants: Seq::empty() }
}

impl Sources {
    /// The model: the mid-format if there is one, since it comes with a `.pit`;
    /// else the geometry itself.
    pub open spec fn model(self) -> Option<ModelView> {
        match self.pim {
            Some(text) => Some(pim::model_in(text@, self.decimals@)),
            None => match self.pmg {
                Some(b) => match pmg::layout(b@) {
                    Ok(lay) => Some(pmg::model_of(b@, lay)),
                    Err(_) => None,
                },
                None => None,
            },
        }
    }

    pub open spec fn looks(self) -> TraitView {
        match self.pit {
            Some(text) => pit::trait_in(text@, self.decimals@),
            None => no_trait(),
        }
    }

    pub open spec fn loaded(self) -> Option<(ModelView, TraitView)> {
        match self.model() {
            Some(m) => Some((m, self.looks())),
            None => None,
        }
    }

    fn load(&self) -> (r: Option<(Model, Trait)>)
        ensures
            seen_pair(r) == self.loaded(),
            r matches Some(p) ==> p.1.wf(),
    {
        let model: Option<Model> = match &self.pim {
            Some(text) => Some(pim::parse(text.as_str(), &self.decimals)),
            None => match &self.pmg {
                Some(b) => match pmg::parse_bytes(b.as_slice()) {
                    Ok(m) => Some(m),
                    Err(_) => None,
                },
                None => None,
            },
        };
        match model {
            None => None,
            Some(m) => {
                let t = match &self.pit {
                    Some(text) => pit::parse(text.as_str(), &self.decimals),
                    None => Trait::new(),
                };
                Some((m, t))
            },
        }
    }
}

pub open spec fn seen_pair(r: Option<(Model, Trait)>) -> Option<(ModelView, TraitView)> {
    match r {
        Some(p) => Some((p.0@, p.1@)),
        None => None,
    }
}

/// Cache: a wheel model gets asked for once per locator, an accessory once per
/// slot, and reading the same large file six times is the whole cost.
pub struct Loader {
    pub models: StringHashMap<Option<(Model, Trait)>>,
}

impl View for Loader {
    type V = Map<Seq<char>, Option<(ModelView, TraitView)>>;

    open spec fn view(&self) -> Map<Seq<char>, Option<(ModelView, TraitView)>> {
        self.models@.map_values(|o: Option<(Model, Trait)>| seen_pair(o))
    }
}

/// The model that a loader holds under a name.
pub open spec fn held(
    l: Map<Seq<char>, Option<(ModelView, TraitView)>>,
    model: Seq<char>,
) -> Option<(ModelView, TraitView)> {
    if l.contains_key(model) {
        l[model]
    } else {
        None
    }
}

impl Loader {
    pub open spec fn wf(self) -> bool {
        forall|k: Seq<char>| #[trigger]
            self.models@.contains_key(k) ==> (self.models@[k] matches Some(p) ==> p.1.wf())
    }

    pub fn new() -> (r: Loader)
        ensures
            r.wf(),
            r@ == Map::<Seq<char>, Option<(ModelView, TraitView)>>::empty(),
    {
        let r = Loader { models: StringHashMap::new() };
        assert(r@ =~= Map::<Seq<char>, Option<(ModelView, TraitView)>>::empty());
        r
    }

    /// Whether a model has been asked for before.
    pub fn knows(&self, model: &str) -> (r: bool)
        ensures
            r == self@.contains_key(model@),
    {
        self.models.contains_key(model)
    }

    /// The model under a name, if it is held.
    pub fn peek(&self, model: &str) -> (r: Option<&(Model, Trait)>)
        requires
            self.wf(),
        ensures
            match r {
                Some(p) => held(self@, model@) == Some((p.0@, p.1@)) && p.1.wf(),
                None => held(self@, model@) is None,
            },
    {
        match self.models.get(model) {
            Some(o) => match o {
                Some(p) => Some(p),
                None => None,
            },
            None => None,
        }
    }

    /// The model under a name. It is read from `from` the first time; what came
    /// of that, even if nothing did, is kept.
    pub fn get(&mut self, model: &str, from: &Sources) -> (r: Option<&(Model, Trait)>)
        requires
            old(self).wf(),
        ensures
            final(self).wf(),
            final(self)@ == (if old(self)@.contains_key(model@) {
                old(self)@
            } else {
                old(self)@.insert(model@, from.loaded())
            }),
            match r {
                Some(p) => held(final(self)@, model@) == Some((p.0@, p.1@)),
                None => held(final(self)@, model@) is None,
            },
    {
        if !self.models.contains_key(model) {
            let ghost was = self@;
                let loaded = from.load();
            let ghost pair = seen_pair(loaded);
            self.models.insert(model.to_owned(), loaded);
            assert(self@ =~= was.insert(model@, pair));
        }
        self.peek(model)
    }
}

/// Asking for a model again gives what the first time gave, whatever there is
/// to read it from by then.
pub proof fn a_model_is_read_once(
    l: Map<Seq<char>, Option<(ModelView, TraitView)>>,
    model: Seq<char>,
    first: Sources,
    later: Sources,
)
    requires
        !l.contains_key(model),
    ensures
        ({
            let once = l.insert(model, first.loaded());
            let twice = if once.contains_key(model) {
                once
            } else {
                once.insert(model, later.loaded())
            };
            held(twice, model) == first.loaded()
        }),
{
}

/// The names that lead to a model's files, from the project's folder.
pub fn model_path(model: &str) -> (r: Vec<String>)
    ensures
        texts(r@) == crate::text::pieces(crate::text::unrooted(model@), '/'),
{
    let c = chars_of(model);
    let v = crate::text::split(crate::text::unroot(c.as_slice()), '/');
    crate::text::strings_of(&v)
}

// --------------------------------------------------------------- passes ---

pub struct Instance {
    /// object name prefix in the output
    pub name: String,
    /// path under the project, without extension
    pub model: String,
    /// variants to show; empty means pick one
    pub variants: Vec<String>,
}

#[verifier::ext_equal]
pub struct InstanceView {
    pub name: Seq<char>,
    pub model: Seq<char>,
    pub variants: Seq<Seq<char>>,
}

impl View for Instance {
    type V = InstanceView;

    open spec fn view(&self) -> InstanceView {
        InstanceView { name: self.name@, model: self.model@, variants: texts(self.variants@) }
    }
}

pub open spec fn instance_views(v: Seq<Instance>) -> Seq<InstanceView> {
    Seq::new(v.len(), |i: int| v[i]@)
}

/// The parts that the variants `names` make visible, if any of them is there.
pub open spec fn visible_in(t: TraitView, names: Seq<Seq<char>>) -> Option<Seq<Seq<char>>>
    decreases names.len(),
{
    if names.len() == 0 {
        None
    } else {
        let rest = visible_in(t, names.drop_last());
        match variant_named(t.variants, names.last()) {
            None => rest,
            Some(p) => Some(
                adding_all(
                    match rest {
                        Some(s) => s,
                        None => Seq::empty(),
                    },
                    p,
                ),
            ),
        }
    }
}

/// The variant whose name comes first in the dictionary.
pub open spec fn first_variant(v: Seq<(Seq<char>, Seq<Seq<char>>)>) -> int
    decreases v.len(),
{
    if v.len() <= 1 {
        0
    } else {
        let b = first_variant(v.drop_last());
        if precedes(v.last().0, v[b].0) {
            v.len() - 1
        } else {
            b
        }
    }
}

/// The parts an instance wears. A model that offers variants must show exactly
/// one choice of them: showing all stacks every alternative in place at once.
pub open spec fn worn(t: TraitView, names: Seq<Seq<char>>) -> Option<Seq<Seq<char>>> {
    match visible_in(t, names) {
        Some(s) => Some(s),
        None => if t.variants.len() > 0 {
            Some(t.variants[first_variant(t.variants)].1)
        } else {
            None
        },
    }
}

/// A list of texts as `Debug` writes it.
pub open spec fn debug_list(v: Seq<Seq<char>>) -> Seq<char> {
    "["@ + joined(Seq::new(v.len(), |i: int| debug_text(v[i])), ", "@) + "]"@
}

/// What is said where none of the variants asked for is in the model.
pub open spec fn variant_warning(inst: InstanceView, t: TraitView) -> Seq<Seq<char>> {
    if visible_in(t, inst.variants) is None && t.variants.len() > 0 && inst.variants.len() > 0 {
        seq![
            inst.name + ": variant "@ + debug_list(inst.variants) + " not in this model, using "@
                + debug_text(t.variants[first_variant(t.variants)].0) + " of "@ + decimal(
                t.variants.len(),
            ),
        ]
    } else {
        Seq::empty()
    }
}

/// Whether two lists have the same members.
pub open spec fn same_members(a: Seq<Seq<char>>, b: Seq<Seq<char>>) -> bool {
    forall|x: Seq<char>| a.contains(x) <==> b.contains(x)
}

/// One way through the pieces of a model: what is put behind its name, the parts
/// that are shown (all where there is no list), and the place in the row of spare
/// variants.
pub struct PassView {
    pub suffix: Seq<char>,
    pub visible: Option<Seq<Seq<char>>>,
    pub slot: Option<nat>,
}

/// Where the spare variants of a model stand, and the row so far.
pub struct RowView {
    pub passes: Seq<PassView>,
    pub slots: Seq<Seq<char>>,
}

/// One pass for each of the variants `vs` that the vehicle does not wear, each
/// parked further along the row.
pub open spec fn spares(
    vs: Seq<(Seq<char>, Seq<Seq<char>>)>,
    shown: Option<Seq<Seq<char>>>,
    model: Seq<char>,
    slots: Seq<Seq<char>>,
) -> RowView
    decreases vs.len(),
{
    if vs.len() == 0 {
        RowView { passes: Seq::empty(), slots }
    } else {
        let r = spares(vs.drop_last(), shown, model, slots);
        let v = vs.last();
        let key = model + "|"@ + v.0;
        if shown is Some && same_members(shown->0, v.1) {
            r
        } else {
            let row = adding(r.slots, key);
            RowView {
                passes: r.passes.push(
                    PassView {
                        suffix: "_alt_"@ + v.0,
                        visible: Some(v.1),
                        slot: Some(row.index_of(key) as nat),
                    },
                ),
                slots: row,
            }
        }
    }
}

/// The passes of an instance: in place for what it wears, then one for each
/// spare variant where those are wanted.
pub open spec fn passes_of(
    inst: InstanceView,
    t: TraitView,
    spare: bool,
    slots: Seq<Seq<char>>,
) -> RowView {
    let shown = worn(t, inst.variants);
    let first = PassView { suffix: Seq::empty(), visible: shown, slot: None };
    if spare {
        let r = spares(t.variants, shown, inst.model, slots);
        RowView { passes: seq![first] + r.passes, slots: r.slots }
    } else {
        RowView { passes: seq![first], slots }
    }
}

/// The part that a piece belongs to.
pub open spec fn part_of(m: ModelView, i: int) -> Seq<char> {
    if owners(m.parts).contains_key(i as usize) {
        owners(m.parts)[i as usize]
    } else {
        "defaultpart"@
    }
}

/// Whether a pass shows piece `i`.
pub open spec fn shows(m: ModelView, visible: Option<Seq<Seq<char>>>, i: int) -> bool {
    &&& m.pieces[i].positions.len() > 0
    &&& m.pieces[i].tris.len() > 0
    &&& visible is None || part_of(m, i) == "defaultpart"@ || (visible->0).contains(part_of(m, i))
}

/// The alias of a piece's material.
pub open spec fn alias_of(m: ModelView, i: int) -> Seq<char> {
    let k = m.pieces[i].material;
    if k < m.materials.len() {
        m.materials[k as int]
    } else {
        Seq::empty()
    }
}

/// What is said of a material; nothing where it is not in the table.
pub open spec fn said_of(t: TraitView, alias: Seq<char>) -> pit::MaterialView {
    if t.materials.contains_key(alias) {
        t.materials[alias]
    } else {
        pit::MaterialView {
            alias: Seq::empty(),
            effect: Seq::empty(),
            textures: Seq::empty(),
            diffuse: (0, 0, 0),
        }
    }
}

/// Whether a piece is there for its shadow alone.
pub open spec fn shadow_piece(m: ModelView, t: TraitView, i: int) -> bool {
    casts_only(said_of(t, alias_of(m, i)).effect)
}

/// The pieces among the first `n` that a pass puts into the scene.
pub open spec fn pieces_shown(
    m: ModelView,
    t: TraitView,
    visible: Option<Seq<Seq<char>>>,
    n: nat,
) -> Seq<usize>
    decreases n,
{
    if n == 0 {
        Seq::empty()
    } else {
        let rest = pieces_shown(m, t, visible, (n - 1) as nat);
        if shows(m, visible, n - 1) && !shadow_piece(m, t, n - 1) {
            rest.push((n - 1) as usize)
        } else {
            rest
        }
    }
}

/// How many of the first `n` pieces a pass drops for being shadow proxies.
pub open spec fn shadows_dropped(
    m: ModelView,
    t: TraitView,
    visible: Option<Seq<Seq<char>>>,
    n: nat,
) -> nat
    decreases n,
{
    if n == 0 {
        0
    } else {
        shadows_dropped(m, t, visible, (n - 1) as nat) + (if shows(m, visible, n - 1)
            && shadow_piece(m, t, n - 1) {
            1nat
        } else {
            0
        })
    }
}

pub struct Pass {
    pub suffix: String,
    pub visible: Option<Names>,
    pub slot: Option<usize>,
    /// the pieces that this pass puts into the scene
    pub pieces: Vec<usize>,
}

/// A pass with the pieces it shows.
pub struct ShownView {
    pub pass: PassView,
    pub pieces: Seq<usize>,
}

pub open spec fn opt_names(o: Option<Names>) -> Option<Seq<Seq<char>>> {
    match o {
        Some(n) => Some(n@),
        None => None,
    }
}

pub open spec fn opt_nat(o: Option<usize>) -> Option<nat> {
    match o {
        Some(n) => Some(n as nat),
        None => None,
    }
}

impl View for Pass {
    type V = ShownView;

    open spec fn view(&self) -> ShownView {
        ShownView {
            pass: PassView {
                suffix: self.suffix@,
                visible: opt_names(self.visible),
                slot: opt_nat(self.slot),
            },
            pieces: self.pieces@,
        }
    }
}

pub open spec fn pass_views(v: Seq<Pass>) -> Seq<ShownView> {
    Seq::new(v.len(), |i: int| v[i]@)
}

/// The numbers of `a` that are not in `b`.
pub open spec fn those_not_in(a: Seq<usize>, b: Seq<usize>) -> Seq<usize>
    decreases a.len(),
{
    if a.len() == 0 {
        Seq::empty()
    } else {
        let rest = those_not_in(a.drop_last(), b);
        if b.contains(a.last()) {
            rest
        } else {
            rest.push(a.last())
        }
    }
}

/// The pieces that the pass `p` puts into the scene, where the vehicle wears the
/// parts `shown`. A parked variant carries only what differs from that.
pub open spec fn pieces_in(
    m: ModelView,
    t: TraitView,
    p: PassView,
    shown: Option<Seq<Seq<char>>>,
) -> Seq<usize> {
    let all = pieces_shown(m, t, p.visible, m.pieces.len());
    if p.slot is Some {
        those_not_in(all, pieces_shown(m, t, shown, m.pieces.len()))
    } else {
        all
    }
}

/// The passes `ps` over a model, each with its pieces. The first is the one in
/// place.
pub open spec fn shown_by(m: ModelView, t: TraitView, ps: Seq<PassView>) -> Seq<ShownView> {
    Seq::new(
        ps.len(),
        |i: int| ShownView { pass: ps[i], pieces: pieces_in(m, t, ps[i], ps[0].visible) },
    )
}

/// A count that stops at the largest number.
pub open spec fn capped(n: int) -> usize {
    if n > usize::MAX {
        usize::MAX
    } else {
        n as usize
    }
}

pub fn add_capped(a: usize, b: usize) -> (r: usize)
    ensures
        r == capped(a + b),
{
    if b > usize::MAX - a {
        usize::MAX
    } else {
        a + b
    }
}

/// The plan of a scene: for each instance the passes over its model, or none
/// where the model is missing; the row of spare variants; what was said; and how
/// many shadow proxies were dropped.
#[verifier::ext_equal]
pub struct PlanView {
    pub passes: Seq<Option<Seq<ShownView>>>,
    pub slots: Seq<Seq<char>>,
    pub warnings: Seq<Seq<char>>,
    pub missing: Seq<Seq<char>>,
    pub shadows: usize,
}

/// The shadow proxies that all the passes drop, on top of `n`.
pub open spec fn shadows_of(m: ModelView, t: TraitView, ps: Seq<PassView>, n: usize) -> usize
    decreases ps.len(),
{
    if ps.len() == 0 {
        n
    } else {
        capped(
            shadows_of(m, t, ps.drop_last(), n) + shadows_dropped(
                m,
                t,
                ps.last().visible,
                m.pieces.len(),
            ),
        )
    }
}

pub open spec fn plan_with(
    l: Map<Seq<char>, Option<(ModelView, TraitView)>>,
    p: PlanView,
    inst: InstanceView,
    spare: bool,
) -> PlanView {
    match held(l, inst.model) {
        None => PlanView {
            passes: p.passes.push(None),
            missing: p.missing.push(inst.model),
            ..p
        },
        Some(x) => {
            let row = passes_of(inst, x.1, spare, p.slots);
            PlanView {
                passes: p.passes.push(Some(shown_by(x.0, x.1, row.passes))),
                slots: row.slots,
                warnings: p.warnings + variant_warning(inst, x.1),
                shadows: shadows_of(x.0, x.1, row.passes, p.shadows),
                ..p
            }
        },
    }
}

pub open spec fn plan_of(
    l: Map<Seq<char>, Option<(ModelView, TraitView)>>,
    insts: Seq<InstanceView>,
    spare: bool,
) -> PlanView
    decreases insts.len(),
{
    if insts.len() == 0 {
        PlanView {
            passes: Seq::empty(),
            slots: Seq::empty(),
            warnings: Seq::empty(),
            missing: Seq::empty(),
            shadows: 0,
        }
    } else {
        plan_with(l, plan_of(l, insts.drop_last(), spare), insts.last(), spare)
    }
}

pub struct Plan {
    pub passes: Vec<Option<Vec<Pass>>>,
    pub slots: Names,
    pub warnings: Vec<String>,
    pub missing: Vec<String>,
    pub shadows: usize,
}

pub open spec fn opt_passes(v: Seq<Option<Vec<Pass>>>) -> Seq<Option<Seq<ShownView>>> {
    Seq::new(
        v.len(),
        |i: int|
            match v[i] {
                Some(p) => Some(pass_views(p@)),
                None => None,
            },
    )
}

impl View for Plan {
    type V = PlanView;

    open spec fn view(&self) -> PlanView {
        PlanView {
            passes: opt_passes(self.passes@),
            slots: self.slots@,
            warnings: texts(self.warnings@),
            missing: texts(self.missing@),
            shadows: self.shadows,
        }
    }
}

// ------------------------------------------------------------- planning ---

fn find_visible(t: &Trait, names: &Vec<String>) -> (r: Option<Names>)
    requires
        t.wf(),
    ensures
        opt_names(r) == visible_in(t@, texts(names@)),
        r matches Some(n) ==> n.wf(),
{
    let ghost all = texts(names@);
    let mut r: Option<Names> = None;
    let mut i: usize = 0;
    assert(all.take(0) =~= Seq::<Seq<char>>::empty());
    while i < names.len()
        invariant
            i <= names@.len(),
            all == texts(names@),
            t.wf(),
            opt_names(r) == visible_in(t@, all.take(i as int)),
            r matches Some(n) ==> n.wf(),
        decreases names@.len() - i,
    {
        assert(all.take(i + 1).drop_last() =~= all.take(i as int));
        match t.variant(names[i].as_str()) {
            None => {},
            Some(p) => {
                let mut s = match r {
                    Some(s) => s,
                    None => Names::new(),
                };
                s.add_all(&p.list);
                r = Some(s);
            },
        }
        i = i + 1;
    }
    assert(all.take(i as int) =~= all);
    r
}

fn find_first_variant(t: &Trait) -> (r: usize)
    requires
        t.variants@.len() > 0,
    ensures
        r == first_variant(t@.variants),
        r < t.variants@.len(),
{
    let ghost all = t@.variants;
    let mut best: usize = 0;
    let mut i: usize = 1;
    while i < t.variants.len()
        invariant
            1 <= i <= t.variants@.len(),
            all == t@.variants,
            best < i,
            best == first_variant(all.take(i as int)),
        decreases t.variants@.len() - i,
    {
        assert(all.take(i + 1).drop_last() =~= all.take(i as int));
        assert(all.take(i + 1)[best as int] == all[best as int]);
        if str_before(t.variants[i].0.as_str(), t.variants[best].0.as_str()) {
            best = i;
        }
        i = i + 1;
    }
    assert(all.take(i as int) =~= all);
    best
}

fn copy_names(n: &Names) -> (r: Names)
    requires
        n.wf(),
    ensures
        r.wf(),
        r@ == n@,
{
    let mut r = Names::new();
    r.add_all(&n.list);
    proof {
        lemma_adding_distinct(n@);
    }
    r
}

proof fn lemma_adding_distinct(s: Seq<Seq<char>>)
    requires
        s.no_duplicates(),
    ensures
        adding_all(Seq::empty(), s) == s,
    decreases s.len(),
{
    if s.len() > 0 {
        let f = s.drop_last();
        assert forall|i: int, j: int| 0 <= i < f.len() && 0 <= j < f.len() && i != j implies f[i]
            != f[j] by {
            assert(s[i] != s[j]);
        }
        lemma_adding_distinct(f);
        if f.contains(s.last()) {
            let i = f.index_of(s.last());
            assert(s[i] == s[s.len() - 1]);
        }
        assert(f.push(s.last()) =~= s);
    }
}

fn is_same(a: &Names, b: &Names) -> (r: bool)
    requires
        a.wf(),
        b.wf(),
    ensures
        r == same_members(a@, b@),
{
    all_in(a, b) && all_in(b, a)
}

fn all_in(a: &Names, b: &Names) -> (r: bool)
    requires
        b.wf(),
    ensures
        r == (forall|x: Seq<char>| a@.contains(x) ==> b@.contains(x)),
{
    let mut i: usize = 0;
    while i < a.list.len()
        invariant
            i <= a.list@.len(),
            b.wf(),
            forall|j: int| 0 <= j < i ==> b@.contains(#[trigger] a@[j]),
        decreases a.list@.len() - i,
    {
        if !b.has(a.list[i].as_str()) {
            assert(a@[i as int] == a.list@[i as int]@);
            assert(a@.contains(a@[i as int]));
            return false;
        }
        i = i + 1;
    }
    assert forall|x: Seq<char>| a@.contains(x) implies b@.contains(x) by {
        let j = a@.index_of(x);
        assert(a@[j] == x);
    }
    true
}

pub(crate) fn debug_texts(v: &Vec<String>) -> (r: String)
    ensures
        r@ == debug_list(texts(v@)),
{
    let mut d: Vec<String> = Vec::new();
    let mut i: usize = 0;
    let ghost want = Seq::new(v@.len(), |i: int| debug_text(v@[i]@));
    while i < v.len()
        invariant
            i <= v@.len(),
            want == Seq::new(v@.len(), |i: int| debug_text(v@[i]@)),
            texts(d@) =~= want.take(i as int),
        decreases v@.len() - i,
    {
        let ghost before = texts(d@);
        d.push(quoted_debug(v[i].as_str()));
        assert(texts(d@) =~= before.push(want[i as int]));
        i = i + 1;
    }
    assert(texts(d@) =~= Seq::new(texts(v@).len(), |i: int| debug_text(texts(v@)[i])));
    cat3("[", crate::text::join(&d, ", ").as_str(), "]")
}

fn find_worn(inst: &Instance, t: &Trait, warnings: &mut Vec<String>) -> (r: Option<Names>)
    requires
        t.wf(),
    ensures
        opt_names(r) == worn(t@, inst@.variants),
        r matches Some(n) ==> n.wf(),
        texts(final(warnings)@) == texts(old(warnings)@) + variant_warning(inst@, t@),
{
    let ghost said = texts(warnings@);
    match find_visible(t, &inst.variants) {
        Some(s) => {
            assert(texts(warnings@) =~= said + Seq::<Seq<char>>::empty());
            Some(s)
        },
        None => {
            if t.variants.len() == 0 {
                assert(texts(warnings@) =~= said + Seq::<Seq<char>>::empty());
                return None;
            }
            let k: usize = find_first_variant(t);
            if inst.variants.len() > 0 {
                let a = cat3(
                    inst.name.as_str(),
                    ": variant ",
                    debug_texts(&inst.variants).as_str(),
                );
                let b = cat3(
                    a.as_str(),
                    " not in this model, using ",
                    quoted_debug(t.variants[k].0.as_str()).as_str(),
                );
                let w = cat3(b.as_str(), " of ", write_usize(t.variants.len()).as_str());
                assert(t@.variants[k as int].0 == t.variants@[k as int].0@);
                warnings.push(w);
                assert(texts(warnings@) =~= said + variant_warning(inst@, t@));
            } else {
                assert(texts(warnings@) =~= said + Seq::<Seq<char>>::empty());
            }
            assert(t.variants@[k as int].1.wf());
            Some(copy_names(&t.variants[k].1))
        },
    }
}

fn material_at(m: &Model, i: usize) -> (r: &str)
    requires
        i < m.pieces@.len(),
    ensures
        r@ == alias_of(m@, i as int),
{
    assert(m@.pieces[i as int] == m.pieces@[i as int]@);
    let k: usize = m.pieces[i].material;
    if k < m.materials.len() {
        m.materials[k].as_str()
    } else {
        crate::tree::root()
    }
}

fn is_shadow(m: &Model, t: &Trait, i: usize) -> (r: bool)
    requires
        i < m.pieces@.len(),
    ensures
        r == shadow_piece(m@, t@, i as int),
{
    match t.materials.get(material_at(m, i)) {
        Some(x) => {
            assert(t@.materials.contains_key(alias_of(m@, i as int)));
            x.is_shadow_only()
        },
        None => {
            let none = pit::Material {
                alias: String::new(),
                effect: String::new(),
                textures: Vec::new(),
                diffuse: (0, 0, 0),
            };
            assert(none.effect@ =~= Seq::<char>::empty());
            none.is_shadow_only()
        },
    }
}

fn show(
    m: &Model,
    t: &Trait,
    parts: &std::collections::HashMap<usize, String>,
    visible: &Option<Names>,
    shadows: usize,
) -> (r: (Vec<usize>, usize))
    requires
        pim::named(parts@) == owners(m@.parts),
        visible matches Some(n) ==> n.wf(),
    ensures
        r.0@ == pieces_shown(m@, t@, opt_names(*visible), m@.pieces.len()),
        r.1 == capped(
            shadows + shadows_dropped(m@, t@, opt_names(*visible), m@.pieces.len()),
        ),
{
    broadcast use vstd::std_specs::hash::group_hash_axioms;

    let ghost vis = opt_names(*visible);
    let mut out: Vec<usize> = Vec::new();
    let mut dropped: usize = 0;
    let mut i: usize = 0;
    while i < m.pieces.len()
        invariant
            i <= m.pieces@.len(),
            pim::named(parts@) == owners(m@.parts),
            visible matches Some(n) ==> n.wf(),
            vis == opt_names(*visible),
            out@ == pieces_shown(m@, t@, vis, i as nat),
            dropped == shadows_dropped(m@, t@, vis, i as nat),
            dropped <= i,
        decreases m.pieces@.len() - i,
    {
        broadcast use vstd::std_specs::hash::group_hash_axioms;

        assert(m@.pieces[i as int] == m.pieces@[i as int]@);
        let shown = if m.pieces[i].positions.len() == 0 || m.pieces[i].tris.len() == 0 {
            false
        } else {
            match visible {
                None => true,
                Some(n) => {
                    let got = parts.get(&i);
                    proof {
                        assert(owners(m@.parts).contains_key(i) == parts@.contains_key(i));
                    }
                    match got {
                        None => true,
                        Some(p) => {
                            assert(owners(m@.parts)[i] == p@);
                            same_str(p.as_str(), "defaultpart") || n.has(p.as_str())
                        },
                    }
                },
            }
        };
        assert(shown == shows(m@, vis, i as int));
        if shown {
            if is_shadow(m, t, i) {
                dropped = dropped + 1;
            } else {
                out.push(i);
            }
        }
        i = i + 1;
    }
    (out, add_capped(shadows, dropped))
}

fn leave_out(a: &Vec<usize>, b: &Vec<usize>) -> (r: Vec<usize>)
    ensures
        r@ == those_not_in(a@, b@),
{
    let mut r: Vec<usize> = Vec::new();
    let mut i: usize = 0;
    assert(a@.take(0) =~= Seq::<usize>::empty());
    while i < a.len()
        invariant
            i <= a@.len(),
            r@ == those_not_in(a@.take(i as int), b@),
        decreases a@.len() - i,
    {
        assert(a@.take(i + 1).drop_last() =~= a@.take(i as int));
        let x: usize = a[i];
        let mut j: usize = 0;
        while j < b.len() && b[j] != x
            invariant
                j <= b@.len(),
                forall|k: int| 0 <= k < j ==> b@[k] != x,
            decreases b@.len() - j,
        {
            j = j + 1;
        }
        assert((j < b@.len()) == b@.contains(x)) by {
            if j < b@.len() {
                assert(b@[j as int] == x);
            }
        }
        if j == b.len() {
            r.push(x);
        }
        i = i + 1;
    }
    assert(a@.take(i as int) =~= a@);
    r
}

fn plan_passes(
    inst: &Instance,
    m: &Model,
    t: &Trait,
    spare: bool,
    slots: &mut Names,
    shadows: usize,
    warnings: &mut Vec<String>,
) -> (r: (Vec<Pass>, usize))
    requires
        t.wf(),
        old(slots).wf(),
    ensures
        final(slots).wf(),
        final(slots)@ == passes_of(inst@, t@, spare, old(slots)@).slots,
        pass_views(r.0@) == shown_by(m@, t@, passes_of(inst@, t@, spare, old(slots)@).passes),
        r.1 == shadows_of(m@, t@, passes_of(inst@, t@, spare, old(slots)@).passes, shadows),
        texts(final(warnings)@) == texts(old(warnings)@) + variant_warning(inst@, t@),
{
    let ghost row0 = slots@;
    let parts = m.part_of_piece();
    let shown = find_worn(inst, t, warnings);
    let ghost w = opt_names(shown);
    let ghost head = PassView { suffix: Seq::empty(), visible: w, slot: None };
    let mut out: Vec<Pass> = Vec::new();
    let (pieces, n) = show(m, t, &parts, &shown, shadows);
    let in_place = pieces.clone();
    assert(in_place@ =~= pieces@);
    let first = match &shown {
        Some(s) => Some(copy_names(s)),
        None => None,
    };
    let pass = Pass { suffix: String::new(), visible: first, slot: None, pieces };
    assert(pass@.pass.suffix =~= Seq::<char>::empty());
    out.push(pass);
    let mut total: usize = n;
    let ghost ps0 = seq![head];
    assert(ps0.drop_last() =~= Seq::<PassView>::empty());
    assert(shadows_of(m@, t@, Seq::<PassView>::empty(), shadows) == shadows);
    assert(pass_views(out@) =~= shown_by(m@, t@, ps0));
    if spare {
        let ghost all = t@.variants;
        let mut i: usize = 0;
        assert(all.take(0) =~= Seq::<(Seq<char>, Seq<Seq<char>>)>::empty());
        assert(ps0 + Seq::<PassView>::empty() =~= ps0);
        while i < t.variants.len()
            invariant
                i <= t.variants@.len(),
                all == t@.variants,
                t.wf(),
                slots.wf(),
                w == opt_names(shown),
                shown matches Some(s) ==> s.wf(),
                pim::named(parts@) == owners(m@.parts),
                ps0 == seq![head],
                head.visible == w,
                in_place@ == pieces_shown(m@, t@, w, m@.pieces.len()),
                slots@ == spares(all.take(i as int), w, inst@.model, row0).slots,
                pass_views(out@) == shown_by(
                    m@,
                    t@,
                    ps0 + spares(all.take(i as int), w, inst@.model, row0).passes,
                ),
                total == shadows_of(
                    m@,
                    t@,
                    ps0 + spares(all.take(i as int), w, inst@.model, row0).passes,
                    shadows,
                ),
            decreases t.variants@.len() - i,
        {
            assert(all.take(i + 1).drop_last() =~= all.take(i as int));
            assert(all[i as int] == (t.variants@[i as int].0@, t.variants@[i as int].1@));
            let ghost sofar = spares(all.take(i as int), w, inst@.model, row0);
            assert(t.variants@[i as int].1.wf());
            let worn_already = match &shown {
                Some(s) => is_same(s, &t.variants[i].1),
                None => false,
            };
            if !worn_already {
                let name = t.variants[i].0.as_str();
                let key = cat3(inst.model.as_str(), "|", name);
                let ghost row = slots@;
                slots.add(key.as_str());
                proof {
                    lemma_pushed(row, key@);
                }
                let k: usize = place_in(slots, key.as_str());
                let visible = Some(copy_names(&t.variants[i].1));
                let (all_pieces, n) = show(m, t, &parts, &visible, total);
                let pieces = leave_out(&all_pieces, &in_place);
                let pass = Pass { suffix: cat("_alt_", name), visible, slot: Some(k), pieces };
                let ghost before = out@;
                out.push(pass);
                total = n;
                proof {
                    let was = ps0 + sofar.passes;
                    let now = ps0 + sofar.passes.push(pass@.pass);
                    assert(now =~= was.push(pass@.pass));
                    assert(now.drop_last() =~= was);
                    assert(pass_views(out@) =~= pass_views(before).push(pass@));
                    assert(shown_by(m@, t@, now) =~= shown_by(m@, t@, was).push(pass@));
                }
            }
            i = i + 1;
        }
        assert(all.take(i as int) =~= all);
    }
    (out, total)
}

/// Where a name stands among names.
fn place_in(n: &Names, x: &str) -> (r: usize)
    requires
        n.wf(),
        n@.contains(x@),
    ensures
        r == n@.index_of(x@),
        r < n@.len(),
{
    match crate::text::index_of(&n.list, x) {
        Some(i) => {
            proof {
                let j = n@.index_of(x@);
                assert(n@[i as int] == x@);
                assert(n@[j] == x@);
            }
            i
        },
        None => {
            assert(false);
            0
        },
    }
}

/// Plans a scene: which pieces of which models stand in it, in what order.
pub fn plan(loader: &Loader, instances: &Vec<Instance>, spare: bool) -> (r: Plan)
    requires
        loader.wf(),
    ensures
        r@ == plan_of(loader@, instance_views(instances@), spare),
{
    let ghost all = instance_views(instances@);
    let mut passes: Vec<Option<Vec<Pass>>> = Vec::new();
    let mut slots = Names::new();
    let mut warnings: Vec<String> = Vec::new();
    let mut missing: Vec<String> = Vec::new();
    let mut shadows: usize = 0;
    let mut i: usize = 0;
    assert(all.take(0) =~= Seq::<InstanceView>::empty());
    assert(opt_passes(passes@) =~= Seq::<Option<Seq<ShownView>>>::empty());
    assert(texts(warnings@) =~= Seq::<Seq<char>>::empty());
    while i < instances.len()
        invariant
            i <= instances@.len(),
            all == instance_views(instances@),
            loader.wf(),
            slots.wf(),
            slots@ == plan_of(loader@, all.take(i as int), spare).slots,
            opt_passes(passes@) == plan_of(loader@, all.take(i as int), spare).passes,
            texts(warnings@) == plan_of(loader@, all.take(i as int), spare).warnings,
            texts(missing@) == plan_of(loader@, all.take(i as int), spare).missing,
            shadows == plan_of(loader@, all.take(i as int), spare).shadows,
        decreases instances@.len() - i,
    {
        assert(all.take(i + 1).drop_last() =~= all.take(i as int));
        let inst = &instances[i];
        assert(all[i as int] == inst@);
        let ghost before = opt_passes(passes@);
        let ghost lost = texts(missing@);
        match loader.peek(inst.model.as_str()) {
            None => {
                passes.push(None);
                missing.push(inst.model.as_str().to_owned());
                assert(opt_passes(passes@) =~= before.push(None));
                assert(texts(missing@) =~= lost.push(inst.model@));
            },
            Some(x) => {
                let (p, n) = plan_passes(
                    inst,
                    &x.0,
                    &x.1,
                    spare,
                    &mut slots,
                    shadows,
                    &mut warnings,
                );
                let ghost now = pass_views(p@);
                shadows = n;
                passes.push(Some(p));
                assert(opt_passes(passes@) =~= before.push(Some(now)));
            },
        }
        i = i + 1;
    }
    assert(all.take(i as int) =~= all);
    Plan { passes, slots, warnings, missing, shadows }
}

// ------------------------------------------------------------- building ---

/// A piece that stands in the scene.
#[verifier::ext_equal]
pub struct PlacedView {
    pub name: Seq<char>,
    /// which of the instances it belongs to
    pub instance: nat,
    /// which piece of that instance's model it is
    pub piece: usize,
    /// its turn among all the pieces that the plan shows
    pub turn: usize,
    /// whether it carries the paint channel
    pub painted: bool,
    pub material: nat,
}

/// A surface: the bits of its colour, its texture and how that is read.
#[verifier::ext_equal]
pub struct SurfaceView {
    pub name: Seq<char>,
    pub diffuse: (u32, u32, u32),
    pub texture: Option<Seq<char>>,
    pub wants_alpha: bool,
    pub uv_set: Seq<char>,
}

#[verifier::ext_equal]
pub struct StatsView {
    pub instances: usize,
    pub meshes: nat,
    pub tris: usize,
    pub duplicates_dropped: usize,
    pub duplicate_tris: usize,
    pub shadow_dropped: usize,
    pub spare_meshes: usize,
    pub spare_slots: nat,
    pub missing_models: Seq<Seq<char>>,
}

/// A scene in the making. `turn` counts the pieces seen so far.
#[verifier::ext_equal]
pub struct BuiltView {
    pub meshes: Seq<PlacedView>,
    pub surfaces: Seq<SurfaceView>,
    pub keys: Seq<Seq<char>>,
    pub seen: Set<u64>,
    pub turn: usize,
    pub instances: usize,
    pub tris: usize,
    pub duplicates_dropped: usize,
    pub duplicate_tris: usize,
    pub spare_meshes: usize,
}

pub open spec fn nothing_built() -> BuiltView {
    BuiltView {
        meshes: Seq::empty(),
        surfaces: Seq::empty(),
        keys: Seq::empty(),
        seen: Set::empty(),
        turn: 0,
        instances: 0,
        tris: 0,
        duplicates_dropped: 0,
        duplicate_tris: 0,
        spare_meshes: 0,
    }
}

/// What is laid over the painted panels: the texture of the livery, if there is
/// one, and the colour that unpainted areas take.
pub struct CoatView {
    pub mask: Option<Seq<char>>,
    pub base: (u32, u32, u32),
}

pub struct Coat {
    pub mask: Option<String>,
    pub base: (u32, u32, u32),
}

impl View for Coat {
    type V = CoatView;

    open spec fn view(&self) -> CoatView {
        CoatView { mask: opt_text(self.mask), base: self.base }
    }
}

pub open spec fn is_painted(mat: pit::MaterialView) -> bool {
    carries(mat.effect, "truckpaint"@)
}

/// Whether the bits are those of zero, of either sign.
pub open spec fn zero_bits(b: u32) -> bool {
    b == 0 || b == 0x8000_0000
}

/// The texture a panel shows: the livery where it is painted and there is one.
pub open spec fn texture_of(mat: pit::MaterialView, coat: CoatView) -> Seq<char> {
    if coat.mask is Some && is_painted(mat) {
        coat.mask->0
    } else if mat.textures.len() > 0 {
        mat.textures[0]
    } else {
        Seq::empty()
    }
}

/// Whether a panel is sampled on the paint channel.
pub open spec fn on_paint_channel(
    mat: pit::MaterialView,
    coat: CoatView,
    piece: pim::PieceView,
) -> bool {
    coat.mask is Some && is_painted(mat) && piece.uv1.len() > 0
}

pub open spec fn channel_name(painted: bool) -> Seq<char> {
    if painted {
        PAINT_UV@
    } else {
        "UVMap"@
    }
}

pub open spec fn surface_of(
    mat: pit::MaterialView,
    alias: Seq<char>,
    coat: CoatView,
    painted: bool,
) -> SurfaceView {
    let tex = texture_of(mat, coat);
    SurfaceView {
        name: if alias.len() == 0 {
            "material"@
        } else {
            alias
        },
        diffuse: if is_painted(mat) {
            coat.base
        } else if zero_bits(mat.diffuse.0) && zero_bits(mat.diffuse.1) && zero_bits(
            mat.diffuse.2,
        ) {
            (ONE, ONE, ONE)
        } else {
            mat.diffuse
        },
        texture: if tex.len() == 0 {
            None
        } else {
            Some(tex)
        },
        wants_alpha: means_opacity(mat.effect),
        uv_set: channel_name(painted),
    }
}

/// Where a piece stands, by its turn; nowhere if that is not given.
pub open spec fn where_at(places: Seq<Seq<Point>>, turn: usize) -> Seq<Point> {
    if turn < places.len() {
        places[turn as int]
    } else {
        Seq::empty()
    }
}

/// What is fixed while a pass of an instance is laid out.
pub struct Pose {
    pub model: ModelView,
    pub looks: TraitView,
    pub instance: nat,
    pub name: Seq<char>,
    pub suffix: Seq<char>,
}

/// Puts piece `i` into the scene, unless the same geometry stands there already.
pub open spec fn with_piece(
    b: BuiltView,
    p: Pose,
    i: usize,
    places: Seq<Seq<Point>>,
    coat: CoatView,
) -> BuiltView {
    let piece = p.model.pieces[i as int];
    let key = key_of(where_at(places, b.turn));
    if b.seen.contains(key) {
        BuiltView {
            turn: capped(b.turn + 1),
            duplicates_dropped: capped(b.duplicates_dropped + 1),
            duplicate_tris: capped(b.duplicate_tris + piece.tris.len()),
            ..b
        }
    } else {
        let alias = alias_of(p.model, i as int);
        let mat = said_of(p.looks, alias);
        let painted = on_paint_channel(mat, coat, piece);
        let mkey = alias + "|"@ + texture_of(mat, coat) + "|"@ + channel_name(painted);
        let keys = adding(b.keys, mkey);
        BuiltView {
            meshes: b.meshes.push(
                PlacedView {
                    name: p.name + p.suffix + "_"@ + decimal(i as nat),
                    instance: p.instance,
                    piece: i,
                    turn: b.turn,
                    painted,
                    material: keys.index_of(mkey) as nat,
                },
            ),
            surfaces: if b.keys.contains(mkey) {
                b.surfaces
            } else {
                b.surfaces.push(surface_of(mat, alias, coat, painted))
            },
            keys,
            seen: b.seen.insert(key),
            turn: capped(b.turn + 1),
            tris: capped(b.tris + piece.tris.len()),
            spare_meshes: if p.suffix.len() == 0 {
                b.spare_meshes
            } else {
                capped(b.spare_meshes + 1)
            },
            ..b
        }
    }
}

pub open spec fn with_pieces(
    b: BuiltView,
    p: Pose,
    pieces: Seq<usize>,
    places: Seq<Seq<Point>>,
    coat: CoatView,
) -> BuiltView
    decreases pieces.len(),
{
    if pieces.len() == 0 {
        b
    } else {
        with_piece(
            with_pieces(b, p, pieces.drop_last(), places, coat),
            p,
            pieces.last(),
            places,
            coat,
        )
    }
}

pub open spec fn with_passes(
    b: BuiltView,
    m: ModelView,
    t: TraitView,
    instance: nat,
    name: Seq<char>,
    passes: Seq<ShownView>,
    places: Seq<Seq<Point>>,
    coat: CoatView,
) -> BuiltView
    decreases passes.len(),
{
    if passes.len() == 0 {
        b
    } else {
        let pose = Pose {
            model: m,
            looks: t,
            instance,
            name,
            suffix: passes.last().pass.suffix,
        };
        with_pieces(
            with_passes(b, m, t, instance, name, passes.drop_last(), places, coat),
            pose,
            passes.last().pieces,
            places,
            coat,
        )
    }
}

/// The scene of the first `n` instances.
pub open spec fn built_of(
    l: Map<Seq<char>, Option<(ModelView, TraitView)>>,
    insts: Seq<InstanceView>,
    passes: Seq<Option<Seq<ShownView>>>,
    n: nat,
    places: Seq<Seq<Point>>,
    coat: CoatView,
) -> BuiltView
    decreases n,
{
    if n == 0 {
        nothing_built()
    } else {
        let b = built_of(l, insts, passes, (n - 1) as nat, places, coat);
        let inst = insts[n - 1];
        match (held(l, inst.model), passes[n - 1]) {
            (Some(x), Some(ps)) => with_passes(
                BuiltView { instances: capped(b.instances + 1), ..b },
                x.0,
                x.1,
                (n - 1) as nat,
                inst.name,
                ps,
                places,
                coat,
            ),
            _ => b,
        }
    }
}

/// A scene: the pieces that stand in it, their surfaces, and what was counted.
#[verifier::ext_equal]
pub struct SceneView {
    pub meshes: Seq<PlacedView>,
    pub surfaces: Seq<SurfaceView>,
    pub stats: StatsView,
}

pub open spec fn scene_of(
    l: Map<Seq<char>, Option<(ModelView, TraitView)>>,
    insts: Seq<InstanceView>,
    spare: bool,
    places: Seq<Seq<Point>>,
    coat: CoatView,
) -> SceneView {
    let p = plan_of(l, insts, spare);
    let b = built_of(l, insts, p.passes, insts.len(), places, coat);
    SceneView {
        meshes: b.meshes,
        surfaces: b.surfaces,
        stats: StatsView {
            instances: b.instances,
            meshes: b.meshes.len(),
            tris: b.tris,
            duplicates_dropped: b.duplicates_dropped,
            duplicate_tris: b.duplicate_tris,
            shadow_dropped: p.shadows,
            spare_meshes: b.spare_meshes,
            spare_slots: p.slots.len(),
            missing_models: p.missing,
        },
    }
}

pub struct Placed {
    pub name: String,
    pub instance: usize,
    pub piece: usize,
    pub turn: usize,
    pub painted: bool,
    pub material: usize,
}

impl View for Placed {
    type V = PlacedView;

    open spec fn view(&self) -> PlacedView {
        PlacedView {
            name: self.name@,
            instance: self.instance as nat,
            piece: self.piece,
            turn: self.turn,
            painted: self.painted,
            material: self.material as nat,
        }
    }
}

pub struct Surface {
    pub name: String,
    pub diffuse: (u32, u32, u32),
    pub texture: Option<String>,
    pub wants_alpha: bool,
    pub uv_set: String,
}

impl View for Surface {
    type V = SurfaceView;

    open spec fn view(&self) -> SurfaceView {
        SurfaceView {
            name: self.name@,
            diffuse: self.diffuse,
            texture: opt_text(self.texture),
            wants_alpha: self.wants_alpha,
            uv_set: self.uv_set@,
        }
    }
}

pub struct Stats {
    pub instances: usize,
    pub meshes: usize,
    pub tris: usize,
    pub duplicates_dropped: usize,
    pub duplicate_tris: usize,
    pub shadow_dropped: usize,
    /// meshes belonging to variants parked beside the vehicle
    pub spare_meshes: usize,
    pub spare_slots: usize,
    pub missing_models: Vec<String>,
}

impl View for Stats {
    type V = StatsView;

    open spec fn view(&self) -> StatsView {
        StatsView {
            instances: self.instances,
            meshes: self.meshes as nat,
            tris: self.tris,
            duplicates_dropped: self.duplicates_dropped,
            duplicate_tris: self.duplicate_tris,
            shadow_dropped: self.shadow_dropped,
            spare_meshes: self.spare_meshes,
            spare_slots: self.spare_slots as nat,
            missing_models: texts(self.missing_models@),
        }
    }
}

pub struct Scene {
    pub meshes: Vec<Placed>,
    pub surfaces: Vec<Surface>,
    pub stats: Stats,
}

pub open spec fn placed_views(v: Seq<Placed>) -> Seq<PlacedView> {
    Seq::new(v.len(), |i: int| v[i]@)
}

pub open spec fn surface_views(v: Seq<Surface>) -> Seq<SurfaceView> {
    Seq::new(v.len(), |i: int| v[i]@)
}

impl View for Scene {
    type V = SceneView;

    open spec fn view(&self) -> SceneView {
        SceneView {
            meshes: placed_views(self.meshes@),
            surfaces: surface_views(self.surfaces@),
            stats: self.stats@,
        }
    }
}

pub open spec fn place_views(v: Seq<Vec<Point>>) -> Seq<Seq<Point>> {
    Seq::new(v.len(), |i: int| v[i]@)
}

struct Builder {
    meshes: Vec<Placed>,
    surfaces: Vec<Surface>,
    keys: Names,
    seen: HashSet<u64>,
    turn: usize,
    instances: usize,
    tris: usize,
    duplicates_dropped: usize,
    duplicate_tris: usize,
    spare_meshes: usize,
}

impl Builder {
    spec fn view(&self) -> BuiltView {
        BuiltView {
            meshes: placed_views(self.meshes@),
            surfaces: surface_views(self.surfaces@),
            keys: self.keys@,
            seen: self.seen@,
            turn: self.turn,
            instances: self.instances,
            tris: self.tris,
            duplicates_dropped: self.duplicates_dropped,
            duplicate_tris: self.duplicate_tris,
            spare_meshes: self.spare_meshes,
        }
    }

    spec fn wf(&self) -> bool {
        self.keys.wf()
    }

    fn new() -> (r: Builder)
        ensures
            r.wf(),
            r.view() == nothing_built(),
    {
        broadcast use vstd::std_specs::hash::group_hash_axioms;

        let r = Builder {
            meshes: Vec::new(),
            surfaces: Vec::new(),
            keys: Names::new(),
            seen: HashSet::new(),
            turn: 0,
            instances: 0,
            tris: 0,
            duplicates_dropped: 0,
            duplicate_tris: 0,
            spare_meshes: 0,
        };
        assert(r.view() =~= nothing_built());
        r
    }

    fn piece(
        &mut self,
        m: &Model,
        t: &Trait,
        instance: usize,
        name: &str,
        suffix: &str,
        i: usize,
        places: &Vec<Vec<Point>>,
        coat: &Coat,
    )
        requires
            old(self).wf(),
            i < m.pieces@.len(),
        ensures
            final(self).wf(),
            final(self).view() == with_piece(
                old(self).view(),
                (Pose {
                    model: m@,
                    looks: t@,
                    instance: instance as nat,
                    name: name@,
                    suffix: suffix@,
                }),
                i,
                place_views(places@),
                coat@,
            ),
    {
        broadcast use vstd::std_specs::hash::group_hash_axioms;

        let ghost was = self.view();
        assert(m@.pieces[i as int] == m.pieces@[i as int]@);
        let turn: usize = self.turn;
        let key: u64 = if turn < places.len() {
            assert(place_views(places@)[turn as int] == places@[turn as int]@);
            geometry_key(&places[turn])
        } else {
            let none: Vec<Point> = Vec::new();
            assert(none@ =~= Seq::<Point>::empty());
            geometry_key(&none)
        };
        assert(key == key_of(where_at(place_views(places@), turn)));
        let n: usize = m.pieces[i].tris.len();
        self.turn = add_capped(turn, 1);
        if self.seen.contains(&key) {
            self.duplicates_dropped = add_capped(self.duplicates_dropped, 1);
            self.duplicate_tris = add_capped(self.duplicate_tris, n);
            return;
        }
        self.seen.insert(key);
        let alias = material_at(m, i);
        let none = pit::Material {
            alias: String::new(),
            effect: String::new(),
            textures: Vec::new(),
            diffuse: (0, 0, 0),
        };
        let mat: &pit::Material = match t.materials.get(alias) {
            Some(x) => x,
            None => &none,
        };
        proof {
            assert(none@ =~= (pit::MaterialView {
                alias: Seq::empty(),
                effect: Seq::empty(),
                textures: Seq::empty(),
                diffuse: (0, 0, 0),
            }));
            assert(mat@ == said_of(t@, alias@));
        }
        let paint = chars_of(mat.effect.as_str());
        let covered = holds(paint.as_slice(), "truckpaint");
        let tex: String = texture_for(mat, coat, covered);
        let painted = coat.mask.is_some() && covered && m.pieces[i].uv1.len() > 0;
        let uv = if painted {
            PAINT_UV
        } else {
            "UVMap"
        };
        let mkey = cat3(cat3(alias, "|", tex.as_str()).as_str(), "|", uv);
        let fresh = self.keys.add(mkey.as_str());
        proof {
            lemma_pushed(was.keys, mkey@);
        }
        let mi: usize = place_in(&self.keys, mkey.as_str());
        if fresh {
            let s = Surface {
                name: if alias.is_empty() {
                    "material".to_owned()
                } else {
                    alias.to_owned()
                },
                diffuse: if covered {
                    coat.base
                } else if is_zero(mat.diffuse.0) && is_zero(mat.diffuse.1) && is_zero(
                    mat.diffuse.2,
                ) {
                    (ONE, ONE, ONE)
                } else {
                    mat.diffuse
                },
                texture: if tex.as_str().is_empty() {
                    None
                } else {
                    Some(tex)
                },
                wants_alpha: mat.wants_alpha(),
                uv_set: uv.to_owned(),
            };
            let ghost sv = s@;
            assert(sv =~= surface_of(mat@, alias@, coat@, painted));
            self.surfaces.push(s);
            assert(surface_views(self.surfaces@) =~= was.surfaces.push(sv));
        }
        self.tris = add_capped(self.tris, n);
        if !suffix.is_empty() {
            self.spare_meshes = add_capped(self.spare_meshes, 1);
        }
        let p = Placed {
            name: cat3(cat(name, suffix).as_str(), "_", write_usize(i).as_str()),
            instance,
            piece: i,
            turn,
            painted,
            material: mi,
        };
        let ghost pv = p@;
        self.meshes.push(p);
        assert(placed_views(self.meshes@) =~= was.meshes.push(pv));
    }
}

fn is_zero(b: u32) -> (r: bool)
    ensures
        r == zero_bits(b),
{
    b == 0 || b == 0x8000_0000
}

fn texture_for(mat: &pit::Material, coat: &Coat, covered: bool) -> (r: String)
    requires
        covered == is_painted(mat@),
    ensures
        r@ == texture_of(mat@, coat@),
{
    if covered {
        match &coat.mask {
            Some(m) => {
                return m.as_str().to_owned();
            },
            None => {},
        }
    }
    if mat.textures.len() > 0 {
        assert(mat@.textures[0] == mat.textures@[0]@);
        mat.textures[0].as_str().to_owned()
    } else {
        let r = String::new();
        assert(r@ =~= Seq::<char>::empty());
        r
    }
}

proof fn lemma_shown_in_range(
    m: ModelView,
    t: TraitView,
    visible: Option<Seq<Seq<char>>>,
    n: nat,
)
    requires
        n <= usize::MAX,
    ensures
        forall|k: int|
            0 <= k < pieces_shown(m, t, visible, n).len() ==> (#[trigger] pieces_shown(
                m,
                t,
                visible,
                n,
            )[k]) < n,
    decreases n,
{
    if n > 0 {
        lemma_shown_in_range(m, t, visible, (n - 1) as nat);
        let f = pieces_shown(m, t, visible, (n - 1) as nat);
        let all = pieces_shown(m, t, visible, n);
        assert forall|k: int| 0 <= k < all.len() implies (#[trigger] all[k]) < n by {
            if k < f.len() {
                assert(all[k] == f[k]);
            }
        }
    }
}

impl Builder {
    fn passes(
        &mut self,
        m: &Model,
        t: &Trait,
        instance: usize,
        name: &str,
        passes: &Vec<Pass>,
        places: &Vec<Vec<Point>>,
        coat: &Coat,
    )
        requires
            old(self).wf(),
            forall|j: int, k: int|
                0 <= j < passes@.len() && 0 <= k < passes@[j].pieces@.len()
                    ==> (#[trigger] passes@[j].pieces@[k]) < m.pieces@.len(),
        ensures
            final(self).wf(),
            final(self).view() == with_passes(
                old(self).view(),
                m@,
                t@,
                instance as nat,
                name@,
                pass_views(passes@),
                place_views(places@),
                coat@,
            ),
    {
        let ghost start = self.view();
        let ghost all = pass_views(passes@);
        let ghost pl = place_views(places@);
        let mut j: usize = 0;
        assert(all.take(0) =~= Seq::<ShownView>::empty());
        while j < passes.len()
            invariant
                j <= passes@.len(),
                self.wf(),
                all == pass_views(passes@),
                pl == place_views(places@),
                forall|j: int, k: int|
                    0 <= j < passes@.len() && 0 <= k < passes@[j].pieces@.len()
                        ==> (#[trigger] passes@[j].pieces@[k]) < m.pieces@.len(),
                self.view() == with_passes(
                    start,
                    m@,
                    t@,
                    instance as nat,
                    name@,
                    all.take(j as int),
                    pl,
                    coat@,
                ),
            decreases passes@.len() - j,
        {
            let pass = &passes[j];
            assert(all.take(j + 1).drop_last() =~= all.take(j as int));
            assert(all.take(j + 1).last() == pass@);
            let ghost here = self.view();
            let ghost pose = Pose {
                model: m@,
                looks: t@,
                instance: instance as nat,
                name: name@,
                suffix: pass.suffix@,
            };
            let ghost pieces = pass.pieces@;
            let mut k: usize = 0;
            assert(pieces.take(0) =~= Seq::<usize>::empty());
            while k < pass.pieces.len()
                invariant
                    k <= pass.pieces@.len(),
                    self.wf(),
                    pieces == pass.pieces@,
                    pl == place_views(places@),
                    forall|k: int|
                        0 <= k < pass.pieces@.len() ==> (#[trigger] pass.pieces@[k])
                            < m.pieces@.len(),
                    pose == (Pose {
                        model: m@,
                        looks: t@,
                        instance: instance as nat,
                        name: name@,
                        suffix: pass.suffix@,
                    }),
                    self.view() == with_pieces(here, pose, pieces.take(k as int), pl, coat@),
                decreases pass.pieces@.len() - k,
            {
                assert(pieces.take(k + 1).drop_last() =~= pieces.take(k as int));
                assert(pass.pieces@[k as int] < m.pieces@.len());
                self.piece(
                    m,
                    t,
                    instance,
                    name,
                    pass.suffix.as_str(),
                    pass.pieces[k],
                    places,
                    coat,
                );
                k = k + 1;
            }
            assert(pieces.take(k as int) =~= pieces);
            j = j + 1;
        }
        assert(all.take(j as int) =~= all);
    }
}

proof fn lemma_plan_len(
    l: Map<Seq<char>, Option<(ModelView, TraitView)>>,
    insts: Seq<InstanceView>,
    spare: bool,
)
    ensures
        plan_of(l, insts, spare).passes.len() == insts.len(),
        forall|i: int|
            0 <= i < insts.len() ==> match (#[trigger] plan_of(l, insts, spare).passes[i]) {
                Some(ps) => held(l, insts[i].model) matches Some(x) && shown_in(ps, x.0, x.1),
                None => held(l, insts[i].model) is None,
            },
    decreases insts.len(),
{
    if insts.len() > 0 {
        let f = insts.drop_last();
        lemma_plan_len(l, f, spare);
        let p = plan_of(l, f, spare);
        let all = plan_of(l, insts, spare).passes;
        assert forall|i: int| 0 <= i < insts.len() implies match (#[trigger] all[i]) {
            Some(ps) => held(l, insts[i].model) matches Some(x) && shown_in(ps, x.0, x.1),
            None => held(l, insts[i].model) is None,
        } by {
            if i < f.len() {
                assert(all[i] == p.passes[i]);
                assert(f[i] == insts[i]);
            } else {
                match held(l, insts[i].model) {
                    Some(x) => {
                        let row = passes_of(insts[i], x.1, spare, p.slots);
                        assert(all[i] == Some(shown_by(x.0, x.1, row.passes)));
                        lemma_shown_in(x.0, x.1, row.passes);
                    },
                    None => {},
                }
            }
        }
    }
}

/// Whether each pass has pieces of a model that it shows.
spec fn shown_in(ps: Seq<ShownView>, m: ModelView, t: TraitView) -> bool {
    forall|j: int|
        0 <= j < ps.len() ==> all_among(
            (#[trigger] ps[j]).pieces,
            pieces_shown(m, t, ps[j].pass.visible, m.pieces.len()),
        )
}

spec fn all_among(a: Seq<usize>, b: Seq<usize>) -> bool {
    forall|k: int| 0 <= k < a.len() ==> b.contains(#[trigger] a[k])
}

proof fn lemma_those_not_in(a: Seq<usize>, b: Seq<usize>)
    ensures
        all_among(those_not_in(a, b), a),
        forall|k: int| 0 <= k < those_not_in(a, b).len() ==> !b.contains(
            #[trigger] those_not_in(a, b)[k],
        ),
        forall|x: usize| a.contains(x) && !b.contains(x) ==> #[trigger] those_not_in(
            a,
            b,
        ).contains(x),
    decreases a.len(),
{
    if a.len() > 0 {
        let f = a.drop_last();
        lemma_those_not_in(f, b);
        let rest = those_not_in(f, b);
        let all = those_not_in(a, b);
        assert forall|k: int| 0 <= k < all.len() implies a.contains(#[trigger] all[k]) && !b.contains(
            all[k],
        ) by {
            if k < rest.len() {
                assert(all[k] == rest[k]);
                assert(f.contains(rest[k]));
                let i = f.index_of(rest[k]);
                assert(a[i] == rest[k]);
            } else {
                assert(a[a.len() - 1] == all[k]);
            }
        }
        assert forall|x: usize| a.contains(x) && !b.contains(x) implies #[trigger] all.contains(
            x,
        ) by {
            let i = a.index_of(x);
            if i < f.len() {
                assert(f[i] == x);
                assert(rest.contains(x));
                assert(all[rest.index_of(x)] == x);
            } else {
                assert(all[all.len() - 1] == x);
            }
        }
    }
}

proof fn lemma_shown_in(m: ModelView, t: TraitView, ps: Seq<PassView>)
    ensures
        shown_in(shown_by(m, t, ps), m, t),
{
    let q = shown_by(m, t, ps);
    assert forall|j: int| 0 <= j < q.len() implies all_among(
        (#[trigger] q[j]).pieces,
        pieces_shown(m, t, q[j].pass.visible, m.pieces.len()),
    ) by {
        let all = pieces_shown(m, t, ps[j].visible, m.pieces.len());
        lemma_those_not_in(all, pieces_shown(m, t, ps[0].visible, m.pieces.len()));
        assert(all_among(all, all));
    }
}

/// Builds a scene out of instances of models. `places` says where each piece that
/// the plan shows stands, in the plan's order.
pub fn build(
    loader: &Loader,
    instances: &Vec<Instance>,
    spare: bool,
    places: &Vec<Vec<Point>>,
    coat: &Coat,
) -> (r: Scene)
    requires
        loader.wf(),
    ensures
        r@ == scene_of(
            loader@,
            instance_views(instances@),
            spare,
            place_views(places@),
            coat@,
        ),
{
    let ghost all = instance_views(instances@);
    let ghost pl = place_views(places@);
    let p = plan(loader, instances, spare);
    let ghost ps = p@.passes;
    proof {
        lemma_plan_len(loader@, all, spare);
    }
    let mut b = Builder::new();
    let mut i: usize = 0;
    while i < instances.len()
        invariant
            i <= instances@.len(),
            all == instance_views(instances@),
            pl == place_views(places@),
            loader.wf(),
            b.wf(),
            ps == opt_passes(p.passes@),
            ps == plan_of(loader@, all, spare).passes,
            ps.len() == all.len(),
            forall|i: int|
                0 <= i < all.len() ==> match (#[trigger] plan_of(loader@, all, spare).passes[i]) {
                    Some(q) => held(loader@, all[i].model) matches Some(x) && shown_in(
                        q,
                        x.0,
                        x.1,
                    ),
                    None => held(loader@, all[i].model) is None,
                },
            b.view() == built_of(loader@, all, ps, i as nat, pl, coat@),
        decreases instances@.len() - i,
    {
        let inst = &instances[i];
        assert(all[i as int] == inst@);
        assert(ps[i as int] == plan_of(loader@, all, spare).passes[i as int]);
        match loader.peek(inst.model.as_str()) {
            None => {},
            Some(x) => match &p.passes[i] {
                None => {},
                Some(q) => {
                    let ghost b0 = b.view();
                    let count: usize = x.0.pieces.len();
                    assert(x.0@.pieces.len() == count);
                    b.instances = add_capped(b.instances, 1);
                    assert(b.view() =~= (BuiltView { instances: capped(b0.instances + 1), ..b0 }));
                    proof {
                        let qv = pass_views(q@);
                        assert(ps[i as int] == Some(qv));
                        assert(shown_in(qv, x.0@, x.1@));
                        assert forall|j: int, k: int|
                            0 <= j < q@.len() && 0 <= k < q@[j].pieces@.len() implies (
                        #[trigger] q@[j].pieces@[k]) < x.0.pieces@.len() by {
                            assert(qv[j] == q@[j]@);
                            lemma_shown_in_range(
                                x.0@,
                                x.1@,
                                qv[j].pass.visible,
                                x.0@.pieces.len(),
                            );
                            let among = pieces_shown(
                                x.0@,
                                x.1@,
                                qv[j].pass.visible,
                                x.0@.pieces.len(),
                            );
                            assert(among.contains(qv[j].pieces[k]));
                        }
                    }
                    b.passes(&x.0, &x.1, i, inst.name.as_str(), q, places, coat);
                },
            },
        }
        i = i + 1;
    }
    let stats = Stats {
        instances: b.instances,
        meshes: b.meshes.len(),
        tris: b.tris,
        duplicates_dropped: b.duplicates_dropped,
        duplicate_tris: b.duplicate_tris,
        shadow_dropped: p.shadows,
        spare_meshes: b.spare_meshes,
        spare_slots: p.slots.list.len(),
        missing_models: p.missing,
    };
    Scene { meshes: b.meshes, surfaces: b.surfaces, stats }
}

// ----------------------------------------------------------------- laws ---

/// What holds of a scene at any time while it is built.
spec fn sound(b: BuiltView, places: Seq<Seq<Point>>) -> bool {
    &&& b.surfaces.len() == b.keys.len()
    &&& forall|i: int| 0 <= i < b.meshes.len() ==> (#[trigger] b.meshes[i]).material < b.keys.len()
    &&& forall|i: int|
        0 <= i < b.meshes.len() ==> b.seen.contains(
            key_of(where_at(places, (#[trigger] b.meshes[i]).turn)),
        )
    &&& forall|i: int, j: int|
        0 <= i < j < b.meshes.len() ==> key_of(where_at(places, (#[trigger] b.meshes[i]).turn))
            != key_of(where_at(places, (#[trigger] b.meshes[j]).turn))
    &&& b.meshes.len() + b.duplicates_dropped == b.turn || b.turn == usize::MAX
    &&& b.turn < usize::MAX ==> b.meshes.len() < usize::MAX && b.duplicates_dropped < usize::MAX
}

proof fn lemma_piece_sound(
    b: BuiltView,
    p: Pose,
    i: usize,
    places: Seq<Seq<Point>>,
    coat: CoatView,
)
    requires
        sound(b, places),
    ensures
        sound(with_piece(b, p, i, places, coat), places),
{
    let r = with_piece(b, p, i, places, coat);
    let key = key_of(where_at(places, b.turn));
    if !b.seen.contains(key) {
        let alias = alias_of(p.model, i as int);
        let mat = said_of(p.looks, alias);
        let painted = on_paint_channel(mat, coat, p.model.pieces[i as int]);
        let mkey = alias + "|"@ + texture_of(mat, coat) + "|"@ + channel_name(painted);
        lemma_pushed(b.keys, mkey);
        assert(r.keys.contains(mkey));
        assert(0 <= r.keys.index_of(mkey) < r.keys.len());
        let n = b.meshes.len();
        assert(r.meshes[n as int].turn == b.turn);
        assert forall|j: int| 0 <= j < r.meshes.len() implies (#[trigger] r.meshes[j]).material
            < r.keys.len() && r.seen.contains(key_of(where_at(places, r.meshes[j].turn))) by {
            if j < n {
                assert(r.meshes[j] == b.meshes[j]);
            }
        }
        assert forall|x: int, y: int| 0 <= x < y < r.meshes.len() implies key_of(
            where_at(places, (#[trigger] r.meshes[x]).turn),
        ) != key_of(where_at(places, (#[trigger] r.meshes[y]).turn)) by {
            assert(r.meshes[x] == b.meshes[x]);
            if y < n {
                assert(r.meshes[y] == b.meshes[y]);
            }
        }
    }
}

proof fn lemma_pieces_sound(
    b: BuiltView,
    p: Pose,
    pieces: Seq<usize>,
    places: Seq<Seq<Point>>,
    coat: CoatView,
)
    requires
        sound(b, places),
    ensures
        sound(with_pieces(b, p, pieces, places, coat), places),
    decreases pieces.len(),
{
    if pieces.len() > 0 {
        lemma_pieces_sound(b, p, pieces.drop_last(), places, coat);
        lemma_piece_sound(
            with_pieces(b, p, pieces.drop_last(), places, coat),
            p,
            pieces.last(),
            places,
            coat,
        );
    }
}

proof fn lemma_passes_sound(
    b: BuiltView,
    m: ModelView,
    t: TraitView,
    instance: nat,
    name: Seq<char>,
    passes: Seq<ShownView>,
    places: Seq<Seq<Point>>,
    coat: CoatView,
)
    requires
        sound(b, places),
    ensures
        sound(with_passes(b, m, t, instance, name, passes, places, coat), places),
    decreases passes.len(),
{
    if passes.len() > 0 {
        lemma_passes_sound(b, m, t, instance, name, passes.drop_last(), places, coat);
        lemma_pieces_sound(
            with_passes(b, m, t, instance, name, passes.drop_last(), places, coat),
            Pose { model: m, looks: t, instance, name, suffix: passes.last().pass.suffix },
            passes.last().pieces,
            places,
            coat,
        );
    }
}

proof fn lemma_built_sound(
    l: Map<Seq<char>, Option<(ModelView, TraitView)>>,
    insts: Seq<InstanceView>,
    passes: Seq<Option<Seq<ShownView>>>,
    n: nat,
    places: Seq<Seq<Point>>,
    coat: CoatView,
)
    ensures
        sound(built_of(l, insts, passes, n, places, coat), places),
    decreases n,
{
    if n > 0 {
        lemma_built_sound(l, insts, passes, (n - 1) as nat, places, coat);
        let b = built_of(l, insts, passes, (n - 1) as nat, places, coat);
        let inst = insts[n - 1];
        match (held(l, inst.model), passes[n - 1]) {
            (Some(x), Some(ps)) => {
                lemma_passes_sound(
                    BuiltView { instances: capped(b.instances + 1), ..b },
                    x.0,
                    x.1,
                    (n - 1) as nat,
                    inst.name,
                    ps,
                    places,
                    coat,
                );
            },
            _ => {},
        }
    }
}

/// Every piece in a scene has one of the scene's surfaces.
pub proof fn every_piece_has_a_surface(
    l: Map<Seq<char>, Option<(ModelView, TraitView)>>,
    insts: Seq<InstanceView>,
    spare: bool,
    places: Seq<Seq<Point>>,
    coat: CoatView,
    i: int,
)
    requires
        0 <= i < scene_of(l, insts, spare, places, coat).meshes.len(),
    ensures
        scene_of(l, insts, spare, places, coat).meshes[i].material < scene_of(
            l,
            insts,
            spare,
            places,
            coat,
        ).surfaces.len(),
{
    lemma_built_sound(l, insts, plan_of(l, insts, spare).passes, insts.len(), places, coat);
}

/// No two pieces of a scene have the same fingerprint: of pieces that stand in
/// the same place with the same points, only the first is kept.
pub proof fn no_geometry_stands_twice(
    l: Map<Seq<char>, Option<(ModelView, TraitView)>>,
    insts: Seq<InstanceView>,
    spare: bool,
    places: Seq<Seq<Point>>,
    coat: CoatView,
    i: int,
    j: int,
)
    requires
        0 <= i < j < scene_of(l, insts, spare, places, coat).meshes.len(),
    ensures
        ({
            let m = scene_of(l, insts, spare, places, coat).meshes;
            key_of(where_at(places, m[i].turn)) != key_of(where_at(places, m[j].turn))
        }),
{
    lemma_built_sound(l, insts, plan_of(l, insts, spare).passes, insts.len(), places, coat);
}

/// How many pieces the passes show.
pub open spec fn shown_count(passes: Seq<ShownView>) -> nat
    decreases passes.len(),
{
    if passes.len() == 0 {
        0
    } else {
        shown_count(passes.drop_last()) + passes.last().pieces.len()
    }
}

/// How many pieces a plan shows, over the first `n` instances.
pub open spec fn planned_count(passes: Seq<Option<Seq<ShownView>>>, n: nat) -> nat
    decreases n,
{
    if n == 0 {
        0
    } else {
        planned_count(passes, (n - 1) as nat) + (match passes[n - 1] {
            Some(ps) => shown_count(ps),
            None => 0,
        })
    }
}

proof fn lemma_turns_of_pieces(
    b: BuiltView,
    p: Pose,
    pieces: Seq<usize>,
    places: Seq<Seq<Point>>,
    coat: CoatView,
)
    ensures
        with_pieces(b, p, pieces, places, coat).turn == capped(b.turn + pieces.len()),
    decreases pieces.len(),
{
    if pieces.len() > 0 {
        lemma_turns_of_pieces(b, p, pieces.drop_last(), places, coat);
    }
}

proof fn lemma_turns_of_passes(
    b: BuiltView,
    m: ModelView,
    t: TraitView,
    instance: nat,
    name: Seq<char>,
    passes: Seq<ShownView>,
    places: Seq<Seq<Point>>,
    coat: CoatView,
)
    ensures
        with_passes(b, m, t, instance, name, passes, places, coat).turn == capped(
            b.turn + shown_count(passes),
        ),
    decreases passes.len(),
{
    if passes.len() > 0 {
        lemma_turns_of_passes(b, m, t, instance, name, passes.drop_last(), places, coat);
        lemma_turns_of_pieces(
            with_passes(b, m, t, instance, name, passes.drop_last(), places, coat),
            Pose { model: m, looks: t, instance, name, suffix: passes.last().pass.suffix },
            passes.last().pieces,
            places,
            coat,
        );
    }
}

proof fn lemma_turns(
    l: Map<Seq<char>, Option<(ModelView, TraitView)>>,
    insts: Seq<InstanceView>,
    spare: bool,
    n: nat,
    places: Seq<Seq<Point>>,
    coat: CoatView,
)
    requires
        n <= insts.len(),
    ensures
        ({
            let ps = plan_of(l, insts, spare).passes;
            built_of(l, insts, ps, n, places, coat).turn == capped(planned_count(ps, n) as int)
        }),
    decreases n,
{
    if n > 0 {
        lemma_turns(l, insts, spare, (n - 1) as nat, places, coat);
        lemma_plan_len(l, insts, spare);
        let ps = plan_of(l, insts, spare).passes;
        let b = built_of(l, insts, ps, (n - 1) as nat, places, coat);
        let inst = insts[n - 1];
        match ps[n - 1] {
            Some(q) => {
                let x = held(l, inst.model)->0;
                lemma_turns_of_passes(
                    BuiltView { instances: capped(b.instances + 1), ..b },
                    x.0,
                    x.1,
                    (n - 1) as nat,
                    inst.name,
                    q,
                    places,
                    coat,
                );
            },
            None => {},
        }
    }
}

/// Nothing is lost: each piece that the plan shows stands in the scene or is
/// counted as a duplicate.
pub proof fn every_piece_shown_is_accounted_for(
    l: Map<Seq<char>, Option<(ModelView, TraitView)>>,
    insts: Seq<InstanceView>,
    spare: bool,
    places: Seq<Seq<Point>>,
    coat: CoatView,
)
    requires
        planned_count(plan_of(l, insts, spare).passes, insts.len()) < usize::MAX,
    ensures
        ({
            let s = scene_of(l, insts, spare, places, coat).stats;
            s.meshes + s.duplicates_dropped == planned_count(
                plan_of(l, insts, spare).passes,
                insts.len(),
            )
        }),
{
    lemma_built_sound(l, insts, plan_of(l, insts, spare).passes, insts.len(), places, coat);
    lemma_turns(l, insts, spare, insts.len(), places, coat);
}

/// A model that offers variants shows one choice of them: there is always a list
/// of the parts that are shown.
pub proof fn a_model_with_variants_never_shows_all(t: TraitView, names: Seq<Seq<char>>)
    requires
        t.variants.len() > 0,
    ensures
        worn(t, names) is Some,
{
}

proof fn lemma_plan_at(
    l: Map<Seq<char>, Option<(ModelView, TraitView)>>,
    insts: Seq<InstanceView>,
    spare: bool,
    i: int,
)
    requires
        0 <= i < insts.len(),
    ensures
        plan_of(l, insts, spare).passes.len() == insts.len(),
        plan_of(l, insts, spare).passes[i] == (match held(l, insts[i].model) {
            None => None,
            Some(x) => Some(
                shown_by(
                    x.0,
                    x.1,
                    passes_of(insts[i], x.1, spare, plan_of(l, insts.take(i), spare).slots).passes,
                ),
            ),
        }),
    decreases insts.len(),
{
    lemma_plan_len(l, insts, spare);
    lemma_plan_len(l, insts.drop_last(), spare);
    if i < insts.len() - 1 {
        lemma_plan_at(l, insts.drop_last(), spare, i);
        assert(insts.drop_last().take(i) =~= insts.take(i));
    } else {
        assert(insts.take(i) =~= insts.drop_last());
    }
}

/// Whether a pass shows the variant `v` and carries its name.
pub open spec fn parks(p: PassView, v: (Seq<char>, Seq<Seq<char>>)) -> bool {
    p.suffix == "_alt_"@ + v.0 && p.visible == Some(v.1) && p.slot is Some
}

proof fn lemma_spares_parked(
    vs: Seq<(Seq<char>, Seq<Seq<char>>)>,
    shown: Option<Seq<Seq<char>>>,
    model: Seq<char>,
    slots: Seq<Seq<char>>,
    k: int,
) -> (j: int)
    requires
        0 <= k < vs.len(),
        !(shown is Some && same_members(shown->0, vs[k].1)),
    ensures
        0 <= j < spares(vs, shown, model, slots).passes.len(),
        parks(spares(vs, shown, model, slots).passes[j], vs[k]),
    decreases vs.len(),
{
    if k == vs.len() - 1 {
        spares(vs, shown, model, slots).passes.len() - 1
    } else {
        assert(vs.drop_last()[k] == vs[k]);
        lemma_spares_parked(vs.drop_last(), shown, model, slots, k)
    }
}

/// Variants are kept: with a row for them, each variant of a model that a vehicle
/// shows is the one it wears or stands parked in the row under its own name.
pub proof fn variants_are_kept(
    l: Map<Seq<char>, Option<(ModelView, TraitView)>>,
    insts: Seq<InstanceView>,
    i: int,
    k: int,
)
    requires
        0 <= i < insts.len(),
        held(l, insts[i].model) is Some,
        0 <= k < (held(l, insts[i].model)->0).1.variants.len(),
    ensures
        ({
            let t = (held(l, insts[i].model)->0).1;
            let shown = worn(t, insts[i].variants);
            let p = plan_of(l, insts, true).passes[i];
            ||| shown is Some && same_members(shown->0, t.variants[k].1)
            ||| p is Some && exists|j: int|
                0 <= j < (p->0).len() && parks((#[trigger] (p->0)[j]).pass, t.variants[k])
        }),
{
    lemma_plan_at(l, insts, true, i);
    let x = held(l, insts[i].model)->0;
    let t = x.1;
    let shown = worn(t, insts[i].variants);
    let slots = plan_of(l, insts.take(i), true).slots;
    let p = plan_of(l, insts, true).passes[i]->0;
    if !(shown is Some && same_members(shown->0, t.variants[k].1)) {
        let j = lemma_spares_parked(t.variants, shown, insts[i].model, slots, k);
        assert(p[j + 1].pass == spares(t.variants, shown, insts[i].model, slots).passes[j]);
    }
}

/// Without a row for them, no variant is parked: each model is gone through once,
/// in place.
pub proof fn without_a_row_nothing_is_parked(
    l: Map<Seq<char>, Option<(ModelView, TraitView)>>,
    insts: Seq<InstanceView>,
    i: int,
)
    requires
        0 <= i < insts.len(),
    ensures
        plan_of(l, insts, false).passes[i] matches Some(p) ==> p.len() == 1 && p[0].pass.slot
            is None && p[0].pass.suffix.len() == 0,
{
    lemma_plan_at(l, insts, false, i);
}

/// Whether the place that a pass has in a row, if it has one, is that of its own
/// variant of `model`.
pub open spec fn stands_in(p: PassView, model: Seq<char>, slots: Seq<Seq<char>>) -> bool {
    p.slot matches Some(k) ==> k < slots.len() && slots[k as int] == model + "|"@ + p.suffix.skip(5)
}

proof fn lemma_row(
    vs: Seq<(Seq<char>, Seq<Seq<char>>)>,
    shown: Option<Seq<Seq<char>>>,
    model: Seq<char>,
    slots: Seq<Seq<char>>,
)
    requires
        slots.no_duplicates(),
    ensures
        ({
            let r = spares(vs, shown, model, slots);
            &&& r.slots.no_duplicates()
            &&& slots.is_prefix_of(r.slots)
            &&& forall|j: int|
                0 <= j < r.passes.len() ==> stands_in(#[trigger] r.passes[j], model, r.slots)
        }),
    decreases vs.len(),
{
    if vs.len() > 0 {
        lemma_row(vs.drop_last(), shown, model, slots);
        let b = spares(vs.drop_last(), shown, model, slots);
        let r = spares(vs, shown, model, slots);
        let v = vs.last();
        let key = model + "|"@ + v.0;
        if !(shown is Some && same_members(shown->0, v.1)) {
            lemma_pushed(b.slots, key);
            assert(r.slots == adding(b.slots, key));
            assert(r.slots.contains(key));
            assert(b.slots.is_prefix_of(r.slots));
            reveal_strlit("_alt_");
            assert(("_alt_"@ + v.0).skip(5) =~= v.0);
            assert(r.slots.no_duplicates()) by {
                if !b.slots.contains(key) {
                    assert forall|x: int, y: int|
                        0 <= x < r.slots.len() && 0 <= y < r.slots.len() && x != y implies r.slots[x]
                        != r.slots[y] by {
                        if x == b.slots.len() {
                            assert(b.slots.contains(b.slots[y]));
                        } else if y == b.slots.len() {
                            assert(b.slots.contains(b.slots[x]));
                        }
                    }
                }
            }
            assert forall|j: int| 0 <= j < r.passes.len() implies stands_in(
                #[trigger] r.passes[j],
                model,
                r.slots,
            ) by {
                if j < b.passes.len() {
                    assert(stands_in(b.passes[j], model, b.slots));
                }
            }
        }
    }
}

/// No two variants are parked in one place: the places of the row are those of
/// different variants, and each that is parked stands in its own.
pub proof fn each_parked_variant_has_a_place_of_its_own(
    l: Map<Seq<char>, Option<(ModelView, TraitView)>>,
    insts: Seq<InstanceView>,
    spare: bool,
)
    ensures
        ({
            let p = plan_of(l, insts, spare);
            &&& p.slots.no_duplicates()
            &&& forall|i: int, j: int|
                #![trigger (p.passes[i]->0)[j]]
                0 <= i < insts.len() && p.passes[i] is Some && 0 <= j < (p.passes[i]->0).len()
                    ==> stands_in((p.passes[i]->0)[j].pass, insts[i].model, p.slots)
        }),
    decreases insts.len(),
{
    if insts.len() > 0 {
        let f = insts.drop_last();
        each_parked_variant_has_a_place_of_its_own(l, f, spare);
        lemma_plan_len(l, insts, spare);
        lemma_plan_len(l, f, spare);
        let b = plan_of(l, f, spare);
        let p = plan_of(l, insts, spare);
        let inst = insts.last();
        if let Some(x) = held(l, inst.model) {
            lemma_row(x.1.variants, worn(x.1, inst.variants), inst.model, b.slots);
        }
        assert(b.slots.is_prefix_of(p.slots));
        assert forall|i: int, j: int|
            #![trigger (p.passes[i]->0)[j]]
            0 <= i < insts.len() && p.passes[i] is Some && 0 <= j
                < (p.passes[i]->0).len() implies stands_in(
            (p.passes[i]->0)[j].pass,
            insts[i].model,
            p.slots,
        ) by {
            if i < f.len() {
                assert(p.passes[i] == b.passes[i]);
                assert(stands_in((b.passes[i]->0)[j].pass, f[i].model, b.slots));
            } else {
                let x = held(l, inst.model)->0;
                let row = spares(
                    x.1.variants,
                    worn(x.1, inst.variants),
                    inst.model,
                    b.slots,
                );
                if spare && j > 0 {
                    assert((p.passes[i]->0)[j].pass == row.passes[j - 1]);
                }
            }
        }
    }
}

/// A parked variant carries only what differs: a piece that the vehicle wears in
/// place is in no parked pass, and every other piece of the variant is.
pub proof fn parked_variants_carry_what_differs(
    l: Map<Seq<char>, Option<(ModelView, TraitView)>>,
    insts: Seq<InstanceView>,
    i: int,
    j: int,
    piece: usize,
)
    requires
        0 <= i < insts.len(),
        plan_of(l, insts, true).passes[i] matches Some(p) && 0 <= j < p.len() && p[j].pass.slot
            is Some,
    ensures
        ({
            let x = held(l, insts[i].model)->0;
            let n = x.0.pieces.len();
            let p = (plan_of(l, insts, true).passes[i]->0)[j];
            let own = pieces_shown(x.0, x.1, p.pass.visible, n);
            let worn_pieces = pieces_shown(x.0, x.1, worn(x.1, insts[i].variants), n);
            p.pieces.contains(piece) <==> own.contains(piece) && !worn_pieces.contains(piece)
        }),
{
    lemma_plan_at(l, insts, true, i);
    let x = held(l, insts[i].model)->0;
    let n = x.0.pieces.len();
    let p = (plan_of(l, insts, true).passes[i]->0)[j];
    let own = pieces_shown(x.0, x.1, p.pass.visible, n);
    let worn_pieces = pieces_shown(x.0, x.1, worn(x.1, insts[i].variants), n);
    lemma_those_not_in(own, worn_pieces);
    assert(p.pieces == those_not_in(own, worn_pieces));
    if p.pieces.contains(piece) {
        assert(p.pieces[p.pieces.index_of(piece)] == piece);
    }
}

} // verus!
