//! Every model of an archive in one scene, for archives with nothing to
//! assemble: which models are shown, under which names, and with which textures.
//!
//! Where each stands is worked out outside; so are the rounded coordinates that
//! tell one model from another.

use crate::harvest::{adding, lemma_pushed, Names};
use crate::hashfs::{file_at, HashFs, Table};
use crate::matfile::{base_tobj, base_tobj_in, image_in, image_path, shader, shader_in};
use crate::pairing::{
    find_nearest, nearest, rank, ranking, DescView, Found, FoundView,
};
use crate::pim::{Model, ModelView};
use crate::pit::{means_opacity, Material};
use crate::pmd::Pmd;
use crate::staging::{treat, treated};
use crate::text::{
    cat, cat3, chars_of, clone_texts, decimal, digits, index_of, lossy, replace, string_of, texts,
    trim_suffixes, unroot, unrooted, utf8_lossy, with_for, without_suffixes, write_hex,
    write_usize, zero_padded,
};
use crate::tree::{base_of, base_text};
use std::collections::HashSet;
use vstd::prelude::*;

verus! {

// -------------------------------------------------------------- pairing ---

pub open spec fn model_offsets(f: FoundView) -> Seq<u64> {
    Seq::new(f.models.len(), |i: int| f.models[i].0)
}

pub open spec fn desc_offsets(f: FoundView) -> Seq<u64> {
    Seq::new(f.descs.len(), |i: int| f.descs[i].0)
}

/// The descriptors by their place in the archive.
pub open spec fn desc_order(f: FoundView) -> Seq<usize> {
    ranking(desc_offsets(f), f.descs.len())
}

pub open spec fn ordered_offsets(f: FoundView) -> Seq<u64> {
    Seq::new(desc_order(f).len(), |k: int| desc_offsets(f)[desc_order(f)[k] as int])
}

/// The descriptor nearest to a place in the archive.
pub open spec fn nearest_desc(f: FoundView, offset: u64) -> Option<DescView> {
    match nearest(ordered_offsets(f), offset) {
        Some(k) => Some(f.descs[desc_order(f)[k] as int].1),
        None => None,
    }
}

/// Whether a descriptor and a model agree on their shape.
pub open spec fn agrees(d: DescView, m: ModelView) -> bool {
    d.pieces == m.pieces.len() && d.parts == m.parts.len()
}

/// The materials of a model, if its descriptor is found.
pub open spec fn materials_of(f: FoundView, offset: u64, m: ModelView) -> Option<Seq<Seq<char>>> {
    match nearest_desc(f, offset) {
        Some(d) => if agrees(d, m) {
            Some(d.materials)
        } else {
            None
        },
        None => None,
    }
}

struct Shelf {
    order: Vec<usize>,
    offsets: Vec<u64>,
}

spec fn shelved(s: Shelf, f: FoundView) -> bool {
    &&& s.order@ == desc_order(f)
    &&& s.offsets@ == ordered_offsets(f)
    &&& s.order@.len() == f.descs.len()
    &&& s.offsets@.len() == s.order@.len()
    &&& forall|k: int| 0 <= k < s.order@.len() ==> #[trigger] s.order@[k] < f.descs.len()
}

fn shelve(f: &Found) -> (r: Shelf)
    ensures
        shelved(r, f@),
{
    let mut by: Vec<u64> = Vec::new();
    let mut i: usize = 0;
    while i < f.descs.len()
        invariant
            i <= f.descs@.len(),
            by@ =~= desc_offsets(f@).take(i as int),
        decreases f.descs@.len() - i,
    {
        assert(f@.descs[i as int].0 == f.descs@[i as int].0);
        by.push(f.descs[i].0);
        i = i + 1;
    }
    assert(by@ =~= desc_offsets(f@));
    let order = rank(&by);
    let mut offsets: Vec<u64> = Vec::new();
    let mut k: usize = 0;
    while k < order.len()
        invariant
            k <= order@.len(),
            order@ == desc_order(f@),
            by@ == desc_offsets(f@),
            forall|k: int| 0 <= k < order@.len() ==> #[trigger] order@[k] < by@.len(),
            offsets@ =~= ordered_offsets(f@).take(k as int),
        decreases order@.len() - k,
    {
        offsets.push(by[order[k]]);
        k = k + 1;
    }
    assert(offsets@ =~= ordered_offsets(f@));
    Shelf { order, offsets }
}

fn find_desc(f: &Found, s: &Shelf, offset: u64) -> (r: Option<usize>)
    requires
        shelved(*s, f@),
    ensures
        match r {
            Some(i) => i < f.descs@.len() && nearest_desc(f@, offset) == Some(f@.descs[i as int].1),
            None => nearest_desc(f@, offset) is None,
        },
{
    match find_nearest(&s.offsets, offset) {
        Some(k) => {
            assert(s.order@[k as int] < f@.descs.len());
            Some(s.order[k])
        },
        None => None,
    }
}

fn fits(f: &Found, i: usize, m: &Model) -> (r: bool)
    requires
        i < f.descs@.len(),
    ensures
        r == agrees(f@.descs[i as int].1, m@),
{
    assert(f@.descs[i as int] == (f.descs@[i as int].0, crate::pairing::desc_of(f.descs@[i as int].1)));
    let d = f.descs[i].1.signature();
    d.0 == m.pieces.len() && d.1 == m.parts.len()
}

/// How many of the first `n` models agree with the nearest descriptor.
pub open spec fn agreeing(f: FoundView, n: nat) -> nat
    decreases n,
{
    if n == 0 {
        0
    } else {
        agreeing(f, (n - 1) as nat) + (match nearest_desc(f, f.models[n - 1].0) {
            Some(d) => if agrees(d, f.models[n - 1].1) {
                1nat
            } else {
                0
            },
            None => 0,
        })
    }
}

/// How many of the first `n` models disagree with it.
pub open spec fn disagreeing(f: FoundView, n: nat) -> nat
    decreases n,
{
    if n == 0 {
        0
    } else {
        disagreeing(f, (n - 1) as nat) + (match nearest_desc(f, f.models[n - 1].0) {
            Some(d) => if agrees(d, f.models[n - 1].1) {
                0nat
            } else {
                1
            },
            None => 0,
        })
    }
}

/// Tests whether a packer writes a model and its descriptor next to each other:
/// on how many models the nearest descriptor agrees, and on how many not.
pub fn agreement(f: &Found) -> (r: (usize, usize))
    ensures
        r.0 == agreeing(f@, f@.models.len()),
        r.1 == disagreeing(f@, f@.models.len()),
{
    let s = shelve(f);
    let mut yes: usize = 0;
    let mut no: usize = 0;
    let mut i: usize = 0;
    while i < f.models.len()
        invariant
            i <= f.models@.len(),
            shelved(s, f@),
            yes == agreeing(f@, i as nat),
            no == disagreeing(f@, i as nat),
            yes + no <= i,
        decreases f.models@.len() - i,
    {
        assert(f@.models[i as int] == (f.models@[i as int].0, f.models@[i as int].1@));
        match find_desc(f, &s, f.models[i].0) {
            Some(k) => {
                if fits(f, k, &f.models[i].1) {
                    yes = yes + 1;
                } else {
                    no = no + 1;
                }
            },
            None => {},
        }
        i = i + 1;
    }
    (yes, no)
}

// ------------------------------------------------------------ ambiguity ---

/// How a model fares where descriptors are matched by shape alone.
#[derive(Clone, Copy, PartialEq, Eq, Structural)]
pub enum Match {
    Unmatched,
    Unique,
    /// several, but all with the same materials
    Harmless,
    /// several that disagree
    Ambiguous,
}

/// The descriptors with a shape.
pub open spec fn of_shape(d: Seq<DescView>, pieces: usize, parts: usize) -> Seq<DescView>
    decreases d.len(),
{
    if d.len() == 0 {
        Seq::empty()
    } else {
        let r = of_shape(d.drop_last(), pieces, parts);
        if d.last().pieces == pieces && d.last().parts == parts {
            r.push(d.last())
        } else {
            r
        }
    }
}

/// Several descriptors of a shape only matter if they disagree about the
/// materials; otherwise any of them is right.
pub open spec fn match_of(d: Seq<DescView>, pieces: usize, parts: usize) -> Match {
    let hits = of_shape(d, pieces, parts);
    if hits.len() == 0 {
        Match::Unmatched
    } else if hits.len() == 1 {
        Match::Unique
    } else if forall|i: int| 0 <= i < hits.len() ==> (#[trigger] hits[i]).materials == hits[0].materials {
        Match::Harmless
    } else {
        Match::Ambiguous
    }
}

pub open spec fn pmd_views(v: Seq<Pmd>) -> Seq<DescView> {
    Seq::new(v.len(), |i: int| crate::pairing::desc_of(v[i]))
}

fn same_texts(a: &Vec<String>, b: &Vec<String>) -> (r: bool)
    ensures
        r == (texts(a@) == texts(b@)),
{
    if a.len() != b.len() {
        assert(texts(a@).len() != texts(b@).len());
        return false;
    }
    let mut i: usize = 0;
    while i < a.len()
        invariant
            i <= a@.len(),
            a@.len() == b@.len(),
            forall|k: int| 0 <= k < i ==> texts(a@)[k] == texts(b@)[k],
        decreases a@.len() - i,
    {
        if !crate::text::same_str(a[i].as_str(), b[i].as_str()) {
            assert(texts(a@)[i as int] != texts(b@)[i as int]);
            return false;
        }
        i = i + 1;
    }
    assert(texts(a@) =~= texts(b@));
    true
}

/// How a model with so many pieces and parts fares among descriptors.
pub fn match_shape(d: &Vec<Pmd>, pieces: usize, parts: usize) -> (r: Match)
    ensures
        r == match_of(pmd_views(d@), pieces, parts),
{
    let ghost all = pmd_views(d@);
    let mut hits: Vec<usize> = Vec::new();
    let mut i: usize = 0;
    assert(all.take(0) =~= Seq::<DescView>::empty());
    while i < d.len()
        invariant
            i <= d@.len(),
            all == pmd_views(d@),
            hits@.len() == of_shape(all.take(i as int), pieces, parts).len(),
            forall|k: int| 0 <= k < hits@.len() ==> #[trigger] hits@[k] < d@.len(),
            forall|k: int|
                0 <= k < hits@.len() ==> all[#[trigger] hits@[k] as int] == of_shape(
                    all.take(i as int),
                    pieces,
                    parts,
                )[k],
        decreases d@.len() - i,
    {
        assert(all.take(i + 1).drop_last() =~= all.take(i as int));
        assert(all.take(i + 1).last() == all[i as int]);
        let s = d[i].signature();
        if s.0 == pieces && s.1 == parts {
            hits.push(i);
        }
        i = i + 1;
    }
    assert(all.take(i as int) =~= all);
    let ghost want = of_shape(all, pieces, parts);
    if hits.len() == 0 {
        return Match::Unmatched;
    }
    if hits.len() == 1 {
        return Match::Unique;
    }
    let mut k: usize = 0;
    assert(hits@[0] < d@.len());
    assert(all[hits@[0] as int] == want[0]);
    while k < hits.len()
        invariant
            k <= hits@.len(),
            hits@.len() > 1,
            all == pmd_views(d@),
            want == of_shape(all, pieces, parts),
            hits@.len() == want.len(),
            forall|k: int| 0 <= k < hits@.len() ==> #[trigger] hits@[k] < d@.len(),
            forall|k: int| 0 <= k < hits@.len() ==> all[#[trigger] hits@[k] as int] == want[k],
            hits@[0] < d@.len(),
            forall|j: int| 0 <= j < k ==> (#[trigger] want[j]).materials == want[0].materials,
        decreases hits@.len() - k,
    {
        assert(all[hits@[k as int] as int] == want[k as int]);
        assert(all[hits@[0] as int] == want[0]);
        if !same_texts(&d[hits[k]].materials, &d[hits[0]].materials) {
            assert(want[k as int].materials != want[0].materials);
            return Match::Ambiguous;
        }
        k = k + 1;
    }
    Match::Harmless
}

// ------------------------------------------------------------ gathering ---

/// The pieces of a model, among the first `n`, that can be shown at all.
pub open spec fn readable_of(m: ModelView, n: nat) -> Seq<usize>
    decreases n,
{
    if n == 0 {
        Seq::empty()
    } else {
        let r = readable_of(m, (n - 1) as nat);
        if m.pieces[n - 1].positions.len() > 0 && m.pieces[n - 1].tris.len() > 0 {
            r.push((n - 1) as usize)
        } else {
            r
        }
    }
}

/// The pieces of a model that have points and triangles.
pub fn readable_pieces(m: &Model) -> (r: Vec<usize>)
    ensures
        r@ == readable_of(m@, m@.pieces.len()),
        forall|k: int| 0 <= k < r@.len() ==> #[trigger] r@[k] < m.pieces@.len(),
{
    let mut r: Vec<usize> = Vec::new();
    let mut i: usize = 0;
    while i < m.pieces.len()
        invariant
            i <= m.pieces@.len(),
            r@ == readable_of(m@, i as nat),
            forall|k: int| 0 <= k < r@.len() ==> #[trigger] r@[k] < m.pieces@.len(),
        decreases m.pieces@.len() - i,
    {
        assert(m@.pieces[i as int] == m.pieces@[i as int]@);
        if m.pieces[i].positions.len() > 0 && m.pieces[i].tris.len() > 0 {
            r.push(i);
        }
        i = i + 1;
    }
    r
}

/// The fingerprint of a model: its rounded coordinates, mixed in order.
pub open spec fn shape_hash(v: Seq<u64>) -> u64
    decreases v.len(),
{
    if v.len() == 0 {
        0xcbf2_9ce4_8422_2325
    } else {
        ((shape_hash(v.drop_last()) ^ v.last()) * 0x100_0000_01b3 % 0x1_0000_0000_0000_0000) as u64
    }
}

pub fn shape_key(v: &Vec<u64>) -> (r: u64)
    ensures
        r == shape_hash(v@),
{
    let mut h: u64 = 0xcbf2_9ce4_8422_2325;
    let mut i: usize = 0;
    assert(v@.take(0) =~= Seq::<u64>::empty());
    while i < v.len()
        invariant
            i <= v@.len(),
            h == shape_hash(v@.take(i as int)),
        decreases v@.len() - i,
    {
        assert(v@.take(i + 1).drop_last() =~= v@.take(i as int));
        h = (h ^ v[i]).wrapping_mul(0x100_0000_01b3);
        i = i + 1;
    }
    assert(v@.take(i as int) =~= v@);
    h
}

/// A model that is shown.
#[verifier::ext_equal]
pub struct ExhibitView {
    /// which of the models found it is
    pub model: nat,
    pub name: Seq<char>,
    pub pieces: Seq<usize>,
    pub materials: Seq<Seq<char>>,
}

#[verifier::ext_equal]
pub struct GatheredView {
    pub kept: Seq<ExhibitView>,
    pub seen: Set<u64>,
    pub duplicates: nat,
    pub skipped: nat,
    pub paired: nat,
    pub unpaired: nat,
}

/// What a model is called: after its first part, or else after its place.
pub open spec fn model_name(m: ModelView, offset: u64) -> Seq<char> {
    if m.parts.len() > 0 && m.parts[0].name.len() > 0 {
        m.parts[0].name
    } else {
        "model_"@ + zero_padded(digits(offset as nat, 16), 1)
    }
}

/// The rounded coordinates of the model with a rank; none if they are not given.
pub open spec fn shape_at(shapes: Seq<Seq<u64>>, k: int) -> Seq<u64> {
    if k < shapes.len() {
        shapes[k]
    } else {
        Seq::empty()
    }
}

pub open spec fn with_model(g: GatheredView, f: FoundView, i: int, shape: Seq<u64>) -> GatheredView {
    let offset = f.models[i].0;
    let m = f.models[i].1;
    let pieces = readable_of(m, m.pieces.len());
    let key = shape_hash(shape);
    if pieces.len() == 0 {
        GatheredView { skipped: g.skipped + 1, ..g }
    } else if g.seen.contains(key) {
        GatheredView { duplicates: g.duplicates + 1, ..g }
    } else {
        let mats = materials_of(f, offset, m);
        GatheredView {
            kept: g.kept.push(
                ExhibitView {
                    model: i as nat,
                    name: model_name(m, offset),
                    pieces,
                    materials: match mats {
                        Some(v) => v,
                        None => Seq::empty(),
                    },
                },
            ),
            seen: g.seen.insert(key),
            paired: if mats is Some {
                g.paired + 1
            } else {
                g.paired
            },
            unpaired: if mats is Some {
                g.unpaired
            } else {
                g.unpaired + 1
            },
            ..g
        }
    }
}

/// The models in the order of their places, each once.
pub open spec fn gathered(f: FoundView, shapes: Seq<Seq<u64>>, n: nat) -> GatheredView
    decreases n,
{
    if n == 0 {
        GatheredView {
            kept: Seq::empty(),
            seen: Set::empty(),
            duplicates: 0,
            skipped: 0,
            paired: 0,
            unpaired: 0,
        }
    } else {
        with_model(
            gathered(f, shapes, (n - 1) as nat),
            f,
            ranking(model_offsets(f), f.models.len())[n - 1] as int,
            shape_at(shapes, n - 1),
        )
    }
}

pub struct Exhibit {
    pub model: usize,
    pub name: String,
    pub pieces: Vec<usize>,
    pub materials: Vec<String>,
}

impl View for Exhibit {
    type V = ExhibitView;

    open spec fn view(&self) -> ExhibitView {
        ExhibitView {
            model: self.model as nat,
            name: self.name@,
            pieces: self.pieces@,
            materials: texts(self.materials@),
        }
    }
}

pub open spec fn exhibit_views(v: Seq<Exhibit>) -> Seq<ExhibitView> {
    Seq::new(v.len(), |i: int| v[i]@)
}

pub struct Gathered {
    pub kept: Vec<Exhibit>,
    pub seen: HashSet<u64>,
    pub duplicates: usize,
    pub skipped: usize,
    pub paired: usize,
    pub unpaired: usize,
}

impl View for Gathered {
    type V = GatheredView;

    open spec fn view(&self) -> GatheredView {
        GatheredView {
            kept: exhibit_views(self.kept@),
            seen: self.seen@,
            duplicates: self.duplicates as nat,
            skipped: self.skipped as nat,
            paired: self.paired as nat,
            unpaired: self.unpaired as nat,
        }
    }
}

/// The numbers of the models by their place in the archive: the order in which
/// their coordinates are to be given.
pub fn model_order(f: &Found) -> (r: Vec<usize>)
    ensures
        r@ == ranking(model_offsets(f@), f@.models.len()),
        r@.len() == f.models@.len(),
        forall|k: int| 0 <= k < r@.len() ==> #[trigger] r@[k] < f.models@.len(),
{
    let mut by: Vec<u64> = Vec::new();
    let mut i: usize = 0;
    while i < f.models.len()
        invariant
            i <= f.models@.len(),
            by@ =~= model_offsets(f@).take(i as int),
        decreases f.models@.len() - i,
    {
        assert(f@.models[i as int].0 == f.models@[i as int].0);
        by.push(f.models[i].0);
        i = i + 1;
    }
    assert(by@ =~= model_offsets(f@));
    rank(&by)
}

fn call_model(m: &Model, offset: u64) -> (r: String)
    ensures
        r@ == model_name(m@, offset),
{
    if m.parts.len() > 0 {
        assert(m@.parts[0] == m.parts@[0]@);
        if !m.parts[0].name.as_str().is_empty() {
            return m.parts[0].name.as_str().to_owned();
        }
    }
    cat("model_", write_hex(offset, 1).as_str())
}

impl Gathered {
    fn take_in(&mut self, f: &Found, s: &Shelf, i: usize, shape: &Vec<u64>)
        requires
            shelved(*s, f@),
            i < f.models@.len(),
            old(self).duplicates < usize::MAX,
            old(self).skipped < usize::MAX,
            old(self).paired < usize::MAX,
            old(self).unpaired < usize::MAX,
        ensures
            final(self)@ == with_model(old(self)@, f@, i as int, shape@),
            fits_in(f@, old(self)@.kept) ==> fits_in(f@, final(self)@.kept),
    {
        broadcast use vstd::std_specs::hash::group_hash_axioms;

        let ghost was = self@;
        let offset: u64 = f.models[i].0;
        let m = &f.models[i].1;
        assert(f@.models[i as int] == (offset, m@));
        let pieces = readable_pieces(m);
        if pieces.len() == 0 {
            self.skipped = self.skipped + 1;
            assert(self@ =~= with_model(was, f@, i as int, shape@));
            return;
        }
        let key: u64 = shape_key(shape);
        if self.seen.contains(&key) {
            self.duplicates = self.duplicates + 1;
            assert(self@ =~= with_model(was, f@, i as int, shape@));
            return;
        }
        self.seen.insert(key);
        let mut materials: Vec<String> = Vec::new();
        assert(texts(materials@) =~= Seq::<Seq<char>>::empty());
        let hit = match find_desc(f, s, offset) {
            Some(k) => {
                if fits(f, k, m) {
                    assert(f@.descs[k as int].1.materials == texts(f.descs@[k as int].1.materials@));
                    materials = clone_texts(&f.descs[k].1.materials);
                    true
                } else {
                    false
                }
            },
            None => false,
        };
        assert(hit == (materials_of(f@, offset, m@) is Some));
        if hit {
            self.paired = self.paired + 1;
        } else {
            self.unpaired = self.unpaired + 1;
        }
        let x = Exhibit { model: i, name: call_model(m, offset), pieces, materials };
        let ghost xv = x@;
        self.kept.push(x);
        assert(exhibit_views(self.kept@) =~= was.kept.push(xv));
        assert(of_found(f@, xv));
        assert(self@ =~= with_model(was, f@, i as int, shape@));
    }
}

pub open spec fn shape_views(v: Seq<Vec<u64>>) -> Seq<Seq<u64>> {
    Seq::new(v.len(), |i: int| v[i]@)
}

/// Gathers the models of an archive: those that can be read, each once, with
/// their materials where the descriptor is found. `shapes` are the rounded
/// coordinates of their readable pieces, in the order of `model_order`.
pub fn gather(f: &Found, shapes: &Vec<Vec<u64>>) -> (r: Gathered)
    ensures
        r@ == gathered(f@, shape_views(shapes@), f@.models.len()),
        fits_in(f@, r@.kept),
{
    broadcast use vstd::std_specs::hash::group_hash_axioms;

    let s = shelve(f);
    let order = model_order(f);
    let mut g = Gathered {
        kept: Vec::new(),
        seen: HashSet::new(),
        duplicates: 0,
        skipped: 0,
        paired: 0,
        unpaired: 0,
    };
    let ghost sv = shape_views(shapes@);
    assert(g@ =~= gathered(f@, sv, 0));
    let mut k: usize = 0;
    while k < order.len()
        invariant
            k <= order@.len(),
            shelved(s, f@),
            order@ == ranking(model_offsets(f@), f@.models.len()),
            order@.len() == f.models@.len(),
            forall|k: int| 0 <= k < order@.len() ==> #[trigger] order@[k] < f.models@.len(),
            sv == shape_views(shapes@),
            g@ == gathered(f@, sv, k as nat),
            g.duplicates <= k,
            g.skipped <= k,
            g.paired <= k,
            g.unpaired <= k,
            fits_in(f@, g@.kept),
        decreases order@.len() - k,
    {
        assert(order@[k as int] < f.models@.len());
        if k < shapes.len() {
            assert(sv[k as int] == shapes@[k as int]@);
            g.take_in(f, &s, order[k], &shapes[k]);
        } else {
            let none: Vec<u64> = Vec::new();
            assert(none@ =~= Seq::<u64>::empty());
            g.take_in(f, &s, order[k], &none);
        }
        k = k + 1;
    }
    g
}

/// Each model is shown, a duplicate, or not readable; and each that is shown has
/// a descriptor or has none.
pub proof fn every_model_is_accounted_for(f: FoundView, shapes: Seq<Seq<u64>>, n: nat)
    ensures
        ({
            let g = gathered(f, shapes, n);
            &&& g.kept.len() + g.duplicates + g.skipped == n
            &&& g.paired + g.unpaired == g.kept.len()
        }),
    decreases n,
{
    if n > 0 {
        every_model_is_accounted_for(f, shapes, (n - 1) as nat);
    }
}

// ---------------------------------------------------------------- meshes ---

/// A piece of an exhibit: its name, and the number of its material, zero for the
/// one that stands for all unknown ones.
#[verifier::ext_equal]
pub struct ItemView {
    pub name: Seq<char>,
    pub exhibit: nat,
    pub piece: usize,
    pub material: nat,
}

/// The pieces shown so far, and the paths of the materials they have.
#[verifier::ext_equal]
pub struct ShownView {
    pub items: Seq<ItemView>,
    pub paths: Seq<Seq<char>>,
}

/// The path of a piece's material; empty where it is not known.
pub open spec fn path_of(f: FoundView, x: ExhibitView, piece: usize) -> Seq<char> {
    let k = f.models[x.model as int].1.pieces[piece as int].material;
    if k < x.materials.len() {
        x.materials[k as int]
    } else {
        Seq::empty()
    }
}

pub open spec fn with_item(s: ShownView, f: FoundView, x: ExhibitView, n: nat, i: int) -> ShownView {
    let path = path_of(f, x, x.pieces[i]);
    let paths = if path.len() == 0 {
        s.paths
    } else {
        adding(s.paths, path)
    };
    ShownView {
        items: s.items.push(
            ItemView {
                name: x.name + "_"@ + decimal(n) + "_"@ + decimal(i as nat),
                exhibit: n,
                piece: x.pieces[i],
                material: if path.len() == 0 {
                    0
                } else {
                    (paths.index_of(path) + 1) as nat
                },
            },
        ),
        paths,
    }
}

/// The first `k` pieces of exhibit `n`, behind what is shown.
pub open spec fn with_items(s: ShownView, f: FoundView, x: ExhibitView, n: nat, k: nat) -> ShownView
    decreases k,
{
    if k == 0 {
        s
    } else {
        with_item(with_items(s, f, x, n, (k - 1) as nat), f, x, n, k - 1)
    }
}

/// The pieces of the first `n` exhibits.
pub open spec fn shown_of(f: FoundView, v: Seq<ExhibitView>, n: nat) -> ShownView
    decreases n,
{
    if n == 0 {
        ShownView { items: Seq::empty(), paths: Seq::empty() }
    } else {
        let x = v[n - 1];
        with_items(shown_of(f, v, (n - 1) as nat), f, x, (n - 1) as nat, x.pieces.len())
    }
}

pub struct Item {
    pub name: String,
    pub exhibit: usize,
    pub piece: usize,
    pub material: usize,
}

impl View for Item {
    type V = ItemView;

    open spec fn view(&self) -> ItemView {
        ItemView {
            name: self.name@,
            exhibit: self.exhibit as nat,
            piece: self.piece,
            material: self.material as nat,
        }
    }
}

pub open spec fn item_views(v: Seq<Item>) -> Seq<ItemView> {
    Seq::new(v.len(), |i: int| v[i]@)
}

pub struct Shown {
    pub items: Vec<Item>,
    pub paths: Names,
}

impl View for Shown {
    type V = ShownView;

    open spec fn view(&self) -> ShownView {
        ShownView { items: item_views(self.items@), paths: self.paths@ }
    }
}

/// Whether an exhibit is of one of the models found, and its pieces of that.
pub open spec fn of_found(f: FoundView, x: ExhibitView) -> bool {
    &&& x.model < f.models.len()
    &&& forall|k: int|
        0 <= k < x.pieces.len() ==> #[trigger] x.pieces[k]
            < f.models[x.model as int].1.pieces.len()
}

pub open spec fn fits_in(f: FoundView, v: Seq<ExhibitView>) -> bool {
    forall|n: int| 0 <= n < v.len() ==> #[trigger] of_found(f, v[n])
}

impl Shown {
    fn add_item(&mut self, f: &Found, x: &Exhibit, n: usize, i: usize)
        requires
            old(self).paths.wf(),
            i < x.pieces@.len(),
            x.model < f.models@.len(),
            x.pieces@[i as int] < f.models@[x.model as int].1.pieces@.len(),
        ensures
            final(self).paths.wf(),
            final(self)@ == with_item(old(self)@, f@, x@, n as nat, i as int),
    {
        let ghost was = self@;
        let piece: usize = x.pieces[i];
        let m = &f.models[x.model].1;
        assert(f@.models[x.model as int].1 == m@);
        assert(m@.pieces[piece as int] == m.pieces@[piece as int]@);
        let slot: usize = m.pieces[piece].material;
        let mut material: usize = 0;
        if slot < x.materials.len() && !x.materials[slot].as_str().is_empty() {
            let path = x.materials[slot].as_str();
            assert(path@ == path_of(f@, x@, piece));
            self.paths.add(path);
            proof {
                lemma_pushed(was.paths, path@);
            }
            let count: usize = self.paths.list.len();
            match index_of(&self.paths.list, path) {
                Some(k) => {
                    proof {
                        assert(k < count);
                        let j = self.paths@.index_of(path@);
                        assert(self.paths@[k as int] == path@);
                        assert(self.paths@[j] == path@);
                    }
                    material = k + 1;
                },
                None => {
                    assert(false);
                },
            }
        }
        let a = cat3(x.name.as_str(), "_", write_usize(n).as_str());
        let item = Item {
            name: cat3(a.as_str(), "_", write_usize(i).as_str()),
            exhibit: n,
            piece,
            material,
        };
        let ghost iv = item@;
        self.items.push(item);
        assert(item_views(self.items@) =~= was.items.push(iv));
        assert(self@ =~= with_item(was, f@, x@, n as nat, i as int));
    }
}

/// Lists the pieces of the exhibits, with their names and materials.
pub fn list_items(f: &Found, g: &Gathered) -> (r: Shown)
    requires
        fits_in(f@, g@.kept),
    ensures
        r@ == shown_of(f@, g@.kept, g@.kept.len()),
        r.paths.wf(),
{
    let ghost v = g@.kept;
    let mut r = Shown { items: Vec::new(), paths: Names::new() };
    assert(r@ =~= (ShownView { items: Seq::empty(), paths: Seq::empty() }));
    let mut n: usize = 0;
    while n < g.kept.len()
        invariant
            n <= g.kept@.len(),
            v == exhibit_views(g.kept@),
            fits_in(f@, v),
            r.paths.wf(),
            r@ == shown_of(f@, v, n as nat),
        decreases g.kept@.len() - n,
    {
        let x = &g.kept[n];
        assert(v[n as int] == x@);
        let ghost before = r@;
        let mut i: usize = 0;
        while i < x.pieces.len()
            invariant
                i <= x.pieces@.len(),
                n < v.len(),
                v[n as int] == x@,
                fits_in(f@, v),
                r.paths.wf(),
                r@ == with_items(before, f@, x@, n as nat, i as nat),
            decreases x.pieces@.len() - i,
        {
            assert(of_found(f@, v[n as int]));
            assert(x@.pieces[i as int] == x.pieces@[i as int]);
            r.add_item(f, x, n, i);
            i = i + 1;
        }
        n = n + 1;
    }
    r
}

/// Every piece has one of the materials, or the one that stands for all unknown
/// ones.
pub proof fn items_have_materials(f: FoundView, v: Seq<ExhibitView>, n: nat, i: int)
    requires
        0 <= i < shown_of(f, v, n).items.len(),
    ensures
        shown_of(f, v, n).items[i].material <= shown_of(f, v, n).paths.len(),
{
    lemma_shown(f, v, n);
}

spec fn in_range(s: ShownView) -> bool {
    forall|i: int| 0 <= i < s.items.len() ==> (#[trigger] s.items[i]).material <= s.paths.len()
}

proof fn lemma_items(s: ShownView, f: FoundView, x: ExhibitView, n: nat, k: nat)
    requires
        in_range(s),
    ensures
        in_range(with_items(s, f, x, n, k)),
    decreases k,
{
    if k > 0 {
        lemma_items(s, f, x, n, (k - 1) as nat);
        let p = with_items(s, f, x, n, (k - 1) as nat);
        let r = with_item(p, f, x, n, k - 1);
        let path = path_of(f, x, x.pieces[k - 1]);
        lemma_pushed(p.paths, path);
        assert forall|i: int| 0 <= i < r.items.len() implies (#[trigger] r.items[i]).material
            <= r.paths.len() by {
            if i < p.items.len() {
                assert(r.items[i] == p.items[i]);
            } else if path.len() > 0 {
                assert(r.paths.contains(path));
                assert(0 <= r.paths.index_of(path) < r.paths.len());
            }
        }
    }
}

proof fn lemma_shown(f: FoundView, v: Seq<ExhibitView>, n: nat)
    ensures
        in_range(shown_of(f, v, n)),
    decreases n,
{
    if n > 0 {
        lemma_shown(f, v, (n - 1) as nat);
        lemma_items(
            shown_of(f, v, (n - 1) as nat),
            f,
            v[n - 1],
            (n - 1) as nat,
            v[n - 1].pieces.len(),
        );
    }
}

// -------------------------------------------------------------- textures ---

/// What a material is called in the scene.
pub open spec fn material_name(path: Seq<char>) -> Seq<char> {
    "mat_"@ + without_suffixes(base_of(path), ".mat"@)
}

pub fn name_material(path: &str) -> (r: String)
    ensures
        r@ == material_name(path@),
{
    let short = base_text(path);
    let c = chars_of(short.as_str());
    cat("mat_", string_of(trim_suffixes(c.as_slice(), ".mat")).as_str())
}

/// An image to be written beside the scene.
#[verifier::ext_equal]
pub struct TextureView {
    pub name: Seq<char>,
    pub bytes: Seq<u8>,
}

/// The texture of a material: a `.mat` is text and names a `.tobj`; a `.tobj`
/// wraps the path of the image. Whether the alpha is kept goes by the shader.
pub open spec fn texture_at(t: Table, path: Seq<char>) -> Option<TextureView> {
    match file_at(t, unrooted(path)) {
        None => None,
        Some(mat) => {
            let text = utf8_lossy(mat);
            match base_tobj_in(text) {
                None => None,
                Some(tobj) => match file_at(t, unrooted(tobj)) {
                    None => None,
                    Some(wrap) => match image_in(utf8_lossy(wrap)) {
                        None => None,
                        Some(img) => match file_at(t, unrooted(img)) {
                            None => None,
                            Some(b) => Some(
                                TextureView {
                                    name: with_for(unrooted(img), '/', '/', '_'),
                                    bytes: treated("dds"@, b, means_opacity(shader_in(text))).bytes,
                                },
                            ),
                        },
                    },
                },
            }
        },
    }
}

pub struct Texture {
    pub name: String,
    pub bytes: Vec<u8>,
}

impl View for Texture {
    type V = TextureView;

    open spec fn view(&self) -> TextureView {
        TextureView { name: self.name@, bytes: self.bytes@ }
    }
}

/// The texture of a material, read straight out of the archive by path.
pub fn find_texture(fs: &HashFs, path: &str) -> (r: Option<Texture>)
    ensures
        match r {
            Some(x) => texture_at(fs@, path@) == Some(x@),
            None => texture_at(fs@, path@) is None,
        },
{
    let mat = match fs.read_path(path) {
        None => {
            return None;
        },
        Some(b) => b,
    };
    let text = lossy(mat.as_slice());
    let tobj = match base_tobj(text.as_str()) {
        None => {
            return None;
        },
        Some(t) => t,
    };
    let wrap = match fs.read_path(tobj.as_str()) {
        None => {
            return None;
        },
        Some(b) => b,
    };
    let img = match image_path(lossy(wrap.as_slice()).as_str()) {
        None => {
            return None;
        },
        Some(i) => i,
    };
    let bytes = match fs.read_path(img.as_str()) {
        None => {
            return None;
        },
        Some(b) => b,
    };
    let mut look = Material::new();
    look.effect = shader(text.as_str());
    let keep = look.wants_alpha();
    let c = chars_of(img.as_str());
    let name = string_of(replace(unroot(c.as_slice()), '/', '/', '_').as_slice());
    let t = treat("dds", bytes, keep);
    Some(Texture { name, bytes: t.bytes })
}

} // verus!
