//! Models and their descriptors in an archive without names.
//!
//! A model needs its `.pmd` for the names of its materials, and where neither
//! has a name of its own they are paired by their position in the archive, which
//! is where the packer wrote them together. The counts of pieces and parts that
//! each records on its own are the check that the pairing is right.

use crate::harvest::three;
use crate::hashfs::{HashFs, Table};
use crate::pim::{Model, ModelView};
use crate::pmd::{self, Pmd};
use crate::pmg;
use crate::text::texts;
use vstd::prelude::*;

verus! {

// -------------------------------------------------------------- finding ---

/// A descriptor: its counts and the paths of its materials.
#[verifier::ext_equal]
pub struct DescView {
    pub material_count: usize,
    pub looks: usize,
    pub variants: usize,
    pub pieces: usize,
    pub parts: usize,
    pub materials: Seq<Seq<char>>,
}

pub open spec fn desc_of(d: Pmd) -> DescView {
    DescView {
        material_count: d.material_count,
        looks: d.look_count,
        variants: d.variant_count,
        pieces: d.piece_count,
        parts: d.part_count,
        materials: texts(d.materials@),
    }
}

/// The descriptor that some bytes hold.
pub open spec fn desc_in(b: Seq<u8>) -> DescView {
    DescView {
        material_count: pmd::field(b, 4) as usize,
        looks: pmd::field(b, 8) as usize,
        variants: pmd::field(b, 16) as usize,
        pieces: pmd::field(b, 12) as usize,
        parts: pmd::field(b, 20) as usize,
        materials: Seq::new(
            pmd::field(b, 4) as nat,
            |j: int| pmd::material_path(b, j),
        ),
    }
}

/// What has been found in an archive: models and descriptors, each with its
/// offset.
#[verifier::ext_equal]
pub struct FoundView {
    pub models: Seq<(u64, ModelView)>,
    pub descs: Seq<(u64, DescView)>,
}

/// Whether bytes are marked as the geometry of a model.
pub open spec fn is_geometry(b: Seq<u8>) -> bool {
    b.len() > 4 && three(b, 1, 0x67, 0x6d, 0x50)
}

/// What was found, with the contents of one entry looked at.
pub open spec fn with_blob(f: FoundView, offset: u64, b: Seq<u8>) -> FoundView {
    if is_geometry(b) {
        match pmg::layout(b) {
            Ok(lay) => FoundView {
                models: f.models.push((offset, pmg::model_of(b, lay))),
                ..f
            },
            Err(_) => f,
        }
    } else if pmd::fault(b) is None {
        FoundView { descs: f.descs.push((offset, desc_in(b))), ..f }
    } else {
        f
    }
}

pub open spec fn found_in(t: Table, keys: Seq<u64>) -> FoundView
    decreases keys.len(),
{
    if keys.len() == 0 {
        FoundView { models: Seq::empty(), descs: Seq::empty() }
    } else {
        let f = found_in(t, keys.drop_last());
        let e = t.entries[keys.last()];
        if e.directory() {
            f
        } else {
            match t.payload(e) {
                Ok(b) => with_blob(f, e.offset, b),
                Err(_) => f,
            }
        }
    }
}

pub struct Found {
    pub models: Vec<(u64, Model)>,
    pub descs: Vec<(u64, Pmd)>,
}

pub open spec fn model_views(v: Seq<(u64, Model)>) -> Seq<(u64, ModelView)> {
    Seq::new(v.len(), |i: int| (v[i].0, v[i].1@))
}

pub open spec fn desc_views(v: Seq<(u64, Pmd)>) -> Seq<(u64, DescView)> {
    Seq::new(v.len(), |i: int| (v[i].0, desc_of(v[i].1)))
}

impl View for Found {
    type V = FoundView;

    open spec fn view(&self) -> FoundView {
        FoundView { models: model_views(self.models@), descs: desc_views(self.descs@) }
    }
}

impl Found {
    fn look(&mut self, offset: u64, b: &[u8])
        ensures
            final(self)@ == with_blob(old(self)@, offset, b@),
    {
        let ghost was = self@;
        if b.len() > 4 && b[1] == 0x67 && b[2] == 0x6d && b[3] == 0x50 {
            match pmg::parse_bytes(b) {
                Ok(m) => {
                    let ghost mv = m@;
                    self.models.push((offset, m));
                    assert(model_views(self.models@) =~= was.models.push((offset, mv)));
                    assert(self@ =~= with_blob(was, offset, b@));
                },
                Err(_) => {},
            }
        } else {
            match pmd::parse_bytes(b) {
                Ok(d) => {
                    let ghost dv = desc_of(d);
                    assert(dv =~= desc_in(b@));
                    self.descs.push((offset, d));
                    assert(desc_views(self.descs@) =~= was.descs.push((offset, dv)));
                    assert(self@ =~= with_blob(was, offset, b@));
                },
                Err(_) => {},
            }
        }
    }
}

/// Every model and every descriptor of an archive, in the order of its table.
pub fn find_models(fs: &HashFs) -> (r: Found)
    requires
        fs.wf(),
    ensures
        r@ == found_in(fs@, fs@.order),
{
    broadcast use vstd::std_specs::hash::group_hash_axioms;

    let mut r = Found { models: Vec::new(), descs: Vec::new() };
    let ghost all = fs@.order;
    let mut i: usize = 0;
    assert(all.take(0) =~= Seq::<u64>::empty());
    assert(r@ =~= (FoundView { models: Seq::empty(), descs: Seq::empty() }));
    while i < fs.order.len()
        invariant
            i <= fs.order@.len(),
            fs.wf(),
            all == fs@.order,
            r@ == found_in(fs@, all.take(i as int)),
        decreases fs.order@.len() - i,
    {
        broadcast use vstd::std_specs::hash::group_hash_axioms;

        assert(all.take(i + 1).drop_last() =~= all.take(i as int));
        let key: u64 = fs.order[i];
        assert(all.contains(all[i as int]));
        match fs.entries.get(&key) {
            Some(e) => {
                if !e.is_dir() {
                    match fs.read_entry(e) {
                        Ok(b) => {
                            r.look(e.offset, b.as_slice());
                        },
                        Err(_) => {},
                    }
                }
            },
            None => {
                assert(false);
            },
        }
        i = i + 1;
    }
    assert(all.take(i as int) =~= all);
    r
}

// -------------------------------------------------------------- ranking ---

/// Numbers of things, by what they are ranked by: `i` comes behind those that
/// rank no higher.
pub open spec fn ranked_in(s: Seq<usize>, by: Seq<u64>, i: usize) -> Seq<usize>
    decreases s.len(),
{
    if s.len() == 0 || by[s.last() as int] <= by[i as int] {
        s.push(i)
    } else {
        ranked_in(s.drop_last(), by, i).push(s.last())
    }
}

/// The numbers below `n`, ranked.
pub open spec fn ranking(by: Seq<u64>, n: nat) -> Seq<usize>
    decreases n,
{
    if n == 0 {
        Seq::empty()
    } else {
        ranked_in(ranking(by, (n - 1) as nat), by, (n - 1) as usize)
    }
}

proof fn lemma_ranked_in(s: Seq<usize>, by: Seq<u64>, i: usize, p: int)
    requires
        0 <= p <= s.len(),
        p == 0 || by[s[p - 1] as int] <= by[i as int],
        forall|k: int| p <= k < s.len() ==> by[#[trigger] s[k] as int] > by[i as int],
    ensures
        ranked_in(s, by, i) == s.insert(p, i),
    decreases s.len(),
{
    if p == s.len() {
        assert(s.insert(p, i) =~= s.push(i));
    } else {
        let f = s.drop_last();
        assert(by[s[s.len() - 1] as int] > by[i as int]);
        assert forall|k: int| p <= k < f.len() implies by[#[trigger] f[k] as int] > by[i as int] by {
            assert(f[k] == s[k]);
        }
        lemma_ranked_in(f, by, i, p);
        assert(f.insert(p, i).push(s.last()) =~= s.insert(p, i));
    }
}

proof fn lemma_ranked_below(s: Seq<usize>, by: Seq<u64>, i: usize, n: nat)
    requires
        i < n,
        forall|k: int| 0 <= k < s.len() ==> #[trigger] s[k] < n,
    ensures
        ranked_in(s, by, i).len() == s.len() + 1,
        forall|k: int|
            0 <= k < ranked_in(s, by, i).len() ==> #[trigger] ranked_in(s, by, i)[k] < n,
    decreases s.len(),
{
    if s.len() > 0 && by[s.last() as int] > by[i as int] {
        lemma_ranked_below(s.drop_last(), by, i, n);
    }
}

proof fn lemma_ranking_below(by: Seq<u64>, n: nat)
    requires
        n <= usize::MAX,
    ensures
        ranking(by, n).len() == n,
        forall|k: int| 0 <= k < n ==> #[trigger] ranking(by, n)[k] < n,
    decreases n,
{
    if n > 0 {
        lemma_ranking_below(by, (n - 1) as nat);
        lemma_ranked_below(ranking(by, (n - 1) as nat), by, (n - 1) as usize, n);
    }
}

/// Ranks things: their numbers, from the lowest value to the highest; of equal
/// ones the earlier comes first.
pub fn rank(by: &Vec<u64>) -> (r: Vec<usize>)
    ensures
        r@ == ranking(by@, by@.len()),
        r@.len() == by@.len(),
        forall|k: int| 0 <= k < r@.len() ==> #[trigger] r@[k] < by@.len(),
{
    let mut r: Vec<usize> = Vec::new();
    let mut i: usize = 0;
    while i < by.len()
        invariant
            i <= by@.len(),
            r@ == ranking(by@, i as nat),
            r@.len() == i,
            forall|k: int| 0 <= k < r@.len() ==> #[trigger] r@[k] < i,
        decreases by@.len() - i,
    {
        let mut p: usize = r.len();
        while p > 0 && by[r[p - 1]] > by[i]
            invariant
                p <= r@.len(),
                i < by@.len(),
                forall|k: int| 0 <= k < r@.len() ==> #[trigger] r@[k] < i,
                forall|k: int|
                    p <= k < r@.len() ==> by@[#[trigger] r@[k] as int] > by@[i as int],
            decreases p,
        {
            p = p - 1;
        }
        proof {
            lemma_ranked_in(r@, by@, i, p as int);
            lemma_ranking_below(by@, (i + 1) as nat);
        }
        r.insert(p, i);
        i = i + 1;
    }
    r
}

proof fn lemma_ranked_in_order(s: Seq<usize>, by: Seq<u64>, i: usize)
    requires
        forall|a: int, b: int|
            0 <= a < b < s.len() ==> by[#[trigger] s[a] as int] <= by[#[trigger] s[b] as int],
    ensures
        ({
            let r = ranked_in(s, by, i);
            &&& r.len() == s.len() + 1
            &&& forall|a: int, b: int|
                0 <= a < b < r.len() ==> by[#[trigger] r[a] as int] <= by[#[trigger] r[b] as int]
            &&& forall|a: int|
                0 <= a < r.len() ==> (#[trigger] r[a] == i || exists|b: int|
                    0 <= b < s.len() && r[a] == #[trigger] s[b])
        }),
    decreases s.len(),
{
    let r = ranked_in(s, by, i);
    if s.len() == 0 || by[s.last() as int] <= by[i as int] {
        assert forall|a: int, b: int| 0 <= a < b < r.len() implies by[#[trigger] r[a] as int]
            <= by[#[trigger] r[b] as int] by {
            assert(r[a] == s[a]);
            if b < s.len() {
                assert(r[b] == s[b]);
            } else {
                assert(r[b] == i);
                assert(by[s[a] as int] <= by[s[s.len() - 1] as int]);
            }
        }
        assert forall|a: int| 0 <= a < r.len() implies (#[trigger] r[a] == i || exists|b: int|
            0 <= b < s.len() && r[a] == #[trigger] s[b]) by {
            if a < s.len() {
                assert(r[a] == s[a]);
            }
        }
    } else {
        let f = s.drop_last();
        assert forall|a: int, b: int| 0 <= a < b < f.len() implies by[#[trigger] f[a] as int]
            <= by[#[trigger] f[b] as int] by {
            assert(f[a] == s[a] && f[b] == s[b]);
        }
        lemma_ranked_in_order(f, by, i);
        let q = ranked_in(f, by, i);
        assert forall|a: int| 0 <= a < r.len() implies (#[trigger] r[a] == i || exists|b: int|
            0 <= b < s.len() && r[a] == #[trigger] s[b]) by {
            if a < q.len() {
                assert(r[a] == q[a]);
                if q[a] != i {
                    let b = choose|b: int| 0 <= b < f.len() && q[a] == #[trigger] f[b];
                    assert(s[b] == r[a]);
                }
            } else {
                assert(r[a] == s[s.len() - 1]);
            }
        }
        assert forall|a: int, b: int| 0 <= a < b < r.len() implies by[#[trigger] r[a] as int]
            <= by[#[trigger] r[b] as int] by {
            assert(r[a] == q[a]);
            if b < q.len() {
                assert(r[b] == q[b]);
            } else {
                assert(r[b] == s[s.len() - 1]);
                if q[a] != i {
                    let c = choose|c: int| 0 <= c < f.len() && q[a] == #[trigger] f[c];
                    assert(f[c] == s[c]);
                    assert(by[s[c] as int] <= by[s[s.len() - 1] as int]);
                }
            }
        }
    }
}

/// A ranking goes from the lowest value to the highest.
pub proof fn rankings_rise(by: Seq<u64>, n: nat, a: int, b: int)
    requires
        n <= by.len(),
        n <= usize::MAX,
        0 <= a < b < n,
    ensures
        ranking(by, n).len() == n,
        by[ranking(by, n)[a] as int] <= by[ranking(by, n)[b] as int],
{
    lemma_ranking_rises(by, n);
}

proof fn lemma_ranking_rises(by: Seq<u64>, n: nat)
    requires
        n <= by.len(),
        n <= usize::MAX,
    ensures
        ranking(by, n).len() == n,
        forall|a: int, b: int|
            0 <= a < b < n ==> by[#[trigger] ranking(by, n)[a] as int] <= by[#[trigger] ranking(
                by,
                n,
            )[b] as int],
    decreases n,
{
    if n > 0 {
        lemma_ranking_rises(by, (n - 1) as nat);
        lemma_ranked_in_order(ranking(by, (n - 1) as nat), by, (n - 1) as usize);
    }
}

// -------------------------------------------------------------- nearest ---

/// How far apart two offsets are.
pub open spec fn apart(a: u64, b: u64) -> int {
    if a < b {
        b - a
    } else {
        a - b
    }
}

/// The first of the offsets nearest to one.
pub open spec fn nearest(offsets: Seq<u64>, to: u64) -> Option<int>
    decreases offsets.len(),
{
    if offsets.len() == 0 {
        None
    } else {
        match nearest(offsets.drop_last(), to) {
            None => Some(0int),
            Some(k) => if apart(offsets.last(), to) < apart(offsets[k], to) {
                Some(offsets.len() - 1)
            } else {
                Some(k)
            },
        }
    }
}

fn distance(a: u64, b: u64) -> (r: u64)
    ensures
        r == apart(a, b),
{
    if a < b {
        b - a
    } else {
        a - b
    }
}

proof fn lemma_nearest_in(offsets: Seq<u64>, to: u64)
    ensures
        match nearest(offsets, to) {
            Some(k) => 0 <= k < offsets.len(),
            None => offsets.len() == 0,
        },
    decreases offsets.len(),
{
    if offsets.len() > 0 {
        lemma_nearest_in(offsets.drop_last(), to);
    }
}

pub fn find_nearest(offsets: &Vec<u64>, to: u64) -> (r: Option<usize>)
    ensures
        match r {
            Some(k) => nearest(offsets@, to) == Some(k as int) && k < offsets@.len(),
            None => nearest(offsets@, to) is None,
        },
{
    let mut best: Option<usize> = None;
    let mut i: usize = 0;
    while i < offsets.len()
        invariant
            i <= offsets@.len(),
            match best {
                Some(k) => nearest(offsets@.take(i as int), to) == Some(k as int) && k < i,
                None => nearest(offsets@.take(i as int), to) is None,
            },
        decreases offsets@.len() - i,
    {
        let ghost t = offsets@.take(i + 1);
        assert(t.drop_last() =~= offsets@.take(i as int));
        proof {
            lemma_nearest_in(offsets@.take(i as int), to);
        }
        match best {
            None => {
                best = Some(i);
            },
            Some(k) => {
                if distance(offsets[i], to) < distance(offsets[k], to) {
                    best = Some(i);
                }
            },
        }
        i = i + 1;
    }
    assert(offsets@.take(i as int) =~= offsets@);
    best
}

/// Nothing is nearer than the nearest.
pub proof fn the_nearest_is_nearest(offsets: Seq<u64>, to: u64, i: int)
    requires
        0 <= i < offsets.len(),
    ensures
        nearest(offsets, to) matches Some(k) && 0 <= k < offsets.len() && apart(offsets[k], to)
            <= apart(offsets[i], to),
    decreases offsets.len(),
{
    lemma_nearest_in(offsets, to);
    lemma_nearest_in(offsets.drop_last(), to);
    if i < offsets.len() - 1 {
        assert(offsets.drop_last()[i] == offsets[i]);
        the_nearest_is_nearest(offsets.drop_last(), to, i);
    }
}

} // verus!
