//! Fingerprints of meshes: sets of points in thousandths of a unit.

use vstd::prelude::*;
use vstd::relations::sorted_by;

verus! {

pub type Point = (i32, i32, i32);

/// Whether `a` comes no later than `b`, by the first coordinate that differs.
pub open spec fn no_later(a: Point, b: Point) -> bool {
    a.0 < b.0 || (a.0 == b.0 && (a.1 < b.1 || (a.1 == b.1 && a.2 <= b.2)))
}

/// The points in order.
pub open spec fn in_order(v: Seq<Point>) -> Seq<Point> {
    v.sort_by(|a: Point, b: Point| no_later(a, b))
}

proof fn lemma_total()
    ensures
        vstd::relations::total_ordering(|a: Point, b: Point| no_later(a, b)),
{
    let r = |a: Point, b: Point| no_later(a, b);
    assert forall|a: Point, b: Point, c: Point| #[trigger] r(a, b) && #[trigger] r(b, c) implies r(
        a,
        c,
    ) by {}
    assert forall|a: Point, b: Point| #[trigger] r(a, b) && #[trigger] r(b, a) implies a == b by {}
    assert forall|a: Point, b: Point| #[trigger] r(a, b) || r(b, a) by {}
    assert forall|a: Point| #[trigger] r(a, a) by {}
}

/// The order of a set of points does not depend on how they were laid out.
proof fn lemma_unique(v: Seq<Point>, w: Seq<Point>)
    requires
        sorted_by(w, |a: Point, b: Point| no_later(a, b)),
        v.to_multiset() == w.to_multiset(),
    ensures
        w == in_order(v),
{
    let r = |a: Point, b: Point| no_later(a, b);
    lemma_total();
    v.lemma_sort_by_ensures(r);
    vstd::seq_lib::lemma_sorted_unique(w, in_order(v), r);
}

fn is_no_later(a: Point, b: Point) -> (r: bool)
    ensures
        r == no_later(a, b),
{
    a.0 < b.0 || (a.0 == b.0 && (a.1 < b.1 || (a.1 == b.1 && a.2 <= b.2)))
}

proof fn lemma_append(t: Seq<Point>, x: Point)
    requires
        sorted_by(t, |a: Point, b: Point| no_later(a, b)),
        t.len() > 0 ==> no_later(t.last(), x),
    ensures
        sorted_by(t.push(x), |a: Point, b: Point| no_later(a, b)),
{
    let r = |a: Point, b: Point| no_later(a, b);
    let u = t.push(x);
    assert forall|i: int, j: int| 0 <= i < j < u.len() implies #[trigger] r(u[i], u[j]) by {
        if j < t.len() {
            assert(r(t[i], t[j]));
        } else if i < t.len() - 1 {
            assert(r(t[i], t[t.len() - 1]));
        }
    }
}

proof fn lemma_step(s: Seq<Point>, i: int)
    requires
        sorted_by(s, |a: Point, b: Point| no_later(a, b)),
        0 < i < s.len(),
    ensures
        no_later(s[i - 1], s[i]),
{
    let r = |a: Point, b: Point| no_later(a, b);
    assert(r(s[i - 1], s[i]));
}

fn merge(a: &Vec<Point>, b: &Vec<Point>) -> (r: Vec<Point>)
    requires
        sorted_by(a@, |a: Point, b: Point| no_later(a, b)),
        sorted_by(b@, |a: Point, b: Point| no_later(a, b)),
    ensures
        sorted_by(r@, |a: Point, b: Point| no_later(a, b)),
        r@.to_multiset() == a@.to_multiset().add(b@.to_multiset()),
{
    let mut r: Vec<Point> = Vec::new();
    let mut i: usize = 0;
    let mut j: usize = 0;
    proof {
        broadcast use vstd::seq_lib::group_to_multiset_ensures;
        broadcast use vstd::multiset::group_multiset_axioms;

        assert(a@.take(0) =~= Seq::<Point>::empty());
        assert(b@.take(0) =~= Seq::<Point>::empty());
        assert(r@.to_multiset() =~= a@.take(0).to_multiset().add(b@.take(0).to_multiset()));
    }
    while i < a.len() || j < b.len()
        invariant
            i <= a@.len(),
            j <= b@.len(),
            sorted_by(a@, |a: Point, b: Point| no_later(a, b)),
            sorted_by(b@, |a: Point, b: Point| no_later(a, b)),
            sorted_by(r@, |a: Point, b: Point| no_later(a, b)),
            r@.to_multiset() == a@.take(i as int).to_multiset().add(
                b@.take(j as int).to_multiset(),
            ),
            r@.len() > 0 && i < a@.len() ==> no_later(r@.last(), a@[i as int]),
            r@.len() > 0 && j < b@.len() ==> no_later(r@.last(), b@[j as int]),
        decreases a@.len() - i + b@.len() - j,
    {
        broadcast use vstd::seq_lib::group_to_multiset_ensures;
        broadcast use vstd::multiset::group_multiset_axioms;

        let first = if i >= a.len() {
            false
        } else if j >= b.len() {
            true
        } else {
            is_no_later(a[i], b[j])
        };
        if first {
            proof {
                lemma_append(r@, a@[i as int]);
                assert(a@.take(i + 1) =~= a@.take(i as int).push(a@[i as int]));
                if i + 1 < a@.len() {
                    lemma_step(a@, i + 1);
                }
            }
            r.push(a[i]);
            assert(r@.to_multiset() =~= a@.take(i + 1).to_multiset().add(
                b@.take(j as int).to_multiset(),
            ));
            i = i + 1;
        } else {
            proof {
                lemma_append(r@, b@[j as int]);
                assert(b@.take(j + 1) =~= b@.take(j as int).push(b@[j as int]));
                if j + 1 < b@.len() {
                    lemma_step(b@, j + 1);
                }
            }
            r.push(b[j]);
            assert(r@.to_multiset() =~= a@.take(i as int).to_multiset().add(
                b@.take(j + 1).to_multiset(),
            ));
            j = j + 1;
        }
    }
    assert(a@.take(i as int) =~= a@);
    assert(b@.take(j as int) =~= b@);
    r
}

fn sort_range(v: &Vec<Point>, lo: usize, hi: usize) -> (r: Vec<Point>)
    requires
        lo <= hi <= v@.len(),
    ensures
        sorted_by(r@, |a: Point, b: Point| no_later(a, b)),
        r@.to_multiset() == v@.subrange(lo as int, hi as int).to_multiset(),
    decreases hi - lo,
{
    if hi - lo < 2 {
        let mut r: Vec<Point> = Vec::new();
        if lo < hi {
            r.push(v[lo]);
        }
        assert(r@ =~= v@.subrange(lo as int, hi as int));
        return r;
    }
    let mid: usize = lo + (hi - lo) / 2;
    let a = sort_range(v, lo, mid);
    let b = sort_range(v, mid, hi);
    proof {
        let p = v@.subrange(lo as int, mid as int);
        let q = v@.subrange(mid as int, hi as int);
        assert(v@.subrange(lo as int, hi as int) =~= p + q);
        vstd::seq_lib::lemma_multiset_commutative(p, q);
    }
    merge(&a, &b)
}

/// One step of the hash: a coordinate, sign-extended, mixed in.
pub open spec fn mixed(h: u64, v: i32) -> u64 {
    (h ^ (v as u64)).wrapping_mul(0x100_0000_01b3)
}

/// The hash of the coordinates of points in turn.
pub open spec fn hashed(v: Seq<Point>) -> u64
    decreases v.len(),
{
    if v.len() == 0 {
        0xcbf2_9ce4_8422_2325
    } else {
        let p = v.last();
        mixed(mixed(mixed(hashed(v.drop_last()), p.0), p.1), p.2)
    }
}

/// The fingerprint of a mesh by its vertex set: sorted, not in vertex order,
/// since the same panel can reach a scene with its vertices laid out
/// differently.
pub open spec fn key_of(v: Seq<Point>) -> u64 {
    hashed(in_order(v))
}

/// The same vertices give the same fingerprint, whatever their order.
pub proof fn fingerprints_ignore_vertex_order(a: Seq<Point>, b: Seq<Point>)
    requires
        a.to_multiset() == b.to_multiset(),
    ensures
        key_of(a) == key_of(b),
{
    lemma_total();
    a.lemma_sort_by_ensures(|x: Point, y: Point| no_later(x, y));
    lemma_unique(b, in_order(a));
}

fn mix(h: u64, v: i32) -> (r: u64)
    ensures
        r == mixed(h, v),
{
    (h ^ (v as u64)).wrapping_mul(0x100_0000_01b3)
}

pub fn geometry_key(points: &Vec<Point>) -> (r: u64)
    ensures
        r == key_of(points@),
{
    let v = sort_range(points, 0, points.len());
    proof {
        assert(points@.subrange(0, points@.len() as int) =~= points@);
        lemma_unique(points@, v@);
    }
    let mut h: u64 = 0xcbf2_9ce4_8422_2325;
    let mut i: usize = 0;
    while i < v.len()
        invariant
            i <= v@.len(),
            h == hashed(v@.take(i as int)),
        decreases v@.len() - i,
    {
        assert(v@.take(i + 1).drop_last() =~= v@.take(i as int));
        h = mix(mix(mix(h, v[i].0), v[i].1), v[i].2);
        i = i + 1;
    }
    assert(v@.take(i as int) =~= v@);
    h
}

} // verus!
