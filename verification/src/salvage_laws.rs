//! What holds of every extraction.

use crate::harvest::{adding_all_gives_both, harvested};
use crate::hashfs::{path_hash, Entry, Fault, Table};
use crate::salvage::{
    at_root, by_name, children, extraction, lemma_trying_shrinks, lemma_unseen, listed_in,
    named_at, named_by, nameless, parent, parents_of, says, scanned, seeded, taking, tree, trying,
    trying_all, unseen, walked, with_files, with_rest, Haul, Walk,
};
use crate::text::{ordered, ordered_is_in_order};
use vstd::prelude::*;

verus! {

// ------------------------------------------------------------- the tree ---

/// Whether `p` is among the children that some folder of `dirs` lists.
pub open spec fn child_of_some(t: Table, dirs: Seq<Seq<char>>, p: Seq<char>) -> bool {
    exists|d: Seq<char>| #[trigger] dirs.contains(d) && lists_child(t, d, p)
}

/// Whether the folder at `d` lists `p`.
pub open spec fn lists_child(t: Table, d: Seq<char>, p: Seq<char>) -> bool {
    t.at(d) matches Some(e) && t.payload(e) matches Ok(data) && children(d, data, false).contains(p)
}

/// Whether the entry that `p` leads to, if any, has been met.
pub open spec fn met(t: Table, seen: Set<u64>, p: Seq<char>) -> bool {
    t.entries.contains_key(path_hash(p)) ==> seen.contains(path_hash(p))
}

pub open spec fn found(w: Walk, p: Seq<char>) -> bool {
    w.files.contains(p) || w.dirs.contains(p)
}

spec fn walk_inv(t: Table, w: Walk) -> bool {
    &&& w.stack.contains(Seq::empty()) || met(t, w.seen, Seq::empty())
    &&& forall|d: Seq<char>, p: Seq<char>|
        #![trigger w.dirs.contains(d), lists_child(t, d, p)]
        w.dirs.contains(d) && lists_child(t, d, p) ==> w.stack.contains(p) || met(t, w.seen, p)
    &&& forall|h: u64| #[trigger]
        w.seen.contains(h) ==> exists|p: Seq<char>| #[trigger] found(w, p) && path_hash(p) == h
    &&& forall|p: Seq<char>|
        #![trigger found(w, p)]
        #![trigger w.stack.contains(p)]
        found(w, p) || w.stack.contains(p) ==> p.len() == 0 || child_of_some(t, w.dirs, p)
    &&& forall|p: Seq<char>| #[trigger]
        w.files.contains(p) ==> t.at(p) is Some && !t.at(p)->0.directory() && w.seen.contains(
            path_hash(p),
        )
    &&& forall|p: Seq<char>| #[trigger]
        w.dirs.contains(p) ==> t.at(p) is Some && t.at(p)->0.directory() && w.seen.contains(
            path_hash(p),
        )
    &&& w.files.no_duplicates()
    &&& apart(w.files)
}

/// Whether no two of the paths lead to one key.
pub open spec fn apart(s: Seq<Seq<char>>) -> bool {
    forall|p: Seq<char>, q: Seq<char>|
        #![trigger s.contains(p), s.contains(q)]
        s.contains(p) && s.contains(q) && path_hash(p) == path_hash(q) ==> p == q
}

proof fn lemma_push<A>(s: Seq<A>, x: A)
    ensures
        forall|y: A| #[trigger] s.push(x).contains(y) <==> s.contains(y) || y == x,
{
    assert forall|y: A| #[trigger] s.push(x).contains(y) <==> s.contains(y) || y == x by {
        if s.contains(y) {
            let i = s.index_of(y);
            assert(s.push(x)[i] == y);
        }
        assert(s.push(x)[s.len() as int] == x);
    }
}

proof fn lemma_concat<A>(a: Seq<A>, b: Seq<A>)
    ensures
        forall|y: A| #[trigger] (a + b).contains(y) <==> a.contains(y) || b.contains(y),
{
    assert forall|y: A| #[trigger] (a + b).contains(y) <==> a.contains(y) || b.contains(y) by {
        if a.contains(y) {
            let i = a.index_of(y);
            assert((a + b)[i] == y);
        }
        if b.contains(y) {
            let i = b.index_of(y);
            assert((a + b)[a.len() + i] == y);
        }
        if (a + b).contains(y) {
            let i = (a + b).index_of(y);
            if i < a.len() {
                assert(a[i] == y);
            } else {
                assert(b[i - a.len()] == y);
            }
        }
    }
}

proof fn lemma_popped<A>(s: Seq<A>)
    requires
        s.len() > 0,
    ensures
        forall|y: A| #[trigger] s.contains(y) <==> s.drop_last().contains(y) || y == s.last(),
{
    assert(s =~= s.drop_last().push(s.last()));
    lemma_push(s.drop_last(), s.last());
}

proof fn lemma_child_of_more(t: Table, a: Seq<Seq<char>>, b: Seq<Seq<char>>, p: Seq<char>)
    requires
        child_of_some(t, a, p),
        forall|d: Seq<char>| #[trigger] a.contains(d) ==> b.contains(d),
    ensures
        child_of_some(t, b, p),
{
    let d = choose|d: Seq<char>| #[trigger] a.contains(d) && lists_child(t, d, p);
    assert(b.contains(d));
}

proof fn lemma_skip(t: Table, w: Walk)
    requires
        walk_inv(t, w),
        w.stack.len() > 0,
        met(t, w.seen, w.stack.last()),
    ensures
        walk_inv(t, Walk { stack: w.stack.drop_last(), ..w }),
{
    lemma_popped(w.stack);
    let n = Walk { stack: w.stack.drop_last(), ..w };
    assert forall|h: u64| #[trigger] n.seen.contains(h) implies exists|p: Seq<char>| #[trigger]
        found(n, p) && path_hash(p) == h by {
        let p = choose|p: Seq<char>| #[trigger] found(w, p) && path_hash(p) == h;
        assert(found(n, p));
    }
    assert forall|p: Seq<char>|
        #![trigger found(n, p)]
        #![trigger n.stack.contains(p)]
        found(n, p) || n.stack.contains(p) implies p.len() == 0 || child_of_some(t, n.dirs, p) by {
        assert(found(w, p) || w.stack.contains(p));
    }
}

proof fn lemma_file(t: Table, w: Walk, p: Seq<char>)
    requires
        walk_inv(t, w),
        w.stack.len() > 0,
        p == w.stack.last(),
        t.at(p) is Some,
        !t.at(p)->0.directory(),
        !w.seen.contains(path_hash(p)),
    ensures
        walk_inv(
            t,
            Walk {
                stack: w.stack.drop_last(),
                seen: w.seen.insert(path_hash(p)),
                files: w.files.push(p),
                ..w
            },
        ),
{
    let n = Walk {
        stack: w.stack.drop_last(),
        seen: w.seen.insert(path_hash(p)),
        files: w.files.push(p),
        ..w
    };
    lemma_popped(w.stack);
    lemma_push(w.files, p);
    assert(w.stack.contains(p));
    assert forall|h: u64| #[trigger] n.seen.contains(h) implies exists|q: Seq<char>| #[trigger]
        found(n, q) && path_hash(q) == h by {
        if w.seen.contains(h) {
            let q = choose|q: Seq<char>| #[trigger] found(w, q) && path_hash(q) == h;
            assert(found(n, q));
        } else {
            assert(found(n, p));
        }
    }
    assert forall|q: Seq<char>|
        #![trigger found(n, q)]
        #![trigger n.stack.contains(q)]
        found(n, q) || n.stack.contains(q) implies q.len() == 0 || child_of_some(t, n.dirs, q) by {
        assert(found(w, q) || w.stack.contains(q));
    }
    assert forall|i: int, j: int| 0 <= i < n.files.len() && 0 <= j < n.files.len() && i != j
        implies n.files[i] != n.files[j] by {
        if i == w.files.len() {
            assert(w.files.contains(w.files[j]));
        } else if j == w.files.len() {
            assert(w.files.contains(w.files[i]));
        }
    }
}

proof fn lemma_dir(t: Table, w: Walk, p: Seq<char>, data: Seq<u8>)
    requires
        walk_inv(t, w),
        w.stack.len() > 0,
        p == w.stack.last(),
        t.at(p) is Some,
        t.at(p)->0.directory(),
        t.payload(t.at(p)->0) == Ok::<Seq<u8>, Fault>(data),
        !w.seen.contains(path_hash(p)),
    ensures
        walk_inv(
            t,
            Walk {
                stack: w.stack.drop_last() + children(p, data, false),
                seen: w.seen.insert(path_hash(p)),
                dirs: w.dirs.push(p),
                ..w
            },
        ),
{
    let n = Walk {
        stack: w.stack.drop_last() + children(p, data, false),
        seen: w.seen.insert(path_hash(p)),
        dirs: w.dirs.push(p),
        ..w
    };
    lemma_popped(w.stack);
    lemma_push(w.dirs, p);
    lemma_concat(w.stack.drop_last(), children(p, data, false));
    assert(w.stack.contains(p));
    assert forall|h: u64| #[trigger] n.seen.contains(h) implies exists|q: Seq<char>| #[trigger]
        found(n, q) && path_hash(q) == h by {
        if w.seen.contains(h) {
            let q = choose|q: Seq<char>| #[trigger] found(w, q) && path_hash(q) == h;
            assert(found(n, q));
        } else {
            assert(found(n, p));
        }
    }
    assert forall|q: Seq<char>|
        #![trigger found(n, q)]
        #![trigger n.stack.contains(q)]
        found(n, q) || n.stack.contains(q) implies q.len() == 0 || child_of_some(t, n.dirs, q) by {
        if found(w, q) || w.stack.contains(q) {
            if q.len() > 0 {
                lemma_child_of_more(t, w.dirs, n.dirs, q);
            }
        } else {
            assert(n.dirs.contains(p) && lists_child(t, p, q));
        }
    }
}

proof fn lemma_walked(t: Table, w: Walk)
    requires
        t.wf(),
        walk_inv(t, w),
        walked(t, w) is Ok,
    ensures
        walk_inv(t, walked(t, w)->Ok_0),
        walked(t, w)->Ok_0.stack.len() == 0,
    decreases unseen(t.order, w.seen), w.stack.len(),
{
    if w.stack.len() > 0 {
        let p = w.stack.last();
        let h = path_hash(p);
        let rest = w.stack.drop_last();
        if !t.entries.contains_key(h) || w.seen.contains(h) {
            lemma_skip(t, w);
            lemma_walked(t, Walk { stack: rest, ..w });
        } else {
            lemma_unseen(t.order, w.seen, h);
            if t.entries[h].directory() {
                let data = t.payload(t.entries[h])->Ok_0;
                lemma_dir(t, w, p, data);
                lemma_walked(
                    t,
                    Walk {
                        stack: rest + children(p, data, false),
                        seen: w.seen.insert(h),
                        dirs: w.dirs.push(p),
                        ..w
                    },
                );
            } else {
                lemma_file(t, w, p);
                lemma_walked(
                    t,
                    Walk { stack: rest, seen: w.seen.insert(h), files: w.files.push(p), ..w },
                );
            }
        }
    }
}

proof fn lemma_root(t: Table)
    ensures
        walk_inv(t, at_root()),
{
    let w = at_root();
    assert(w.stack[0] == Seq::<char>::empty());
    assert forall|p: Seq<char>|
        #![trigger found(w, p)]
        #![trigger w.stack.contains(p)]
        found(w, p) || w.stack.contains(p) implies p.len() == 0 || child_of_some(t, w.dirs, p) by {
        if w.stack.contains(p) {
            let i = w.stack.index_of(p);
            assert(w.stack[i] == p);
        }
    }
}

proof fn lemma_same_members(s: Seq<Seq<char>>)
    ensures
        forall|x: Seq<char>| #[trigger] ordered(s).contains(x) <==> s.contains(x),
        s.no_duplicates() ==> ordered(s).no_duplicates(),
{
    ordered_is_in_order(s);
    assert forall|x: Seq<char>| #[trigger] ordered(s).contains(x) <==> s.contains(x) by {
        broadcast use vstd::seq_lib::group_to_multiset_ensures;

        assert(ordered(s).to_multiset().count(x) == s.to_multiset().count(x));
    }
    if s.no_duplicates() {
        s.lemma_multiset_has_no_duplicates();
        ordered(s).lemma_multiset_has_no_duplicates_conv();
    }
}

/// Listing a tree finds exactly what can be reached: the root, if it has an
/// entry; of every folder found, each child that has an entry, under that name
/// or another with the same key; and nothing that no folder found lists.
pub proof fn tree_is_what_can_be_reached(t: Table)
    requires
        t.wf(),
        tree(t) is Ok,
    ensures
        ({
            let files = tree(t)->Ok_0.0;
            let dirs = tree(t)->Ok_0.1;
            &&& t.at(Seq::empty()) is Some ==> exists|q: Seq<char>| #[trigger]
                among(files, dirs, q) && path_hash(q) == path_hash(Seq::empty())
            &&& forall|d: Seq<char>, p: Seq<char>|
                #![trigger dirs.contains(d), lists_child(t, d, p)]
                dirs.contains(d) && lists_child(t, d, p) && t.at(p) is Some ==> exists|
                    q: Seq<char>,
                | #[trigger]
                    among(files, dirs, q) && path_hash(q) == path_hash(p)
            &&& forall|p: Seq<char>| #[trigger]
                among(files, dirs, p) ==> p.len() == 0 || child_of_some(t, dirs, p)
            &&& forall|p: Seq<char>| #[trigger]
                files.contains(p) ==> t.at(p) is Some && !t.at(p)->0.directory()
            &&& forall|p: Seq<char>| #[trigger]
                dirs.contains(p) ==> t.at(p) is Some && t.at(p)->0.directory()
        }),
{
    let w = walked(t, at_root())->Ok_0;
    lemma_root(t);
    lemma_walked(t, at_root());
    lemma_same_members(w.files);
    lemma_same_members(w.dirs);
    let files = tree(t)->Ok_0.0;
    let dirs = tree(t)->Ok_0.1;
    assert forall|h: u64| #[trigger] w.seen.contains(h) implies exists|q: Seq<char>| #[trigger]
        among(files, dirs, q) && path_hash(q) == h by {
        let q = choose|q: Seq<char>| #[trigger] found(w, q) && path_hash(q) == h;
        assert(among(files, dirs, q));
    }
    assert forall|d: Seq<char>, p: Seq<char>|
        #![trigger dirs.contains(d), lists_child(t, d, p)]
        dirs.contains(d) && lists_child(t, d, p) && t.at(p) is Some implies exists|
            q: Seq<char>,
        | #[trigger] among(files, dirs, q) && path_hash(q) == path_hash(p) by {
        assert(w.dirs.contains(d));
        assert(w.seen.contains(path_hash(p)));
    }
    assert forall|p: Seq<char>| #[trigger] among(files, dirs, p) implies p.len() == 0
        || child_of_some(t, dirs, p) by {
        assert(found(w, p));
        if p.len() > 0 {
            lemma_child_of_more(t, w.dirs, dirs, p);
        }
    }
    if t.at(Seq::empty()) is Some {
        assert(w.seen.contains(path_hash(Seq::empty())));
    }
}

pub open spec fn among(files: Seq<Seq<char>>, dirs: Seq<Seq<char>>, p: Seq<char>) -> bool {
    files.contains(p) || dirs.contains(p)
}

// ----------------------------------------------------------- every file ---

/// The keys that a plan writes.
pub open spec fn keys(plan: Seq<(Seq<char>, u64)>) -> Seq<u64> {
    Seq::new(plan.len(), |i: int| plan[i].1)
}

/// Whether the entry of a key is a file.
pub open spec fn is_file(t: Table, h: u64) -> bool {
    t.entries.contains_key(h) && !t.entries[h].directory()
}

spec fn haul_inv(t: Table, s: Haul) -> bool {
    &&& keys(s.plan).no_duplicates()
    &&& forall|h: u64| #[trigger] s.resolved.contains(h) <==> keys(s.plan).contains(h)
    &&& forall|i: int| 0 <= i < s.plan.len() ==> named_well(t, #[trigger] s.plan[i])
}

spec fn named_well(t: Table, w: (Seq<char>, u64)) -> bool {
    path_hash(w.0) == w.1 && is_file(t, w.1)
}

proof fn lemma_keys_push(plan: Seq<(Seq<char>, u64)>, w: (Seq<char>, u64))
    ensures
        keys(plan.push(w)) == keys(plan).push(w.1),
        forall|h: u64| #[trigger]
            keys(plan.push(w)).contains(h) <==> keys(plan).contains(h) || h == w.1,
        keys(plan).no_duplicates() && !keys(plan).contains(w.1) ==> keys(
            plan.push(w),
        ).no_duplicates(),
{
    assert(keys(plan.push(w)) =~= keys(plan).push(w.1));
    lemma_push(keys(plan), w.1);
    if keys(plan).no_duplicates() && !keys(plan).contains(w.1) {
        let k = keys(plan).push(w.1);
        assert forall|i: int, j: int| 0 <= i < k.len() && 0 <= j < k.len() && i != j implies k[i]
            != k[j] by {
            if i == keys(plan).len() {
                assert(keys(plan).contains(keys(plan)[j]));
            } else if j == keys(plan).len() {
                assert(keys(plan).contains(keys(plan)[i]));
            }
        }
    }
}

proof fn lemma_taking(t: Table, s: Haul, p: Seq<char>, e: Entry)
    requires
        haul_inv(t, s),
        !s.resolved.contains(path_hash(p)),
        t.at(p) == Some(e),
        !e.directory(),
    ensures
        haul_inv(t, taking(t, s, p, e)),
{
    let n = taking(t, s, p, e);
    lemma_keys_push(s.plan, (p, path_hash(p)));
    assert forall|i: int| 0 <= i < n.plan.len() implies named_well(t, #[trigger] n.plan[i]) by {
        if i < s.plan.len() {
            assert(named_well(t, s.plan[i]));
        }
    }
}

proof fn lemma_apart_front(s: Seq<Seq<char>>)
    requires
        s.len() > 0,
        s.no_duplicates(),
        apart(s),
    ensures
        s.drop_last().no_duplicates(),
        apart(s.drop_last()),
        forall|q: Seq<char>| #[trigger]
            s.drop_last().contains(q) ==> path_hash(q) != path_hash(s.last()),
{
    let f = s.drop_last();
    assert forall|i: int, j: int| 0 <= i < f.len() && 0 <= j < f.len() && i != j implies f[i]
        != f[j] by {
        assert(s[i] != s[j]);
    }
    lemma_popped(s);
    assert forall|q: Seq<char>| #[trigger] f.contains(q) implies path_hash(q) != path_hash(
        s.last(),
    ) by {
        let i = f.index_of(q);
        assert(s[i] == q && s[i] != s[s.len() - 1]);
        assert(s.contains(q) && s.contains(s.last()));
    }
    assert forall|p: Seq<char>, q: Seq<char>|
        #![trigger f.contains(p), f.contains(q)]
        f.contains(p) && f.contains(q) && path_hash(p) == path_hash(q) implies p == q by {
        assert(s.contains(p) && s.contains(q));
    }
}

spec fn leads_from(files: Seq<Seq<char>>, h: u64) -> bool {
    exists|p: Seq<char>| #[trigger] files.contains(p) && path_hash(p) == h
}

spec fn all_files(t: Table, files: Seq<Seq<char>>) -> bool {
    forall|p: Seq<char>| #[trigger]
        files.contains(p) ==> t.at(p) is Some && !t.at(p)->0.directory()
}

proof fn lemma_files(t: Table, files: Seq<Seq<char>>)
    requires
        files.no_duplicates(),
        apart(files),
        all_files(t, files),
    ensures
        haul_inv(t, with_files(t, files)),
        forall|h: u64| #[trigger]
            with_files(t, files).resolved.contains(h) ==> leads_from(files, h),
    decreases files.len(),
{
    if files.len() > 0 {
        let f = files.drop_last();
        let p = files.last();
        lemma_popped(files);
        lemma_apart_front(files);
        assert forall|q: Seq<char>| #[trigger] f.contains(q) implies t.at(q) is Some && !t.at(
            q,
        )->0.directory() by {
            assert(files.contains(q));
        }
        lemma_files(t, f);
        let s = with_files(t, f);
        assert(files.contains(p));
        if s.resolved.contains(path_hash(p)) {
            assert(leads_from(f, path_hash(p)));
            assert(false);
        }
        if s.fault is None {
            lemma_taking(t, s, p, t.at(p)->0);
        }
        assert forall|h: u64| #[trigger] with_files(t, files).resolved.contains(h) implies leads_from(
            files,
            h,
        ) by {
            if s.resolved.contains(h) {
                let q = choose|q: Seq<char>| #[trigger] f.contains(q) && path_hash(q) == h;
                assert(files.contains(q));
            }
        }
    }
}

proof fn lemma_trying(t: Table, s: Haul, ps: Seq<Seq<char>>, folders: bool)
    requires
        haul_inv(t, s),
    ensures
        haul_inv(t, trying_all(t, s, ps, folders)),
    decreases ps.len(),
{
    if ps.len() > 0 {
        lemma_trying(t, s, ps.drop_last(), folders);
        let m = trying_all(t, s, ps.drop_last(), folders);
        let p = ps.last();
        let n = Haul { tried: m.tried.insert(p), ..m };
        assert(haul_inv(t, n));
        if m.fault is None && !m.tried.contains(p) && !m.resolved.contains(path_hash(p)) {
            if t.at(p) is Some && !t.at(p)->0.directory() {
                lemma_taking(t, n, p, t.at(p)->0);
            }
        }
    }
}

proof fn lemma_scanned(t: Table, plain: Map<u64, Seq<u8>>, s: Haul)
    requires
        t.wf(),
        haul_inv(t, s),
    ensures
        haul_inv(t, scanned(t, plain, s)),
    decreases unseen(t.order, s.resolved), s.found.len(),
{
    if s.fault is None && s.found.len() > 0 {
        let g = named_at(t, plain, s.found);
        if g.fault is None {
            let bare = Haul { found: Seq::empty(), ..s };
            assert(haul_inv(t, bare));
            lemma_trying_shrinks(t, bare, g.names);
            lemma_trying(t, bare, g.names, false);
            lemma_scanned(t, plain, trying_all(t, bare, g.names, false));
        }
    }
}

proof fn lemma_by_name(
    t: Table,
    plain: Map<u64, Seq<u8>>,
    files: Seq<Seq<char>>,
    deep: bool,
)
    requires
        t.wf(),
        haul_inv(t, with_files(t, files)),
    ensures
        haul_inv(t, by_name(t, plain, files, deep)),
{
    let s = with_files(t, files);
    if deep {
        let g = named_by(t, plain, t.order, s.resolved);
        let started = Haul { found: files, ..s };
        assert(haul_inv(t, started));
        lemma_trying(t, started, g.names + listed_in(t, parents_of(g.names)), true);
        assert(haul_inv(t, seeded(t, plain, s, files)));
        lemma_scanned(t, plain, seeded(t, plain, s, files));
    }
}

/// Whether a file goes to the place of a nameless one.
pub open spec fn under_its_hash(t: Table, w: (Seq<char>, u64)) -> bool {
    t.payload(t.entries[w.1]) matches Ok(d) && w.0 == nameless(w.1, d)
}

/// What `with_rest` has added of the keys `ks`.
proof fn lemma_rest(t: Table, s: Haul, ks: Seq<u64>)
    requires
        haul_inv(t, s),
        ks.no_duplicates(),
    ensures
        ({
            let n = with_rest(t, s, ks);
            &&& s.plan.len() <= n.plan.len()
            &&& n.plan.take(s.plan.len() as int) == s.plan
            &&& keys(n.plan).no_duplicates()
            &&& forall|h: u64| #[trigger]
                keys(n.plan).contains(h) ==> keys(s.plan).contains(h) || (ks.contains(h)
                    && !t.entries[h].directory())
            &&& n.fault is None ==> forall|h: u64| #[trigger]
                ks.contains(h) && !t.entries[h].directory() ==> keys(n.plan).contains(h)
            &&& forall|i: int|
                s.plan.len() <= i < n.plan.len() ==> under_its_hash(t, #[trigger] n.plan[i])
            &&& forall|h: u64| #[trigger] keys(s.plan).contains(h) ==> keys(n.plan).contains(h)
        }),
    decreases ks.len(),
{
    if ks.len() == 0 {
        assert(s.plan.take(s.plan.len() as int) =~= s.plan);
    } else {
        let k = ks.drop_last();
        let h = ks.last();
        lemma_popped(ks);
        assert forall|i: int, j: int| 0 <= i < k.len() && 0 <= j < k.len() && i != j implies k[i]
            != k[j] by {
            assert(ks[i] != ks[j]);
        }
        lemma_rest(t, s, k);
        let m = with_rest(t, s, k);
        let n = with_rest(t, s, ks);
        if !(m.fault is Some || t.entries[h].directory() || s.resolved.contains(h)) {
            if let Ok(d) = t.payload(t.entries[h]) {
                assert(!k.contains(h)) by {
                    if k.contains(h) {
                        let i = k.index_of(h);
                        assert(ks[i] == h && ks[ks.len() - 1] == h);
                    }
                }
                lemma_keys_push(m.plan, (nameless(h, d), h));
                assert(n.plan.take(s.plan.len() as int) =~= m.plan.take(s.plan.len() as int));
                assert(n.plan.last().1 == h);
            }
        }
    }
}

spec fn files_of(t: Table) -> Seq<Seq<char>> {
    tree(t)->Ok_0.0
}

proof fn lemma_named(t: Table, plain: Map<u64, Seq<u8>>, deep: bool)
    requires
        t.wf(),
        tree(t) is Ok,
    ensures
        haul_inv(t, by_name(t, plain, files_of(t), deep)),
{
    let w = walked(t, at_root())->Ok_0;
    lemma_root(t);
    lemma_walked(t, at_root());
    lemma_same_members(w.files);
    lemma_files(t, files_of(t));
    lemma_by_name(t, plain, files_of(t), deep);
}

/// An extraction that ends well writes every file of the archive exactly once,
/// and no folder.
pub proof fn every_file_is_written_once(t: Table, plain: Map<u64, Seq<u8>>, deep: bool)
    requires
        t.wf(),
        extraction(t, plain, deep).ending is Ok,
    ensures
        keys(extraction(t, plain, deep).plan).no_duplicates(),
        forall|h: u64| #[trigger]
            keys(extraction(t, plain, deep).plan).contains(h) <==> is_file(t, h),
{
    lemma_named(t, plain, deep);
    let s = by_name(t, plain, files_of(t), deep);
    lemma_rest(t, s, t.order);
    let plan = extraction(t, plain, deep).plan;
    assert forall|h: u64| #[trigger] keys(plan).contains(h) <==> is_file(t, h) by {
        if keys(plan).contains(h) {
            if keys(s.plan).contains(h) {
                let i = keys(s.plan).index_of(h);
                assert(named_well(t, s.plan[i]));
            } else {
                assert(t.entries.contains_key(h));
            }
        }
        if is_file(t, h) {
            assert(t.order.contains(h));
        }
    }
}

/// Everything that is written goes to a path that leads to its entry, or under
/// its hash with the extension that its content speaks for.
pub proof fn files_go_to_their_names(t: Table, plain: Map<u64, Seq<u8>>, deep: bool, i: int)
    requires
        t.wf(),
        0 <= i < extraction(t, plain, deep).plan.len(),
    ensures
        ({
            let w = extraction(t, plain, deep).plan[i];
            ||| path_hash(w.0) == w.1
            ||| under_its_hash(t, w)
        }),
{
    lemma_named(t, plain, deep);
    let s = by_name(t, plain, files_of(t), deep);
    lemma_rest(t, s, t.order);
    let plan = extraction(t, plain, deep).plan;
    if i < s.plan.len() {
        assert(plan.take(s.plan.len() as int)[i] == s.plan[i]);
        assert(named_well(t, s.plan[i]));
    }
}

/// The three numbers that an extraction reports add up to what it writes.
pub proof fn numbers_add_up(t: Table, plain: Map<u64, Seq<u8>>, deep: bool)
    requires
        t.wf(),
    ensures
        extraction(t, plain, deep).ending matches Ok(n) ==> n.0 + n.1 + n.2 == extraction(
            t,
            plain,
            deep,
        ).plan.len(),
{
    if tree(t) is Ok {
        lemma_named(t, plain, deep);
        let s = by_name(t, plain, files_of(t), deep);
        lemma_rest(t, s, t.order);
        lemma_named(t, plain, false);
        if deep {
            lemma_plan_kept(t, plain, with_files(t, files_of(t)), files_of(t));
        }
    }
}

proof fn lemma_trying_kept(t: Table, s: Haul, ps: Seq<Seq<char>>, folders: bool)
    ensures
        s.plan.len() <= trying_all(t, s, ps, folders).plan.len(),
    decreases ps.len(),
{
    if ps.len() > 0 {
        lemma_trying_kept(t, s, ps.drop_last(), folders);
    }
}

proof fn lemma_scan_kept(t: Table, plain: Map<u64, Seq<u8>>, s: Haul)
    requires
        t.wf(),
    ensures
        s.plan.len() <= scanned(t, plain, s).plan.len(),
    decreases unseen(t.order, s.resolved), s.found.len(),
{
    if s.fault is None && s.found.len() > 0 {
        let g = named_at(t, plain, s.found);
        if g.fault is None {
            let bare = Haul { found: Seq::empty(), ..s };
            lemma_trying_shrinks(t, bare, g.names);
            lemma_trying_kept(t, bare, g.names, false);
            lemma_scan_kept(t, plain, trying_all(t, bare, g.names, false));
        }
    }
}

proof fn lemma_plan_kept(t: Table, plain: Map<u64, Seq<u8>>, s: Haul, files: Seq<Seq<char>>)
    requires
        t.wf(),
    ensures
        s.plan.len() <= scanned(t, plain, seeded(t, plain, s, files)).plan.len(),
{
    let g = named_by(t, plain, t.order, s.resolved);
    lemma_trying_kept(
        t,
        Haul { found: files, ..s },
        g.names + listed_in(t, parents_of(g.names)),
        true,
    );
    lemma_scan_kept(t, plain, seeded(t, plain, s, files));
}

// ------------------------------------------------------- the whole scan ---

/// Whether the file that a name leads to, if any, is among the resolved ones.
pub open spec fn settled(t: Table, s: Haul, c: Seq<char>) -> bool {
    t.at(c) matches Some(e) ==> e.directory() || s.resolved.contains(path_hash(c))
}

/// What the file at `p` names.
pub open spec fn names_in(t: Table, plain: Map<u64, Seq<u8>>, p: Seq<char>) -> Seq<Seq<char>> {
    match t.at(p) {
        Some(e) => match says(t, plain, e) {
            Ok(d) => harvested(d, parent(p)),
            Err(_) => Seq::empty(),
        },
        None => Seq::empty(),
    }
}

spec fn covered(t: Table, plain: Map<u64, Seq<u8>>, s: Haul, p: Seq<char>) -> bool {
    forall|c: Seq<char>| #[trigger] names_in(t, plain, p).contains(c) ==> s.tried.contains(c)
}

spec fn scan_inv(t: Table, plain: Map<u64, Seq<u8>>, s: Haul) -> bool {
    &&& forall|c: Seq<char>| #[trigger] s.tried.contains(c) ==> settled(t, s, c)
    &&& forall|i: int|
        0 <= i < s.plan.len() ==> s.found.contains((#[trigger] s.plan[i]).0) || covered(
            t,
            plain,
            s,
            s.plan[i].0,
        )
}

spec fn grown(t: Table, s: Haul, n: Haul) -> bool {
    &&& s.plan.len() <= n.plan.len()
    &&& n.plan.take(s.plan.len() as int) == s.plan
    &&& forall|i: int|
        s.plan.len() <= i < n.plan.len() ==> n.found.contains((#[trigger] n.plan[i]).0)
    &&& forall|p: Seq<char>| #[trigger] s.found.contains(p) ==> n.found.contains(p)
    &&& forall|c: Seq<char>| #[trigger] s.tried.contains(c) ==> n.tried.contains(c)
    &&& forall|h: u64| #[trigger] s.resolved.contains(h) ==> n.resolved.contains(h)
    &&& (forall|c: Seq<char>| #[trigger] s.tried.contains(c) ==> settled(t, s, c)) ==> (forall|
        c: Seq<char>,
    | #[trigger]
        n.tried.contains(c) ==> settled(t, n, c))
}

proof fn lemma_one_try(t: Table, s: Haul, p: Seq<char>, folders: bool)
    requires
        trying(t, s, p, folders).fault is None,
    ensures
        s.fault is None,
        trying(t, s, p, folders).tried.contains(p),
        grown(t, s, trying(t, s, p, folders)),
{
    let n = trying(t, s, p, folders);
    lemma_push(s.found, p);
    assert(s.plan.take(s.plan.len() as int) =~= s.plan);
    assert(n.plan.take(s.plan.len() as int) =~= s.plan);
    if forall|c: Seq<char>| #[trigger] s.tried.contains(c) ==> settled(t, s, c) {
        assert forall|c: Seq<char>| #[trigger] n.tried.contains(c) implies settled(t, n, c) by {
            if s.tried.contains(c) {
                assert(settled(t, s, c));
            }
        }
    }
}

proof fn lemma_tries(t: Table, s: Haul, ps: Seq<Seq<char>>, folders: bool)
    requires
        trying_all(t, s, ps, folders).fault is None,
    ensures
        s.fault is None,
        grown(t, s, trying_all(t, s, ps, folders)),
        forall|p: Seq<char>| #[trigger]
            ps.contains(p) ==> trying_all(t, s, ps, folders).tried.contains(p),
    decreases ps.len(),
{
    if ps.len() == 0 {
        assert(s.plan.take(s.plan.len() as int) =~= s.plan);
    } else {
        let m = trying_all(t, s, ps.drop_last(), folders);
        let n = trying_all(t, s, ps, folders);
        lemma_one_try(t, m, ps.last(), folders);
        lemma_tries(t, s, ps.drop_last(), folders);
        lemma_popped(ps);
        assert(n.plan.take(s.plan.len() as int) =~= m.plan.take(s.plan.len() as int)) by {
            assert forall|i: int| 0 <= i < s.plan.len() implies n.plan[i] == m.plan[i] by {
                assert(n.plan.take(m.plan.len() as int)[i] == n.plan[i]);
            }
        }
        assert forall|i: int| s.plan.len() <= i < n.plan.len() implies n.found.contains(
            (#[trigger] n.plan[i]).0,
        ) by {
            if i < m.plan.len() {
                assert(n.plan.take(m.plan.len() as int)[i] == n.plan[i]);
                assert(m.found.contains(m.plan[i].0));
            }
        }
    }
}

proof fn lemma_gathered(t: Table, plain: Map<u64, Seq<u8>>, ps: Seq<Seq<char>>)
    requires
        named_at(t, plain, ps).fault is None,
    ensures
        forall|p: Seq<char>, c: Seq<char>|
            #![trigger ps.contains(p), names_in(t, plain, p).contains(c)]
            ps.contains(p) && names_in(t, plain, p).contains(c) ==> named_at(
                t,
                plain,
                ps,
            ).names.contains(c),
    decreases ps.len(),
{
    if ps.len() > 0 {
        let g = named_at(t, plain, ps.drop_last());
        let last = ps.last();
        lemma_popped(ps);
        if let Some(e) = t.at(last) {
            if let Ok(d) = says(t, plain, e) {
                adding_all_gives_both(g.names, harvested(d, parent(last)));
            }
        }
        lemma_gathered(t, plain, ps.drop_last());
    }
}

proof fn lemma_round(t: Table, plain: Map<u64, Seq<u8>>, s: Haul, names: Seq<Seq<char>>)
    requires
        scan_inv(t, plain, s),
        forall|p: Seq<char>, c: Seq<char>|
            #![trigger s.found.contains(p), names_in(t, plain, p).contains(c)]
            s.found.contains(p) && names_in(t, plain, p).contains(c) ==> names.contains(c),
        trying_all(t, Haul { found: Seq::empty(), ..s }, names, false).fault is None,
    ensures
        scan_inv(t, plain, trying_all(t, Haul { found: Seq::empty(), ..s }, names, false)),
{
    let bare = Haul { found: Seq::empty(), ..s };
    let n = trying_all(t, bare, names, false);
    lemma_tries(t, bare, names, false);
    assert forall|c: Seq<char>| #[trigger] bare.tried.contains(c) implies settled(t, bare, c) by {
        assert(s.tried.contains(c));
        assert(settled(t, s, c));
    }
    assert forall|i: int| 0 <= i < n.plan.len() implies n.found.contains((#[trigger] n.plan[i]).0)
        || covered(t, plain, n, n.plan[i].0) by {
        if i < s.plan.len() {
            assert(n.plan.take(s.plan.len() as int)[i] == n.plan[i]);
            let p = s.plan[i].0;
            assert(n.plan[i] == s.plan[i]);
            assert(s.found.contains(p) || covered(t, plain, s, p));
            assert forall|c: Seq<char>| #[trigger]
                names_in(t, plain, p).contains(c) implies n.tried.contains(c) by {
                if s.found.contains(p) {
                    assert(names.contains(c));
                } else {
                    assert(bare.tried.contains(c));
                }
            }
        }
    }
}

proof fn lemma_scan_ends(t: Table, plain: Map<u64, Seq<u8>>, s: Haul)
    requires
        t.wf(),
        scan_inv(t, plain, s),
        scanned(t, plain, s).fault is None,
    ensures
        scan_inv(t, plain, scanned(t, plain, s)),
        scanned(t, plain, s).found.len() == 0,
    decreases unseen(t.order, s.resolved), s.found.len(),
{
    if s.fault is None && s.found.len() > 0 {
        let g = named_at(t, plain, s.found);
        if g.fault is None {
            let bare = Haul { found: Seq::empty(), ..s };
            let n = trying_all(t, bare, g.names, false);
            lemma_trying_shrinks(t, bare, g.names);
            lemma_gathered(t, plain, s.found);
            if n.fault is None {
                lemma_round(t, plain, s, g.names);
                lemma_scan_ends(t, plain, n);
            }
        }
    }
}

proof fn lemma_files_found(t: Table, files: Seq<Seq<char>>)
    ensures
        forall|i: int|
            0 <= i < with_files(t, files).plan.len() ==> files.contains(
                (#[trigger] with_files(t, files).plan[i]).0,
            ),
        with_files(t, files).tried == Set::<Seq<char>>::empty(),
    decreases files.len(),
{
    if files.len() > 0 {
        lemma_files_found(t, files.drop_last());
        lemma_popped(files);
        let s = with_files(t, files.drop_last());
        let n = with_files(t, files);
        assert forall|i: int| 0 <= i < n.plan.len() implies files.contains(
            (#[trigger] n.plan[i]).0,
        ) by {
            if i < s.plan.len() {
                assert(files.drop_last().contains(s.plan[i].0));
                assert(files.contains(s.plan[i].0));
            } else {
                assert(files.contains(files.last()));
            }
        }
    }
}

proof fn lemma_tried_stays(t: Table, plain: Map<u64, Seq<u8>>, s: Haul)
    requires
        t.wf(),
        scanned(t, plain, s).fault is None,
    ensures
        forall|c: Seq<char>| #[trigger]
            s.tried.contains(c) ==> scanned(t, plain, s).tried.contains(c),
    decreases unseen(t.order, s.resolved), s.found.len(),
{
    if s.fault is None && s.found.len() > 0 {
        let g = named_at(t, plain, s.found);
        if g.fault is None {
            let bare = Haul { found: Seq::empty(), ..s };
            let n = trying_all(t, bare, g.names, false);
            lemma_trying_shrinks(t, bare, g.names);
            if n.fault is None {
                lemma_tries(t, bare, g.names, false);
                lemma_tried_stays(t, plain, n);
                assert(forall|c: Seq<char>| s.tried.contains(c) ==> bare.tried.contains(c));
            }
        }
    }
}

/// What holds of a deep scan that ends well.
proof fn lemma_deep_scan(t: Table, plain: Map<u64, Seq<u8>>)
    requires
        t.wf(),
        extraction(t, plain, true).ending is Ok,
    ensures
        ({
            let n = by_name(t, plain, files_of(t), true);
            let g = named_by(t, plain, t.order, with_files(t, files_of(t)).resolved);
            &&& haul_inv(t, n)
            &&& scan_inv(t, plain, n)
            &&& n.found.len() == 0
            &&& g.fault is None
            &&& forall|c: Seq<char>| #[trigger] g.names.contains(c) ==> n.tried.contains(c)
        }),
{
    let files = files_of(t);
    let first = with_files(t, files);
    let g = named_by(t, plain, t.order, first.resolved);
    let started = Haul { found: files, ..first };
    let cands = g.names + listed_in(t, parents_of(g.names));
    let s = seeded(t, plain, first, files);
    lemma_named(t, plain, true);
    lemma_no_fault(t, scanned(t, plain, s), t.order);
    lemma_fault_stays(t, plain, s);
    lemma_files_found(t, files);
    lemma_tries(t, started, cands, true);
    assert(scan_inv(t, plain, s)) by {
        assert forall|k: int| 0 <= k < s.plan.len() implies s.found.contains(
            (#[trigger] s.plan[k]).0,
        ) || covered(t, plain, s, s.plan[k].0) by {
            if k < first.plan.len() {
                assert(s.plan.take(first.plan.len() as int)[k] == s.plan[k]);
                assert(files.contains(first.plan[k].0));
                assert(started.found.contains(first.plan[k].0));
            }
        }
    }
    lemma_scan_ends(t, plain, s);
    lemma_tried_stays(t, plain, s);
    assert forall|c: Seq<char>| #[trigger] g.names.contains(c) implies s.tried.contains(c) by {
        assert(cands[g.names.index_of(c)] == c);
        assert(cands.contains(c));
    }
}

/// A deep scan goes on until nothing new turns up: whatever a file that comes
/// out under a name mentions, the file that this leads to, if there is one,
/// comes out under a name too.
pub proof fn deep_scan_follows_every_name(
    t: Table,
    plain: Map<u64, Seq<u8>>,
    i: int,
    c: Seq<char>,
)
    requires
        t.wf(),
        extraction(t, plain, true).ending is Ok,
        0 <= i < by_name(t, plain, tree(t)->Ok_0.0, true).plan.len(),
        names_in(t, plain, by_name(t, plain, tree(t)->Ok_0.0, true).plan[i].0).contains(c),
        t.at(c) is Some,
        !t.at(c)->0.directory(),
    ensures
        keys(by_name(t, plain, tree(t)->Ok_0.0, true).plan).contains(path_hash(c)),
{
    let n = by_name(t, plain, files_of(t), true);
    lemma_deep_scan(t, plain);
    assert(!n.found.contains(n.plan[i].0));
    assert(covered(t, plain, n, n.plan[i].0));
    assert(n.tried.contains(c));
    assert(settled(t, n, c));
}

proof fn lemma_gathered_by_key(
    t: Table,
    plain: Map<u64, Seq<u8>>,
    ks: Seq<u64>,
    known: Set<u64>,
    h: u64,
    c: Seq<char>,
)
    requires
        named_by(t, plain, ks, known).fault is None,
        ks.contains(h),
        !t.entries[h].directory(),
        !known.contains(h),
        says(t, plain, t.entries[h]) matches Ok(d) && harvested(d, Seq::empty()).contains(c),
    ensures
        named_by(t, plain, ks, known).names.contains(c),
    decreases ks.len(),
{
    let g = named_by(t, plain, ks.drop_last(), known);
    let last = ks.last();
    if let Ok(d) = says(t, plain, t.entries[last]) {
        adding_all_gives_both(g.names, harvested(d, Seq::empty()));
    }
    if last != h {
        let i = ks.index_of(h);
        assert(ks.drop_last()[i] == h);
        lemma_gathered_by_key(t, plain, ks.drop_last(), known, h, c);
    }
}

/// A deep scan reads the files that no folder lists too: whatever one of them
/// mentions, the file that this leads to, if there is one, comes out under a name.
pub proof fn deep_scan_reads_nameless_files(
    t: Table,
    plain: Map<u64, Seq<u8>>,
    h: u64,
    c: Seq<char>,
)
    requires
        t.wf(),
        extraction(t, plain, true).ending is Ok,
        is_file(t, h),
        !keys(with_files(t, tree(t)->Ok_0.0).plan).contains(h),
        says(t, plain, t.entries[h]) matches Ok(d) && harvested(d, Seq::empty()).contains(c),
        t.at(c) is Some,
        !t.at(c)->0.directory(),
    ensures
        keys(by_name(t, plain, tree(t)->Ok_0.0, true).plan).contains(path_hash(c)),
{
    let first = with_files(t, files_of(t));
    lemma_deep_scan(t, plain);
    lemma_named(t, plain, false);
    lemma_gathered_by_key(t, plain, t.order, first.resolved, h, c);
    assert(settled(t, by_name(t, plain, files_of(t), true), c));
}

proof fn lemma_no_fault(t: Table, s: Haul, ks: Seq<u64>)
    ensures
        with_rest(t, s, ks).fault is None ==> s.fault is None,
    decreases ks.len(),
{
    if ks.len() > 0 {
        lemma_no_fault(t, s, ks.drop_last());
    }
}

proof fn lemma_fault_stays(t: Table, plain: Map<u64, Seq<u8>>, s: Haul)
    requires
        t.wf(),
    ensures
        scanned(t, plain, s).fault is None ==> s.fault is None,
{
}

} // verus!
