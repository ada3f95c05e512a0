//! Getting every file out of a HashFS archive: the directory tree first, then,
//! in deep mode, whatever the files name, then the rest under its hash.

use crate::harvest::{adding_all, harvest_paths, harvested, kind_of, sniff_extension, Names};
use crate::hashfs::{data_of, hash_path, path_hash, Entry, Fault, HashFs, ScsError, Table};
use crate::text::{
    back_trimmed, cat, cat3, chars_of, decimal, digits, lossy, ordered, parts, pieces, rhalves, rsplit_once,
    sort, split, string_of, strip_prefix, texts, trim, trim_back, trimmed, utf8_lossy, write_hex,
    write_usize, zero_padded, after_prefix, Class,
};
use std::collections::{HashMap, HashSet};
use vstd::hash_set::StringHashSet;
use vstd::prelude::*;

verus! {

// ------------------------------------------------------------- listings ---

/// A name inside a folder, as a path.
pub open spec fn joined(p: Seq<char>, name: Seq<char>) -> Seq<char> {
    if p.len() == 0 {
        name
    } else {
        p + "/"@ + name
    }
}

fn join(p: &str, name: &[char]) -> (r: String)
    ensures
        r@ == joined(p@, name@),
{
    let c = chars_of(p);
    if c.len() == 0 {
        string_of(name)
    } else {
        cat3(p, "/", string_of(name).as_str())
    }
}

/// The name on a line of a listing. Names of folders are marked with a star.
/// Where `tight` holds, blanks around the line do not count.
pub open spec fn name_on(line: Seq<char>, tight: bool) -> Seq<char> {
    let cut = back_trimmed(line, Class::Is('\r'));
    if tight {
        trimmed(cut)
    } else {
        cut
    }
}

pub open spec fn unstarred(l: Seq<char>) -> Seq<char> {
    match after_prefix(l, "*"@) {
        Some(s) => s,
        None => l,
    }
}

/// The children that the lines of a folder's listing name.
pub open spec fn children_on(p: Seq<char>, ls: Seq<Seq<char>>, tight: bool) -> Seq<Seq<char>>
    decreases ls.len(),
{
    if ls.len() == 0 {
        Seq::empty()
    } else {
        let rest = children_on(p, ls.drop_last(), tight);
        let l = name_on(ls.last(), tight);
        if l.len() == 0 {
            rest
        } else {
            rest.push(joined(p, unstarred(l)))
        }
    }
}

/// The children that a folder's payload lists.
pub open spec fn children(p: Seq<char>, data: Seq<u8>, tight: bool) -> Seq<Seq<char>> {
    children_on(p, pieces(utf8_lossy(data), '\n'), tight)
}

fn list_children(p: &str, data: &[u8], tight: bool) -> (r: Vec<String>)
    ensures
        texts(r@) == children(p@, data@, tight),
{
    let text = lossy(data);
    let c = chars_of(text.as_str());
    let ls = split(c.as_slice(), '\n');
    let mut r: Vec<String> = Vec::new();
    let mut i: usize = 0;
    let ghost all = pieces(utf8_lossy(data@), '\n');
    assert(texts(r@) =~= children_on(p@, all.take(0), tight));
    while i < ls.len()
        invariant
            i <= ls@.len(),
            parts(ls@) == all,
            texts(r@) == children_on(p@, all.take(i as int), tight),
        decreases ls@.len() - i,
    {
        assert(parts(ls@)[i as int] == ls@[i as int]@);
        assert(all.take(i + 1).drop_last() =~= all.take(i as int));
        let cut = trim_back(ls[i], Class::Is('\r'));
        let l = if tight {
            trim(cut)
        } else {
            cut
        };
        if l.len() > 0 {
            let name = match strip_prefix(l, "*") {
                Some(s) => s,
                None => l,
            };
            let ghost before = texts(r@);
            r.push(join(p, name));
            assert(texts(r@) =~= before.push(joined(p@, unstarred(l@))));
        }
        i = i + 1;
    }
    assert(all.take(i as int) =~= all);
    r
}

// ------------------------------------------------------------- the tree ---

/// How many of the keys have not been seen.
pub open spec fn unseen(order: Seq<u64>, seen: Set<u64>) -> nat
    decreases order.len(),
{
    if order.len() == 0 {
        0
    } else {
        unseen(order.drop_last(), seen) + (if seen.contains(order.last()) {
            0nat
        } else {
            1
        })
    }
}

pub proof fn lemma_unseen(order: Seq<u64>, seen: Set<u64>, h: u64)
    ensures
        unseen(order, seen.insert(h)) <= unseen(order, seen),
        order.contains(h) && !seen.contains(h) ==> unseen(order, seen.insert(h)) < unseen(
            order,
            seen,
        ),
    decreases order.len(),
{
    if order.len() > 0 {
        lemma_unseen(order.drop_last(), seen, h);
        if order.contains(h) && order.last() != h {
            let i = order.index_of(h);
            assert(order.drop_last()[i] == h);
        }
    }
}

/// A walk through the folders: what is still to visit, what has been met, and
/// what was found.
#[verifier::ext_equal]
pub struct Walk {
    pub stack: Seq<Seq<char>>,
    pub seen: Set<u64>,
    pub files: Seq<Seq<char>>,
    pub dirs: Seq<Seq<char>>,
}

/// Where the walk ends. A path that leads nowhere, or to an entry already met,
/// is passed over.
pub open spec fn walked(t: Table, w: Walk) -> Result<Walk, Fault>
    decreases unseen(t.order, w.seen), w.stack.len(),
    when t.wf()
{
    if w.stack.len() == 0 {
        Ok(w)
    } else {
        let p = w.stack.last();
        let h = path_hash(p);
        let rest = w.stack.drop_last();
        if !t.entries.contains_key(h) || w.seen.contains(h) {
            walked(t, Walk { stack: rest, ..w })
        } else {
            proof {
                lemma_unseen(t.order, w.seen, h);
            }
            if t.entries[h].directory() {
                match t.payload(t.entries[h]) {
                    Err(f) => Err(f),
                    Ok(data) => walked(
                        t,
                        Walk {
                            stack: rest + children(p, data, false),
                            seen: w.seen.insert(h),
                            dirs: w.dirs.push(p),
                            ..w
                        },
                    ),
                }
            } else {
                walked(
                    t,
                    Walk { stack: rest, seen: w.seen.insert(h), files: w.files.push(p), ..w },
                )
            }
        }
    }
}

/// A walk begins at the root, the empty path.
pub open spec fn at_root() -> Walk {
    Walk {
        stack: seq![Seq::empty()],
        seen: Set::empty(),
        files: Seq::empty(),
        dirs: Seq::empty(),
    }
}

/// The files and the folders that can be reached from the root, in order.
pub open spec fn tree(t: Table) -> Result<(Seq<Seq<char>>, Seq<Seq<char>>), Fault> {
    match walked(t, at_root()) {
        Ok(w) => Ok((ordered(w.files), ordered(w.dirs))),
        Err(f) => Err(f),
    }
}

pub open spec fn lists(r: Result<(Vec<String>, Vec<String>), ScsError>) -> Result<
    (Seq<Seq<char>>, Seq<Seq<char>>),
    Fault,
> {
    match r {
        Ok(p) => Ok((texts(p.0@), texts(p.1@))),
        Err(e) => Err(e@),
    }
}

impl HashFs {
    /// Walk every path reachable from the archive root.
    pub fn list_tree(&self) -> (r: Result<(Vec<String>, Vec<String>), ScsError>)
        requires
            self.wf(),
        ensures
            lists(r) == tree(self@),
    {
        broadcast use vstd::std_specs::hash::group_hash_axioms;

        let mut files: Vec<String> = Vec::new();
        let mut dirs: Vec<String> = Vec::new();
        let mut seen: HashSet<u64> = HashSet::new();
        let mut stack: Vec<String> = Vec::new();
        stack.push(String::new());
        let ghost mut w = at_root();
        assert(texts(stack@) =~= w.stack);
        assert(texts(files@) =~= w.files);
        assert(texts(dirs@) =~= w.dirs);
        assert(seen@ =~= w.seen);
        while stack.len() > 0
            invariant
                self.wf(),
                w.stack == texts(stack@),
                w.files == texts(files@),
                w.dirs == texts(dirs@),
                w.seen == seen@,
                walked(self@, w) == walked(self@, at_root()),
            decreases unseen(self@.order, seen@), stack@.len(),
        {
            broadcast use vstd::std_specs::hash::group_hash_axioms;

            let ghost was = w;
            let p = match stack.pop() {
                Some(p) => p,
                None => String::new(),
            };
            assert(texts(stack@) =~= was.stack.drop_last());
            assert(p@ == was.stack.last());
            let h: u64 = hash_path(p.as_str());
            let found: Option<Entry> = match self.entries.get(&h) {
                Some(e) => Some(*e),
                None => None,
            };
            match found {
                None => {
                    proof {
                        w = Walk { stack: texts(stack@), ..was };
                    }
                },
                Some(e) => {
                    if seen.contains(&h) {
                        proof {
                            w = Walk { stack: texts(stack@), ..was };
                        }
                    } else {
                        proof {
                            lemma_unseen(self@.order, was.seen, h);
                            assert(self@.entries.contains_key(h));
                        }
                        seen.insert(h);
                        if e.is_dir() {
                            let data = match self.read_entry(&e) {
                                Ok(d) => d,
                                Err(f) => {
                                    return Err(f);
                                },
                            };
                            let found = list_children(p.as_str(), data.as_slice(), false);
                            push_texts(&mut stack, &found);
                            let ghost name = p@;
                            dirs.push(p);
                            assert(texts(dirs@) =~= was.dirs.push(name));
                            proof {
                                w = Walk {
                                    stack: texts(stack@),
                                    seen: seen@,
                                    dirs: texts(dirs@),
                                    ..was
                                };
                            }
                        } else {
                            let ghost name = p@;
                            files.push(p);
                            assert(texts(files@) =~= was.files.push(name));
                            proof {
                                w = Walk {
                                    stack: texts(stack@),
                                    seen: seen@,
                                    files: texts(files@),
                                    ..was
                                };
                            }
                        }
                    }
                },
            }
        }
        Ok((sort(files), sort(dirs)))
    }
}

/// Appends `b` to `a`.
pub(crate) fn push_texts(a: &mut Vec<String>, b: &Vec<String>)
    ensures
        texts(final(a)@) == texts(old(a)@) + texts(b@),
{
    let ghost start = texts(a@);
    let mut i: usize = 0;
    while i < b.len()
        invariant
            i <= b@.len(),
            texts(a@) =~= start + texts(b@).take(i as int),
        decreases b@.len() - i,
    {
        let ghost before = texts(a@);
        a.push(b[i].clone());
        assert(texts(a@) =~= before.push(texts(b@)[i as int]));
        i = i + 1;
    }
    assert(texts(b@).take(i as int) =~= texts(b@));
}

// ----------------------------------------------------------- deep scans ---

/// What scrambled definitions read as, by their entry's key.
pub struct Plain {
    pub texts: HashMap<u64, Vec<u8>>,
}

impl View for Plain {
    type V = Map<u64, Seq<u8>>;

    open spec fn view(&self) -> Map<u64, Seq<u8>> {
        self.texts@.map_values(|v: Vec<u8>| v@)
    }
}

/// What an entry says: its payload, or what that reads as.
pub open spec fn says(t: Table, plain: Map<u64, Seq<u8>>, e: Entry) -> Result<Seq<u8>, Fault> {
    match t.payload(e) {
        Err(f) => Err(f),
        Ok(d) => if plain.contains_key(e.hash) {
            Ok(plain[e.hash])
        } else {
            Ok(d)
        },
    }
}

/// Names gathered so far, or the fault that ended the gathering.
#[verifier::ext_equal]
pub struct Gathered {
    pub names: Seq<Seq<char>>,
    pub fault: Option<Fault>,
}

/// The folder that a path stands in; empty at the root.
pub open spec fn parent(p: Seq<char>) -> Seq<char> {
    match rhalves(p, '/') {
        Some(h) => h.0,
        None => Seq::empty(),
    }
}

/// `g` with what one entry, read as a file of the folder `owner`, names.
pub open spec fn with_entry(
    t: Table,
    plain: Map<u64, Seq<u8>>,
    g: Gathered,
    e: Entry,
    owner: Seq<char>,
) -> Gathered {
    if g.fault is Some {
        g
    } else {
        match says(t, plain, e) {
            Err(f) => Gathered { fault: Some(f), ..g },
            Ok(d) => Gathered { names: adding_all(g.names, harvested(d, owner)), ..g },
        }
    }
}

/// What the entries at the paths `ps` name.
pub open spec fn named_at(t: Table, plain: Map<u64, Seq<u8>>, ps: Seq<Seq<char>>) -> Gathered
    decreases ps.len(),
{
    if ps.len() == 0 {
        Gathered { names: Seq::empty(), fault: None }
    } else {
        let g = named_at(t, plain, ps.drop_last());
        match t.at(ps.last()) {
            None => g,
            Some(e) => with_entry(t, plain, g, e, parent(ps.last())),
        }
    }
}

/// What the files with the keys `ks` name, those in `known` left out.
pub open spec fn named_by(
    t: Table,
    plain: Map<u64, Seq<u8>>,
    ks: Seq<u64>,
    known: Set<u64>,
) -> Gathered
    decreases ks.len(),
{
    if ks.len() == 0 {
        Gathered { names: Seq::empty(), fault: None }
    } else {
        let g = named_by(t, plain, ks.drop_last(), known);
        let h = ks.last();
        if t.entries[h].directory() || known.contains(h) {
            g
        } else {
            with_entry(t, plain, g, t.entries[h], Seq::empty())
        }
    }
}

/// `ds` with the folders above `p`, up to the first that is there already.
pub open spec fn with_parents(ds: Seq<Seq<char>>, p: Seq<char>) -> Seq<Seq<char>>
    decreases p.len(),
{
    match rhalves(p, '/') {
        None => ds,
        Some(h) => if ds.contains(h.0) || h.0.len() >= p.len() {
            ds
        } else {
            with_parents(ds.push(h.0), h.0)
        },
    }
}

pub open spec fn parents_of(ps: Seq<Seq<char>>) -> Seq<Seq<char>>
    decreases ps.len(),
{
    if ps.len() == 0 {
        Seq::empty()
    } else {
        with_parents(parents_of(ps.drop_last()), ps.last())
    }
}

/// What the folders `ds` list, as far as they have entries that can be read.
pub open spec fn listed_in(t: Table, ds: Seq<Seq<char>>) -> Seq<Seq<char>>
    decreases ds.len(),
{
    if ds.len() == 0 {
        Seq::empty()
    } else {
        let rest = listed_in(t, ds.drop_last());
        match t.at(ds.last()) {
            Some(e) => if e.directory() && t.payload(e) is Ok {
                adding_all(rest, children(ds.last(), t.payload(e)->Ok_0, true))
            } else {
                rest
            },
            None => rest,
        }
    }
}

/// How far an extraction has come: the files to write, each as a path and the
/// key of its entry; the keys among them; the names tried; the files whose own
/// content has not been looked through; and the fault that ended it.
#[verifier::ext_equal]
pub struct Haul {
    pub plan: Seq<(Seq<char>, u64)>,
    pub resolved: Set<u64>,
    pub tried: Set<Seq<char>>,
    pub found: Seq<Seq<char>>,
    pub fault: Option<Fault>,
}

pub open spec fn nothing() -> Haul {
    Haul {
        plan: Seq::empty(),
        resolved: Set::empty(),
        tried: Set::empty(),
        found: Seq::empty(),
        fault: None,
    }
}

/// `s` with the entry `e` to be written at `p`, if it can be read.
pub open spec fn taking(t: Table, s: Haul, p: Seq<char>, e: Entry) -> Haul {
    match t.payload(e) {
        Err(f) => Haul { fault: Some(f), ..s },
        Ok(_) => Haul {
            plan: s.plan.push((p, path_hash(p))),
            resolved: s.resolved.insert(path_hash(p)),
            found: s.found.push(p),
            ..s
        },
    }
}

/// The files of the tree.
pub open spec fn with_files(t: Table, files: Seq<Seq<char>>) -> Haul
    decreases files.len(),
{
    if files.len() == 0 {
        nothing()
    } else {
        let s = with_files(t, files.drop_last());
        match t.at(files.last()) {
            Some(e) => if s.fault is None {
                taking(t, s, files.last(), e)
            } else {
                s
            },
            None => s,
        }
    }
}

/// Trying one name: a new one that leads to an entry not yet taken is taken.
/// Where `folders` holds, one that leads to a folder is noted.
pub open spec fn trying(t: Table, s: Haul, p: Seq<char>, folders: bool) -> Haul {
    let n = Haul { tried: s.tried.insert(p), ..s };
    if s.fault is Some || s.tried.contains(p) {
        s
    } else if s.resolved.contains(path_hash(p)) {
        n
    } else {
        match t.at(p) {
            None => n,
            Some(e) => if !e.directory() {
                taking(t, n, p, e)
            } else if folders {
                Haul { found: n.found.push(p), ..n }
            } else {
                n
            },
        }
    }
}

pub open spec fn trying_all(t: Table, s: Haul, ps: Seq<Seq<char>>, folders: bool) -> Haul
    decreases ps.len(),
{
    if ps.len() == 0 {
        s
    } else {
        trying(t, trying_all(t, s, ps.drop_last(), folders), ps.last(), folders)
    }
}

/// The first names of a deep scan come from the entries that the tree never
/// mentions, and from the listings of the folders above what they name.
pub open spec fn seeded(t: Table, plain: Map<u64, Seq<u8>>, s: Haul, files: Seq<Seq<char>>) -> Haul {
    let g = named_by(t, plain, t.order, s.resolved);
    if s.fault is Some {
        s
    } else if g.fault is Some {
        Haul { fault: g.fault, ..s }
    } else {
        trying_all(
            t,
            Haul { found: files, ..s },
            g.names + listed_in(t, parents_of(g.names)),
            true,
        )
    }
}

pub proof fn lemma_trying_shrinks(t: Table, s: Haul, ps: Seq<Seq<char>>)
    requires
        t.wf(),
        s.found.len() == 0,
    ensures
        unseen(t.order, trying_all(t, s, ps, false).resolved) + trying_all(
            t,
            s,
            ps,
            false,
        ).found.len() <= unseen(t.order, s.resolved),
    decreases ps.len(),
{
    if ps.len() > 0 {
        lemma_trying_shrinks(t, s, ps.drop_last());
        let m = trying_all(t, s, ps.drop_last(), false);
        lemma_unseen(t.order, m.resolved, path_hash(ps.last()));
    }
}

/// One round of the scan after another: each looks through what the one before
/// it took, until nothing new is found.
pub open spec fn scanned(t: Table, plain: Map<u64, Seq<u8>>, s: Haul) -> Haul
    decreases unseen(t.order, s.resolved), s.found.len(),
    when t.wf()
{
    if s.fault is Some || s.found.len() == 0 {
        s
    } else {
        let g = named_at(t, plain, s.found);
        if g.fault is Some {
            Haul { fault: g.fault, ..s }
        } else {
            let bare = Haul { found: Seq::empty(), ..s };
            proof {
                lemma_trying_shrinks(t, bare, g.names);
            }
            scanned(t, plain, trying_all(t, bare, g.names, false))
        }
    }
}

/// How many of the files with the keys `ks` have no name yet.
pub open spec fn unnamed(t: Table, ks: Seq<u64>, known: Set<u64>) -> nat
    decreases ks.len(),
{
    if ks.len() == 0 {
        0
    } else {
        let h = ks.last();
        unnamed(t, ks.drop_last(), known) + (if t.entries[h].directory() || known.contains(h) {
            0nat
        } else {
            1
        })
    }
}

/// What each round of a scan from `s` on looks through, and what it recovers if it
/// comes to its end.
pub open spec fn rounds_of(t: Table, plain: Map<u64, Seq<u8>>, s: Haul) -> Seq<(nat, Option<nat>)>
    decreases unseen(t.order, s.resolved), s.found.len(),
    when t.wf()
{
    if s.fault is Some || s.found.len() == 0 {
        Seq::empty()
    } else {
        let g = named_at(t, plain, s.found);
        if g.fault is Some {
            seq![(s.found.len(), None)]
        } else {
            let bare = Haul { found: Seq::empty(), ..s };
            proof {
                lemma_trying_shrinks(t, bare, g.names);
            }
            let n = trying_all(t, bare, g.names, false);
            seq![
                (
                    s.found.len(),
                    if n.fault is Some {
                        None
                    } else {
                        Some(n.found.len())
                    },
                ),
            ] + rounds_of(t, plain, n)
        }
    }
}

/// Where an entry without a name goes.
pub open spec fn nameless(h: u64, data: Seq<u8>) -> Seq<char> {
    "_unknown/"@ + zero_padded(digits(h as nat, 16), 16) + kind_of(data)
}

/// Whatever of the keys `ks` has no name still comes out, under its hash.
pub open spec fn with_rest(t: Table, s: Haul, ks: Seq<u64>) -> Haul
    decreases ks.len(),
{
    if ks.len() == 0 {
        s
    } else {
        let n = with_rest(t, s, ks.drop_last());
        let h = ks.last();
        let e = t.entries[h];
        if n.fault is Some || e.directory() || s.resolved.contains(h) {
            n
        } else {
            match t.payload(e) {
                Err(f) => Haul { fault: Some(f), ..n },
                Ok(d) => Haul { plan: n.plan.push((nameless(h, d), h)), ..n },
            }
        }
    }
}

/// The files by name, before the nameless ones.
pub open spec fn by_name(
    t: Table,
    plain: Map<u64, Seq<u8>>,
    files: Seq<Seq<char>>,
    deep: bool,
) -> Haul {
    let s = with_files(t, files);
    if deep {
        scanned(t, plain, seeded(t, plain, s, files))
    } else {
        s
    }
}

/// An extraction: what to write, in order, and how it ended - with the numbers
/// of files written from the tree, recovered by the scan and dumped by hash, or
/// with a fault.
#[verifier::ext_equal]
pub struct Outcome {
    pub plan: Seq<(Seq<char>, u64)>,
    /// the files without a name that a deep scan reads first
    pub unnamed: nat,
    /// the rounds of the scan
    pub rounds: Seq<(nat, Option<nat>)>,
    pub ending: Result<(nat, nat, nat), Fault>,
}

pub open spec fn extraction(t: Table, plain: Map<u64, Seq<u8>>, deep: bool) -> Outcome {
    match tree(t) {
        Err(f) => Outcome {
            plan: Seq::empty(),
            unnamed: 0,
            rounds: Seq::empty(),
            ending: Err(f),
        },
        Ok(lists) => {
            let first = with_files(t, lists.0);
            let named = by_name(t, plain, lists.0, deep);
            let all = with_rest(t, named, t.order);
            Outcome {
                plan: all.plan,
                unnamed: if deep && first.fault is None {
                    unnamed(t, t.order, first.resolved)
                } else {
                    0
                },
                rounds: if deep {
                    rounds_of(t, plain, seeded(t, plain, first, lists.0))
                } else {
                    Seq::empty()
                },
                ending: match all.fault {
                    Some(f) => Err(f),
                    None => Ok(
                        (
                            first.plan.len(),
                            (named.plan.len() - first.plan.len()) as nat,
                            (all.plan.len() - named.plan.len()) as nat,
                        ),
                    ),
                },
            }
        },
    }
}

// ----------------------------------------------------------- extracting ---

struct Hold {
    plan: Vec<(String, u64)>,
    resolved: HashSet<u64>,
    tried: StringHashSet,
    found: Vec<String>,
    fault: Option<ScsError>,
}

pub open spec fn plan_of(v: Seq<(String, u64)>) -> Seq<(Seq<char>, u64)> {
    Seq::new(v.len(), |i: int| (v[i].0@, v[i].1))
}

pub open spec fn fault_of(f: Option<ScsError>) -> Option<Fault> {
    match f {
        Some(e) => Some(e@),
        None => None,
    }
}

impl View for Hold {
    type V = Haul;

    closed spec fn view(&self) -> Haul {
        Haul {
            plan: plan_of(self.plan@),
            resolved: self.resolved@,
            tried: self.tried@,
            found: texts(self.found@),
            fault: fault_of(self.fault),
        }
    }
}

/// One round of a deep scan: how many files it looks through, and how many it
/// recovers if it comes to its end.
#[derive(Clone, Copy)]
pub struct Round {
    pub files: usize,
    pub recovered: Option<usize>,
}

impl View for Round {
    type V = (nat, Option<nat>);

    open spec fn view(&self) -> (nat, Option<nat>) {
        (
            self.files as nat,
            match self.recovered {
                Some(n) => Some(n as nat),
                None => None,
            },
        )
    }
}

pub open spec fn round_views(v: Seq<Round>) -> Seq<(nat, Option<nat>)> {
    Seq::new(v.len(), |i: int| v[i]@)
}

/// What is said of round `i` of a scan.
pub open spec fn round_notes(i: nat, r: (nat, Option<nat>)) -> Seq<Seq<char>> {
    let head = "deep scan round "@ + decimal(i + 1) + ": "@;
    let first = seq![head + decimal(r.0) + " files to scan"@];
    match r.1 {
        Some(n) => first.push(head + "recovered "@ + decimal(n) + " new files"@),
        None => first,
    }
}

/// What is said of all the rounds.
pub open spec fn rounds_said(v: Seq<(nat, Option<nat>)>) -> Seq<Seq<char>>
    decreases v.len(),
{
    if v.len() == 0 {
        Seq::empty()
    } else {
        rounds_said(v.drop_last()) + round_notes((v.len() - 1) as nat, v.last())
    }
}

/// What is said of a deep scan.
pub open spec fn scan_said(unnamed: nat, rounds: Seq<(nat, Option<nat>)>) -> Seq<Seq<char>> {
    (if unnamed > 0 {
        seq!["deep scan: reading "@ + decimal(unnamed) + " unnamed entries"@]
    } else {
        Seq::empty()
    }) + rounds_said(rounds)
}

pub fn scan_notes(unnamed: usize, rounds: &Vec<Round>) -> (r: Vec<String>)
    ensures
        texts(r@) == scan_said(unnamed as nat, round_views(rounds@)),
{
    let ghost all = round_views(rounds@);
    let mut r: Vec<String> = Vec::new();
    if unnamed > 0 {
        r.push(cat3("deep scan: reading ", write_usize(unnamed).as_str(), " unnamed entries"));
    }
    let ghost first = texts(r@);
    assert(first =~= scan_said(unnamed as nat, Seq::empty()));
    let mut i: usize = 0;
    assert(all.take(0) =~= Seq::<(nat, Option<nat>)>::empty());
    assert(texts(r@) =~= first + rounds_said(all.take(0)));
    while i < rounds.len()
        invariant
            i <= rounds@.len(),
            all == round_views(rounds@),
            texts(r@) == first + rounds_said(all.take(i as int)),
        decreases rounds@.len() - i,
    {
        assert(all.take(i + 1).drop_last() =~= all.take(i as int));
        let ghost before = texts(r@);
        let x = rounds[i];
        assert(all[i as int] == x@);
        let head = cat3("deep scan round ", write_usize(i + 1).as_str(), ": ");
        r.push(cat3(head.as_str(), write_usize(x.files).as_str(), " files to scan"));
        match x.recovered {
            Some(n) => {
                let said = cat(head.as_str(), "recovered ");
                r.push(cat3(said.as_str(), write_usize(n).as_str(), " new files"));
            },
            None => {},
        }
        assert(texts(r@) =~= before + round_notes(i as nat, x@));
        assert(before + round_notes(i as nat, x@) =~= first + rounds_said(all.take(i + 1)));
        i = i + 1;
    }
    assert(all.take(i as int) =~= all);
    r
}

/// What to write, how the scan went, and how the extraction ended.
pub struct Extraction {
    pub plan: Vec<(String, u64)>,
    pub unnamed: usize,
    pub rounds: Vec<Round>,
    pub ending: Result<(usize, usize, usize), ScsError>,
}

impl View for Extraction {
    type V = Outcome;

    open spec fn view(&self) -> Outcome {
        Outcome {
            plan: plan_of(self.plan@),
            unnamed: self.unnamed as nat,
            rounds: round_views(self.rounds@),
            ending: match self.ending {
                Ok(n) => Ok((n.0 as nat, n.1 as nat, n.2 as nat)),
                Err(e) => Err(e@),
            },
        }
    }
}

fn parent_of(p: &str) -> (r: String)
    ensures
        r@ == parent(p@),
{
    let c = chars_of(p);
    match rsplit_once(c.as_slice(), '/') {
        Some((d, _)) => string_of(d),
        None => String::new(),
    }
}

proof fn lemma_parent_shorter(p: Seq<char>)
    ensures
        rhalves(p, '/') matches Some(h) ==> h.0.len() < p.len(),
{
    crate::text::lemma_last_of(p, '/');
}

fn add_parents(p: &str, ds: &mut Names)
    requires
        old(ds).wf(),
    ensures
        final(ds).wf(),
        final(ds)@ == with_parents(old(ds)@, p@),
{
    let ghost start = ds@;
    let mut d = chars_of(p);
    let mut go = true;
    while go
        invariant
            ds.wf(),
            with_parents(start, p@) == (if go {
                with_parents(ds@, d@)
            } else {
                ds@
            }),
        decreases d@.len() + (if go { 1int } else { 0 }),
    {
        proof {
            lemma_parent_shorter(d@);
        }
        match rsplit_once(d.as_slice(), '/') {
            None => {
                go = false;
            },
            Some((up, _)) => {
                let name = string_of(up);
                if ds.add(name.as_str()) {
                    d = chars_of(name.as_str());
                } else {
                    go = false;
                }
            },
        }
    }
}

impl HashFs {
    /// What an entry says, if it can be read.
    fn say(&self, plain: &Plain, e: &Entry) -> (r: Result<Vec<u8>, ScsError>)
        ensures
            data_of(r) == says(self@, plain@, *e),
    {
        broadcast use vstd::std_specs::hash::group_hash_axioms;

        match self.read_entry(e) {
            Err(f) => Err(f),
            Ok(d) => match plain.texts.get(&e.hash) {
                Some(v) => Ok(crate::bytes::copy(v.as_slice())),
                None => Ok(d),
            },
        }
    }

    fn gather(
        &self,
        plain: &Plain,
        names: &mut Names,
        fault: Option<ScsError>,
        e: &Entry,
        owner: &str,
    ) -> (r: Option<ScsError>)
        requires
            old(names).wf(),
        ensures
            final(names).wf(),
            (Gathered { names: final(names)@, fault: fault_of(r) }) == with_entry(
                self@,
                plain@,
                Gathered { names: old(names)@, fault: fault_of(fault) },
                *e,
                owner@,
            ),
    {
        if fault.is_some() {
            return fault;
        }
        match self.say(plain, e) {
            Err(f) => Some(f),
            Ok(d) => {
                harvest_paths(d.as_slice(), owner, names);
                None
            },
        }
    }

    fn names_at(&self, plain: &Plain, ps: &Vec<String>) -> (r: (Names, Option<ScsError>))
        ensures
            r.0.wf(),
            (Gathered { names: r.0@, fault: fault_of(r.1) }) == named_at(
                self@,
                plain@,
                texts(ps@),
            ),
    {
        let mut names = Names::new();
        let mut fault: Option<ScsError> = None;
        let mut i: usize = 0;
        let ghost all = texts(ps@);
        assert(all.take(0) =~= Seq::<Seq<char>>::empty());
        while i < ps.len()
            invariant
                i <= ps@.len(),
                all == texts(ps@),
                names.wf(),
                (Gathered { names: names@, fault: fault_of(fault) }) == named_at(
                    self@,
                    plain@,
                    all.take(i as int),
                ),
            decreases ps@.len() - i,
        {
            assert(all.take(i + 1).drop_last() =~= all.take(i as int));
            match self.entry(ps[i].as_str()) {
                None => {},
                Some(e) => {
                    let owner = parent_of(ps[i].as_str());
                    fault = self.gather(plain, &mut names, fault, &e, owner.as_str());
                },
            }
            i = i + 1;
        }
        assert(all.take(i as int) =~= all);
        (names, fault)
    }

    fn names_by(&self, plain: &Plain, known: &HashSet<u64>) -> (r: (Names, Option<ScsError>))
        requires
            self.wf(),
        ensures
            r.0.wf(),
            (Gathered { names: r.0@, fault: fault_of(r.1) }) == named_by(
                self@,
                plain@,
                self@.order,
                known@,
            ),
    {
        let mut names = Names::new();
        let mut fault: Option<ScsError> = None;
        let mut i: usize = 0;
        let ghost all = self@.order;
        assert(all.take(0) =~= Seq::<u64>::empty());
        while i < self.order.len()
            invariant
                i <= self.order@.len(),
                all == self.order@,
                self.wf(),
                names.wf(),
                (Gathered { names: names@, fault: fault_of(fault) }) == named_by(
                    self@,
                    plain@,
                    all.take(i as int),
                    known@,
                ),
            decreases self.order@.len() - i,
        {
            broadcast use vstd::std_specs::hash::group_hash_axioms;

            assert(all.take(i + 1).drop_last() =~= all.take(i as int));
            let h: u64 = self.order[i];
            let e = self.by_key(h);
            if !e.is_dir() && !known.contains(&h) {
                fault = self.gather(plain, &mut names, fault, &e, "");
                proof {
                    reveal_strlit("");
                    assert(""@ =~= Seq::<char>::empty());
                }
            }
            i = i + 1;
        }
        assert(all.take(i as int) =~= all);
        (names, fault)
    }

    /// The entry of a key in the table.
    fn by_key(&self, h: u64) -> (r: Entry)
        requires
            self.wf(),
            self@.order.contains(h),
        ensures
            r == self@.entries[h],
            r.hash == h,
    {
        broadcast use vstd::std_specs::hash::group_hash_axioms;

        proof {
            assert(self@.entries.contains_key(h));
        }
        match self.entries.get(&h) {
            Some(e) => *e,
            None => Entry { hash: h, offset: 0, flags: 0, size: 0, zsize: 0 },
        }
    }

    fn list_folders(&self, ds: &Vec<String>) -> (r: Names)
        ensures
            r.wf(),
            r@ == listed_in(self@, texts(ds@)),
    {
        let mut names = Names::new();
        let mut i: usize = 0;
        let ghost all = texts(ds@);
        assert(all.take(0) =~= Seq::<Seq<char>>::empty());
        while i < ds.len()
            invariant
                i <= ds@.len(),
                all == texts(ds@),
                names.wf(),
                names@ == listed_in(self@, all.take(i as int)),
            decreases ds@.len() - i,
        {
            assert(all.take(i + 1).drop_last() =~= all.take(i as int));
            match self.entry(ds[i].as_str()) {
                None => {},
                Some(e) => {
                    if e.is_dir() {
                        match self.read_entry(&e) {
                            Err(_) => {},
                            Ok(d) => {
                                let v = list_children(ds[i].as_str(), d.as_slice(), true);
                                names.add_all(&v);
                            },
                        }
                    }
                },
            }
            i = i + 1;
        }
        assert(all.take(i as int) =~= all);
        names
    }

    fn take(&self, s: &mut Hold, p: &str, e: &Entry)
        ensures
            final(s)@ == taking(self@, old(s)@, p@, *e),
    {
        broadcast use vstd::std_specs::hash::group_hash_axioms;

        let ghost was = s@;
        match self.read_entry(e) {
            Err(f) => {
                s.fault = Some(f);
            },
            Ok(_) => {
                let h: u64 = hash_path(p);
                s.plan.push((p.to_owned(), h));
                s.resolved.insert(h);
                s.found.push(p.to_owned());
                assert(plan_of(s.plan@) =~= was.plan.push((p@, h)));
                assert(texts(s.found@) =~= was.found.push(p@));
            },
        }
        assert(s@ =~= taking(self@, was, p@, *e));
    }

    fn try_name(&self, s: &mut Hold, p: &str, folders: bool)
        ensures
            final(s)@ == trying(self@, old(s)@, p@, folders),
    {
        broadcast use vstd::std_specs::hash::group_hash_axioms;

        let ghost was = s@;
        if s.fault.is_some() || s.tried.contains(p) {
            return;
        }
        s.tried.insert(p.to_owned());
        assert(s@ =~= Haul { tried: was.tried.insert(p@), ..was });
        if s.resolved.contains(&hash_path(p)) {
            return;
        }
        match self.entry(p) {
            None => {},
            Some(e) => {
                if !e.is_dir() {
                    self.take(s, p, &e);
                } else if folders {
                    let ghost before = s@;
                    s.found.push(p.to_owned());
                    assert(texts(s.found@) =~= before.found.push(p@));
                    assert(s@ =~= Haul { found: before.found.push(p@), ..before });
                }
            },
        }
    }

    fn try_all(&self, s: &mut Hold, ps: &Vec<String>, folders: bool)
        ensures
            final(s)@ == trying_all(self@, old(s)@, texts(ps@), folders),
    {
        let ghost was = s@;
        let ghost all = texts(ps@);
        let mut i: usize = 0;
        assert(all.take(0) =~= Seq::<Seq<char>>::empty());
        while i < ps.len()
            invariant
                i <= ps@.len(),
                all == texts(ps@),
                s@ == trying_all(self@, was, all.take(i as int), folders),
            decreases ps@.len() - i,
        {
            assert(all.take(i + 1).drop_last() =~= all.take(i as int));
            self.try_name(s, ps[i].as_str(), folders);
            i = i + 1;
        }
        assert(all.take(i as int) =~= all);
    }

    fn take_files(&self, files: &Vec<String>) -> (r: Hold)
        ensures
            r@ == with_files(self@, texts(files@)),
    {
        broadcast use vstd::std_specs::hash::group_hash_axioms;

        let mut s = Hold {
            plan: Vec::new(),
            resolved: HashSet::new(),
            tried: StringHashSet::new(),
            found: Vec::new(),
            fault: None,
        };
        assert(s@ =~= nothing());
        let ghost all = texts(files@);
        let mut i: usize = 0;
        assert(all.take(0) =~= Seq::<Seq<char>>::empty());
        while i < files.len()
            invariant
                i <= files@.len(),
                all == texts(files@),
                s@ == with_files(self@, all.take(i as int)),
            decreases files@.len() - i,
        {
            assert(all.take(i + 1).drop_last() =~= all.take(i as int));
            match self.entry(files[i].as_str()) {
                None => {},
                Some(e) => {
                    if s.fault.is_none() {
                        self.take(&mut s, files[i].as_str(), &e);
                    }
                },
            }
            i = i + 1;
        }
        assert(all.take(i as int) =~= all);
        s
    }

    fn seed(&self, plain: &Plain, s: &mut Hold, files: &Vec<String>)
        requires
            self.wf(),
        ensures
            final(s)@ == seeded(self@, plain@, old(s)@, texts(files@)),
    {
        let ghost was = s@;
        if s.fault.is_some() {
            return;
        }
        let (names, fault) = self.names_by(plain, &s.resolved);
        if fault.is_some() {
            s.fault = fault;
            assert(s@ =~= seeded(self@, plain@, was, texts(files@)));
            return;
        }
        let mut dirs = Names::new();
        let mut i: usize = 0;
        let ghost all = names@;
        assert(all.take(0) =~= Seq::<Seq<char>>::empty());
        while i < names.list.len()
            invariant
                i <= names.list@.len(),
                all == texts(names.list@),
                dirs.wf(),
                dirs@ == parents_of(all.take(i as int)),
            decreases names.list@.len() - i,
        {
            assert(all.take(i + 1).drop_last() =~= all.take(i as int));
            add_parents(names.list[i].as_str(), &mut dirs);
            i = i + 1;
        }
        assert(all.take(i as int) =~= all);
        let listed = self.list_folders(&dirs.list);
        let mut cands = names.list;
        push_texts(&mut cands, &listed.list);
        s.found = crate::text::clone_texts(files);
        assert(s@ =~= Haul { found: texts(files@), ..was });
        self.try_all(s, &cands, true);
    }

    fn count_unnamed(&self, known: &HashSet<u64>) -> (r: usize)
        requires
            self.wf(),
        ensures
            r == unnamed(self@, self@.order, known@),
    {
        let ghost all = self@.order;
        let mut n: usize = 0;
        let mut i: usize = 0;
        assert(all.take(0) =~= Seq::<u64>::empty());
        while i < self.order.len()
            invariant
                i <= self.order@.len(),
                all == self.order@,
                self.wf(),
                n <= i,
                n == unnamed(self@, all.take(i as int), known@),
            decreases self.order@.len() - i,
        {
            broadcast use vstd::std_specs::hash::group_hash_axioms;

            assert(all.take(i + 1).drop_last() =~= all.take(i as int));
            let h: u64 = self.order[i];
            let e = self.by_key(h);
            if !e.is_dir() && !known.contains(&h) {
                n = n + 1;
            }
            i = i + 1;
        }
        assert(all.take(i as int) =~= all);
        n
    }

    fn scan(&self, plain: &Plain, s: &mut Hold) -> (r: Vec<Round>)
        requires
            self.wf(),
        ensures
            final(s)@ == scanned(self@, plain@, old(s)@),
            round_views(r@) == rounds_of(self@, plain@, old(s)@),
    {
        let ghost start = s@;
        let mut rounds: Vec<Round> = Vec::new();
        assert(round_views(rounds@) + rounds_of(self@, plain@, start) =~= rounds_of(
            self@,
            plain@,
            start,
        ));
        while s.fault.is_none() && s.found.len() > 0
            invariant
                self.wf(),
                scanned(self@, plain@, s@) == scanned(self@, plain@, start),
                round_views(rounds@) + rounds_of(self@, plain@, s@) == rounds_of(
                    self@,
                    plain@,
                    start,
                ),
            decreases
                    unseen(self@.order, s@.resolved),
                    s@.found.len(),
                    (if s@.fault is None {
                        1int
                    } else {
                        0
                    }),
        {
            let ghost was = s@;
            let ghost before = round_views(rounds@);
            let files: usize = s.found.len();
            let (names, fault) = self.names_at(plain, &s.found);
            if fault.is_some() {
                s.fault = fault;
                assert(s@ =~= Haul { fault: fault_of(fault), ..was });
                rounds.push(Round { files, recovered: None });
                assert(round_views(rounds@) =~= before + rounds_of(self@, plain@, was));
                assert(round_views(rounds@) + Seq::empty() =~= round_views(rounds@));
            } else {
                s.found = Vec::new();
                let ghost bare = Haul { found: Seq::empty(), ..was };
                assert(s@ =~= bare);
                self.try_all(s, &names.list, false);
                proof {
                    lemma_trying_shrinks(self@, bare, names@);
                }
                let recovered = if s.fault.is_some() {
                    None
                } else {
                    Some(s.found.len())
                };
                let round = Round { files, recovered };
                rounds.push(round);
                assert(round_views(rounds@) =~= before.push(round@));
                assert(before.push(round@) + rounds_of(self@, plain@, s@) =~= before + (seq![round@]
                    + rounds_of(self@, plain@, s@)));
            }
        }
        assert(round_views(rounds@) + Seq::empty() =~= round_views(rounds@));
        rounds
    }

    fn take_rest(&self, s: &mut Hold)
        requires
            self.wf(),
        ensures
            final(s)@ == with_rest(self@, old(s)@, self@.order),
    {
        let ghost start = s@;
        let ghost all = self@.order;
        let mut i: usize = 0;
        assert(all.take(0) =~= Seq::<u64>::empty());
        while i < self.order.len()
            invariant
                i <= self.order@.len(),
                all == self.order@,
                self.wf(),
                s@ == with_rest(self@, start, all.take(i as int)),
                s@.resolved == start.resolved,
            decreases self.order@.len() - i,
        {
            broadcast use vstd::std_specs::hash::group_hash_axioms;

            assert(all.take(i + 1).drop_last() =~= all.take(i as int));
            let ghost was = s@;
            let h: u64 = self.order[i];
            let e = self.by_key(h);
            if s.fault.is_none() && !e.is_dir() && !s.resolved.contains(&h) {
                match self.read_entry(&e) {
                    Err(f) => {
                        s.fault = Some(f);
                        assert(s@ =~= Haul { fault: s@.fault, ..was });
                    },
                    Ok(d) => {
                        let name = cat3(
                            "_unknown/",
                            write_hex(h, 16).as_str(),
                            sniff_extension(d.as_slice()),
                        );
                        s.plan.push((name, h));
                        assert(plan_of(s.plan@) =~= was.plan.push((name@, h)));
                        assert(s@ =~= Haul { plan: was.plan.push((name@, h)), ..was });
                    },
                }
            }
            i = i + 1;
        }
        assert(all.take(i as int) =~= all);
    }

    /// What extracting the archive writes, and how it ends: with the numbers of
    /// files written, recovered by the deep scan and dumped by hash, or with an
    /// error after what was written until then.
    pub fn extract_all(&self, deep: bool, plain: &Plain) -> (r: Extraction)
        requires
            self.wf(),
        ensures
            r@ == extraction(self@, plain@, deep),
    {
        let files = match self.list_tree() {
            Err(e) => {
                let r = Extraction {
                    plan: Vec::new(),
                    unnamed: 0,
                    rounds: Vec::new(),
                    ending: Err(e),
                };
                assert(r@ =~= extraction(self@, plain@, deep));
                return r;
            },
            Ok((files, _)) => files,
        };
        let mut s = self.take_files(&files);
        let written: usize = s.plan.len();
        let mut unnamed: usize = 0;
        let mut rounds: Vec<Round> = Vec::new();
        if deep {
            if s.fault.is_none() {
                unnamed = self.count_unnamed(&s.resolved);
            }
            self.seed(plain, &mut s, &files);
            rounds = self.scan(plain, &mut s);
        }
        assert(!deep ==> round_views(rounds@) =~= Seq::<(nat, Option<nat>)>::empty());
        let named: usize = s.plan.len();
        self.take_rest(&mut s);
        let total: usize = s.plan.len();
        proof {
            let first = with_files(self@, texts(files@));
            lemma_plan_grows(self@, plain@, first, texts(files@));
            lemma_rest_grows(self@, by_name(self@, plain@, texts(files@), deep), self@.order);
        }
        let ending = match s.fault {
            Some(e) => Err(e),
            None => Ok((written, named - written, total - named)),
        };
        let r = Extraction { plan: s.plan, unnamed, rounds, ending };
        assert(r@ =~= extraction(self@, plain@, deep));
        r
    }
}

proof fn lemma_trying_grows(t: Table, s: Haul, ps: Seq<Seq<char>>, folders: bool)
    ensures
        trying_all(t, s, ps, folders).plan.len() >= s.plan.len(),
    decreases ps.len(),
{
    if ps.len() > 0 {
        lemma_trying_grows(t, s, ps.drop_last(), folders);
    }
}

proof fn lemma_scan_grows(t: Table, plain: Map<u64, Seq<u8>>, s: Haul)
    requires
        t.wf(),
    ensures
        scanned(t, plain, s).plan.len() >= s.plan.len(),
    decreases unseen(t.order, s.resolved), s.found.len(),
{
    if s.fault is None && s.found.len() > 0 {
        let g = named_at(t, plain, s.found);
        if g.fault is None {
            let bare = Haul { found: Seq::empty(), ..s };
            lemma_trying_shrinks(t, bare, g.names);
            lemma_trying_grows(t, bare, g.names, false);
            lemma_scan_grows(t, plain, trying_all(t, bare, g.names, false));
        }
    }
}

proof fn lemma_plan_grows(
    t: Table,
    plain: Map<u64, Seq<u8>>,
    s: Haul,
    files: Seq<Seq<char>>,
)
    requires
        t.wf(),
    ensures
        scanned(t, plain, seeded(t, plain, s, files)).plan.len() >= s.plan.len(),
{
    let g = named_by(t, plain, t.order, s.resolved);
    lemma_trying_grows(
        t,
        Haul { found: files, ..s },
        g.names + listed_in(t, parents_of(g.names)),
        true,
    );
    lemma_scan_grows(t, plain, seeded(t, plain, s, files));
}

proof fn lemma_rest_grows(t: Table, s: Haul, ks: Seq<u64>)
    ensures
        with_rest(t, s, ks).plan.len() >= s.plan.len(),
    decreases ks.len(),
{
    if ks.len() > 0 {
        lemma_rest_grows(t, s, ks.drop_last());
    }
}

} // verus!
