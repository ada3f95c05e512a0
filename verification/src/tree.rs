//! A directory tree in memory: what the definition files of an extracted
//! archive say, by path.
//!
//! A path is a list of names from the root of the tree. `..` steps back; empty
//! names and `.` do not count.

use crate::text::{
    cat3, chars_of, equals, lemma_last_of, parts, pieces, rhalves, rsplit_once, same_str, split,
    string_of, texts,
};
use vstd::hash_map::StringHashMap;
use vstd::prelude::*;

verus! {

// ---------------------------------------------------------------- paths ---

/// The names in a slash-separated path that count.
pub open spec fn names_of(v: Seq<Seq<char>>) -> Seq<Seq<char>>
    decreases v.len(),
{
    if v.len() == 0 {
        Seq::empty()
    } else if v.last().len() == 0 || v.last() == "."@ {
        names_of(v.drop_last())
    } else {
        names_of(v.drop_last()).push(v.last())
    }
}

pub open spec fn steps(s: Seq<char>) -> Seq<Seq<char>> {
    names_of(pieces(s, '/'))
}

proof fn lemma_names_of_both(a: Seq<Seq<char>>, b: Seq<Seq<char>>)
    ensures
        names_of(a + b) == names_of(a) + names_of(b),
    decreases b.len(),
{
    if b.len() == 0 {
        assert(a + b =~= a);
        assert(names_of(a + b) =~= names_of(a) + names_of(b));
    } else {
        lemma_names_of_both(a, b.drop_last());
        assert((a + b).drop_last() =~= a + b.drop_last());
        assert(names_of(a + b) =~= names_of(a) + names_of(b));
    }
}

/// Two paths with a slash between them lead through the names of the one and then
/// through those of the other.
pub proof fn joined_paths_are_walked_in_turn(a: Seq<char>, b: Seq<char>)
    ensures
        steps(a + "/"@ + b) == steps(a) + steps(b),
{
    reveal_strlit("/");
    assert(a + "/"@ + b =~= a.push('/') + b);
    crate::text::lemma_pieces_joined(a, b, '/');
    lemma_names_of_both(pieces(a, '/'), pieces(b, '/'));
}

pub fn steps_of(s: &[char]) -> (r: Vec<String>)
    ensures
        texts(r@) == steps(s@),
{
    let v = split(s, '/');
    let mut r: Vec<String> = Vec::new();
    let mut i: usize = 0;
    let ghost all = pieces(s@, '/');
    assert(texts(r@) =~= names_of(all.take(0)));
    while i < v.len()
        invariant
            i <= v@.len(),
            parts(v@) == all,
            texts(r@) == names_of(all.take(i as int)),
        decreases v@.len() - i,
    {
        assert(parts(v@)[i as int] == v@[i as int]@);
        assert(all.take(i + 1).drop_last() =~= all.take(i as int));
        if v[i].len() == 0 || equals(v[i], ".") {
        } else {
            let ghost before = texts(r@);
            r.push(string_of(v[i]));
            assert(texts(r@) =~= before.push(v@[i as int]@));
        }
        i = i + 1;
    }
    assert(all.take(i as int) =~= all);
    r
}

/// `s` as seen from `p`. A path that begins with a slash leads out of the tree.
pub open spec fn within(p: Seq<Seq<char>>, s: Seq<char>) -> Seq<Seq<char>> {
    if s.len() > 0 && s[0] == '/' {
        seq!["/"@] + steps(s)
    } else {
        p + steps(s)
    }
}

pub fn join(p: &Vec<String>, s: &str) -> (r: Vec<String>)
    ensures
        texts(r@) == within(texts(p@), s@),
{
    let c = chars_of(s);
    let more = steps_of(c.as_slice());
    if c.len() > 0 && c[0] == '/' {
        let mut r: Vec<String> = Vec::new();
        r.push("/".to_owned());
        assert(texts(r@) =~= seq!["/"@]);
        crate::salvage::push_texts(&mut r, &more);
        r
    } else {
        let mut r = crate::text::clone_texts(p);
        crate::salvage::push_texts(&mut r, &more);
        r
    }
}

/// A list of names as one text.
pub open spec fn spelled(p: Seq<Seq<char>>) -> Seq<char> {
    crate::text::joined(p, "/"@)
}

/// The folder part of a path; empty at the root.
pub open spec fn folder_of(p: Seq<char>) -> Seq<char> {
    match rhalves(p, '/') {
        Some(h) => h.0,
        None => Seq::empty(),
    }
}

/// The last name of a path.
pub open spec fn base_of(p: Seq<char>) -> Seq<char> {
    match rhalves(p, '/') {
        Some(h) => h.1,
        None => p,
    }
}

pub fn folder_text(p: &str) -> (r: String)
    ensures
        r@ == folder_of(p@),
{
    let c = chars_of(p);
    match rsplit_once(c.as_slice(), '/') {
        Some((d, _)) => string_of(d),
        None => String::new(),
    }
}

pub fn base_text(p: &str) -> (r: String)
    ensures
        r@ == base_of(p@),
{
    let c = chars_of(p);
    match rsplit_once(c.as_slice(), '/') {
        Some((_, b)) => string_of(b),
        None => p.to_owned(),
    }
}

/// A file name without its extension, where that is `ext`. A name that is all
/// extension has none.
pub open spec fn stem_before(name: Seq<char>, ext: Seq<char>) -> Option<Seq<char>> {
    match rhalves(name, '.') {
        Some(h) => if h.0.len() > 0 && h.1 == ext {
            Some(h.0)
        } else {
            None
        },
        None => None,
    }
}

pub fn stem_of(name: &str, ext: &str) -> (r: Option<String>)
    ensures
        crate::text::opt_text(r) == stem_before(name@, ext@),
{
    let c = chars_of(name);
    match rsplit_once(c.as_slice(), '.') {
        Some((a, b)) => if a.len() > 0 && equals(b, ext) {
            Some(string_of(a))
        } else {
            None
        },
        None => None,
    }
}

// ----------------------------------------------------------------- tree ---

/// The files, with their bytes, and the folders of a tree, by path.
pub type Nodes = Seq<(Seq<char>, Option<Seq<u8>>)>;

/// What stands at a path: a file with its bytes, or a folder.
pub open spec fn node_at(t: Nodes, p: Seq<char>) -> Option<
    Option<Seq<u8>>,
>
    decreases t.len(),
{
    if t.len() == 0 {
        None
    } else if t.last().0 == p {
        Some(t.last().1)
    } else {
        node_at(t.drop_last(), p)
    }
}

/// The files and folders of a tree, each path once.
pub struct Tree {
    pub paths: Vec<String>,
    pub data: Vec<Option<Vec<u8>>>,
    pub index: StringHashMap<usize>,
}

pub open spec fn content_of(d: Option<Vec<u8>>) -> Option<Seq<u8>> {
    match d {
        Some(v) => Some(v@),
        None => None,
    }
}

impl View for Tree {
    type V = Seq<(Seq<char>, Option<Seq<u8>>)>;

    open spec fn view(&self) -> Nodes {
        Seq::new(self.paths@.len(), |i: int| (self.paths@[i]@, content_of(self.data@[i])))
    }
}

/// Whether a folder stands at `p`. The root always does.
pub open spec fn is_folder(t: Nodes, p: Seq<char>) -> bool {
    p.len() == 0 || node_at(t, p) == Some(None::<Seq<u8>>)
}

/// A name in a folder, as a path.
pub open spec fn under(d: Seq<char>, name: Seq<char>) -> Seq<char> {
    if d.len() == 0 {
        name
    } else {
        d + "/"@ + name
    }
}

fn under_text(d: &str, name: &str) -> (r: String)
    ensures
        r@ == under(d@, name@),
{
    let c = chars_of(d);
    if c.len() == 0 {
        name.to_owned()
    } else {
        cat3(d, "/", name)
    }
}

/// Where a list of names leads from the folder `from`, each step through a
/// folder that is there.
pub open spec fn located(t: Nodes, from: Seq<char>, p: Seq<Seq<char>>) -> Option<Seq<char>>
    decreases p.len(),
{
    if p.len() == 0 {
        Some(from)
    } else {
        match located(t, from, p.drop_last()) {
            None => None,
            Some(at) => if !is_folder(t, at) {
                None
            } else if p.last() == ".."@ {
                if at.len() == 0 {
                    None
                } else {
                    Some(folder_of(at))
                }
            } else {
                Some(under(at, p.last()))
            },
        }
    }
}

/// The file that a list of names leads to: its place and its bytes.
pub open spec fn file_in(t: Nodes, from: Seq<char>, p: Seq<Seq<char>>) -> Option<
    (Seq<char>, Seq<u8>),
> {
    match located(t, from, p) {
        None => None,
        Some(at) => match node_at(t, at) {
            Some(Some(b)) => Some((at, b)),
            _ => None,
        },
    }
}

/// The names in the folder `d`, of files and of folders.
pub open spec fn names_in(t: Nodes, d: Seq<char>) -> Seq<Seq<char>>
    decreases t.len(),
{
    if t.len() == 0 {
        Seq::empty()
    } else {
        let rest = names_in(t.drop_last(), d);
        if folder_of(t.last().0) == d {
            rest.push(base_of(t.last().0))
        } else {
            rest
        }
    }
}

/// The names in the folder that a list of names leads to; none where it leads
/// to no folder.
pub open spec fn listed(t: Nodes, p: Seq<Seq<char>>) -> Seq<Seq<char>> {
    match located(t, Seq::empty(), p) {
        None => Seq::empty(),
        Some(at) => if is_folder(t, at) {
            names_in(t, at)
        } else {
            Seq::empty()
        },
    }
}

/// Whether a list of names leads to a folder.
pub open spec fn folder_in(t: Nodes, p: Seq<Seq<char>>) -> bool {
    match located(t, Seq::empty(), p) {
        None => false,
        Some(at) => is_folder(t, at),
    }
}

/// `t` with the folder `p` and those above it.
pub open spec fn with_folder(t: Nodes, p: Seq<char>) -> Seq<
    (Seq<char>, Option<Seq<u8>>),
>
    decreases p.len(),
{
    if p.len() == 0 || node_at(t, p) is Some {
        t
    } else {
        proof {
            lemma_last_of(p, '/');
        }
        with_folder(t, folder_of(p)).push((p, None))
    }
}

/// `t` with a file at `p`, in place of none.
pub open spec fn with_file(
    t: Nodes,
    p: Seq<char>,
    b: Seq<u8>,
) -> Nodes {
    if node_at(t, p) is Some {
        t
    } else {
        with_folder(t, folder_of(p)).push((p, Some(b)))
    }
}

proof fn lemma_node_found(t: Nodes, i: int)
    requires
        0 <= i < t.len(),
        forall|a: int, b: int| 0 <= a < b < t.len() ==> (#[trigger] t[a]).0 != (#[trigger] t[b]).0,
    ensures
        node_at(t, t[i].0) == Some(t[i].1),
    decreases t.len(),
{
    if i < t.len() - 1 {
        lemma_node_found(t.drop_last(), i);
        assert(t.drop_last()[i] == t[i]);
        assert(t[i].0 != t[t.len() - 1].0);
    }
}

proof fn lemma_node_missing(t: Nodes, p: Seq<char>)
    ensures
        node_at(t, p) is None <==> forall|i: int| 0 <= i < t.len() ==> (#[trigger] t[i]).0 != p,
    decreases t.len(),
{
    if t.len() > 0 {
        lemma_node_missing(t.drop_last(), p);
        if node_at(t, p) is None {
            assert forall|i: int| 0 <= i < t.len() implies (#[trigger] t[i]).0 != p by {
                if i < t.len() - 1 {
                    assert(t.drop_last()[i] == t[i]);
                }
            }
        } else if t.last().0 != p {
            let j = choose|j: int|
                0 <= j < t.drop_last().len() && (#[trigger] t.drop_last()[j]).0 == p;
            assert(t[j].0 == p);
        }
    }
}

/// A file that was put into a tree is there.
pub proof fn files_put_in_are_there(
    t: Nodes,
    p: Seq<char>,
    b: Seq<u8>,
)
    requires
        node_at(t, p) is None,
    ensures
        node_at(with_file(t, p, b), p) == Some(Some(b)),
{
}

impl Tree {
    pub open spec fn wf(self) -> bool {
        &&& self.paths@.len() == self.data@.len()
        &&& forall|a: int, b: int|
            0 <= a < b < self@.len() ==> (#[trigger] self@[a]).0 != (#[trigger] self@[b]).0
        &&& forall|p: Seq<char>| #[trigger]
            self.index@.contains_key(p) <==> node_at(self@, p) is Some
        &&& forall|p: Seq<char>| #[trigger]
            self.index@.contains_key(p) ==> self.index@[p] < self@.len()
                && self@[self.index@[p] as int].0 == p
    }

    pub fn new() -> (r: Tree)
        ensures
            r.wf(),
            r@ == Seq::<(Seq<char>, Option<Seq<u8>>)>::empty(),
    {
        let r = Tree { paths: Vec::new(), data: Vec::new(), index: StringHashMap::new() };
        assert(r@ =~= Seq::<(Seq<char>, Option<Seq<u8>>)>::empty());
        r
    }

    /// What stands at a path.
    fn find(&self, p: &str) -> (r: Option<usize>)
        requires
            self.wf(),
        ensures
            match r {
                Some(i) => i < self@.len() && node_at(self@, p@) == Some(self@[i as int].1),
                None => node_at(self@, p@) is None,
            },
    {
        match self.index.get(p) {
            Some(i) => {
                proof {
                    lemma_node_found(self@, *i as int);
                }
                Some(*i)
            },
            None => None,
        }
    }

    fn put(&mut self, p: &str, d: Option<Vec<u8>>)
        requires
            old(self).wf(),
            node_at(old(self)@, p@) is None,
        ensures
            final(self).wf(),
            final(self)@ == old(self)@.push((p@, content_of(d))),
    {
        let ghost was = self@;
        let ghost idx = self.index@;
        let n: usize = self.paths.len();
        let ghost c = content_of(d);
        self.paths.push(p.to_owned());
        self.data.push(d);
        self.index.insert(p.to_owned(), n);
        assert(self@ =~= was.push((p@, c)));
        proof {
            lemma_node_missing(was, p@);
            assert(self@.drop_last() =~= was);
            assert forall|q: Seq<char>| #[trigger]
                self.index@.contains_key(q) implies self.index@[q] < self@.len()
                && self@[self.index@[q] as int].0 == q by {
                if q != p@ {
                    assert(idx.contains_key(q));
                    assert(self@[self.index@[q] as int] == was[idx[q] as int]);
                }
            }
            assert forall|q: Seq<char>| #[trigger]
                self.index@.contains_key(q) <==> node_at(self@, q) is Some by {
                if q != p@ {
                    assert(idx.contains_key(q) <==> node_at(was, q) is Some);
                }
            }
            assert forall|a: int, b: int| 0 <= a < b < self@.len() implies (#[trigger] self@[a]).0
                != (#[trigger] self@[b]).0 by {
                if b < was.len() {
                    assert(was[a].0 != was[b].0);
                } else {
                    assert(was[a].0 != p@);
                }
            }
        }
    }

    /// Adds a folder and those above it.
    pub fn add_folder(&mut self, p: &str)
        requires
            old(self).wf(),
        ensures
            final(self).wf(),
            final(self)@ == with_folder(old(self)@, p@),
        decreases p@.len(),
    {
        let c = chars_of(p);
        if c.len() == 0 {
            return;
        }
        match self.find(p) {
            Some(_) => {},
            None => {
                let up = folder_text(p);
                proof {
                    lemma_last_of(p@, '/');
                }
                let ghost was = self@;
                self.add_folder(up.as_str());
                proof {
                    lemma_folder_keeps(was, up@, p@);
                }
                self.put(p, None);
            },
        }
    }

    /// Adds a file and the folders above it. The bytes of a scrambled definition must
    /// come decoded: nothing that reads the tree undoes the scrambling.
    pub fn add_file(&mut self, p: &str, data: Vec<u8>)
        requires
            old(self).wf(),
        ensures
            final(self).wf(),
            final(self)@ == with_file(old(self)@, p@, data@),
    {
        match self.find(p) {
            Some(_) => {},
            None => {
                let up = folder_text(p);
                let ghost was = self@;
                self.add_folder(up.as_str());
                proof {
                    lemma_last_of(p@, '/');
                    lemma_folder_keeps(was, up@, p@);
                }
                self.put(p, Some(data));
            },
        }
    }

    fn has_folder(&self, p: &str) -> (r: bool)
        requires
            self.wf(),
        ensures
            r == is_folder(self@, p@),
    {
        let c = chars_of(p);
        if c.len() == 0 {
            return true;
        }
        match self.find(p) {
            Some(i) => self.data[i].is_none(),
            None => false,
        }
    }

    pub fn locate(&self, from: &str, p: &Vec<String>) -> (r: Option<String>)
        requires
            self.wf(),
        ensures
            crate::text::opt_text(r) == located(self@, from@, texts(p@)),
    {
        let mut at = from.to_owned();
        let mut lost = false;
        let ghost all = texts(p@);
        let mut i: usize = 0;
        assert(all.take(0) =~= Seq::<Seq<char>>::empty());
        while i < p.len()
            invariant
                i <= p@.len(),
                all == texts(p@),
                self.wf(),
                located(self@, from@, all.take(i as int)) == (if lost {
                    None
                } else {
                    Some(at@)
                }),
            decreases p@.len() - i,
        {
            assert(all.take(i + 1).drop_last() =~= all.take(i as int));
            if !lost {
                let c = chars_of(at.as_str());
                if !self.has_folder(at.as_str()) {
                    lost = true;
                } else if same_str(p[i].as_str(), "..") {
                    if c.len() == 0 {
                        lost = true;
                    } else {
                        at = folder_text(at.as_str());
                    }
                } else {
                    at = under_text(at.as_str(), p[i].as_str());
                }
            }
            i = i + 1;
        }
        assert(all.take(i as int) =~= all);
        if lost {
            None
        } else {
            Some(at)
        }
    }

    /// The file that a list of names leads to.
    pub fn read(&self, from: &str, p: &Vec<String>) -> (r: Option<(String, &Vec<u8>)>)
        requires
            self.wf(),
        ensures
            match r {
                Some(f) => file_in(self@, from@, texts(p@)) == Some((f.0@, f.1@)),
                None => file_in(self@, from@, texts(p@)) is None,
            },
    {
        match self.locate(from, p) {
            None => None,
            Some(at) => match self.find(at.as_str()) {
                None => None,
                Some(i) => match &self.data[i] {
                    Some(b) => Some((at, b)),
                    None => None,
                },
            },
        }
    }

    /// The bytes of the file at a path.
    pub fn bytes_at(&self, at: &str) -> (r: Option<&Vec<u8>>)
        requires
            self.wf(),
        ensures
            match r {
                Some(b) => node_at(self@, at@) == Some(Some(b@)),
                None => !(node_at(self@, at@) matches Some(Some(_))),
            },
    {
        match self.find(at) {
            None => None,
            Some(i) => match &self.data[i] {
                Some(b) => Some(b),
                None => None,
            },
        }
    }

    pub fn is_folder(&self, p: &Vec<String>) -> (r: bool)
        requires
            self.wf(),
        ensures
            r == folder_in(self@, texts(p@)),
    {
        match self.locate(root(), p) {
            None => false,
            Some(at) => self.has_folder(at.as_str()),
        }
    }

    /// The names in a folder.
    pub fn list(&self, p: &Vec<String>) -> (r: Vec<String>)
        requires
            self.wf(),
        ensures
            texts(r@) == listed(self@, texts(p@)),
    {
        let mut r: Vec<String> = Vec::new();
        assert(texts(r@) =~= Seq::<Seq<char>>::empty());
        match self.locate(root(), p) {
            None => {},
            Some(here) => {
                if self.has_folder(here.as_str()) {
                    let mut i: usize = 0;
                    let ghost all = self@;
                    assert(texts(r@) =~= names_in(all.take(0), here@));
                    while i < self.paths.len()
                        invariant
                            i <= self.paths@.len(),
                            all == self@,
                            texts(r@) == names_in(all.take(i as int), here@),
                        decreases self.paths@.len() - i,
                    {
                        assert(all.take(i + 1).drop_last() =~= all.take(i as int));
                        let up = folder_text(self.paths[i].as_str());
                        if same_str(up.as_str(), here.as_str()) {
                            let ghost before = texts(r@);
                            r.push(base_text(self.paths[i].as_str()));
                            assert(texts(r@) =~= before.push(base_of(all[i as int].0)));
                        }
                        i = i + 1;
                    }
                    assert(all.take(i as int) =~= all);
                }
            },
        }
        r
    }
}

/// The root of a tree, as a path.
pub fn root() -> (r: &'static str)
    ensures
        r@ == Seq::<char>::empty(),
{
    proof {
        reveal_strlit("");
        assert(""@ =~= Seq::<char>::empty());
    }
    ""
}

/// Adding the folders above `p` does not put anything at `p` itself.
proof fn lemma_folder_keeps(t: Nodes, d: Seq<char>, p: Seq<char>)
    requires
        node_at(t, p) is None,
        d.len() < p.len() || d == folder_of(p) && p.len() == 0,
    ensures
        node_at(with_folder(t, d), p) is None,
    decreases d.len(),
{
    if !(d.len() == 0 || node_at(t, d) is Some) {
        lemma_last_of(d, '/');
        lemma_folder_keeps(t, folder_of(d), p);
        let u = with_folder(t, folder_of(d));
        assert(u.push((d, None)).drop_last() =~= u);
    }
}

} // verus!
