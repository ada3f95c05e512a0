//! Enough of the `.sii` definition format to work out how a vehicle is
//! assembled.
//!
//! A vehicle is not one model. `data.sii` lists `require[]` accessory slots; the
//! chosen cabin and chassis then name a specific shape per slot via
//! `defaults[]`, and each shape .sii points at the actual model through
//! `exterior_model` / `interior_model`. Resolving that graph is the difference
//! between a bare body shell and a complete bus.

use crate::text::{
    after_prefix, back_trimmed, before_suffix, begins, chars_of, clone_texts, front_trimmed,
    halves, has_char, lines, lossy, opt_str, parts, split_lines, split_once, string_of,
    strip_prefix, strip_suffix, texts, trim, trim_back, trim_front, trimmed, unroot, unrooted,
    utf8_lossy, Class,
};
use crate::tree::{file_in, folder_of, node_at, root, steps, steps_of, Nodes, Tree};
use vstd::hash_map::StringHashMap;
use vstd::prelude::*;

verus! {

// ---------------------------------------------------------------- units ---

/// What definitions say: the value of each key, the keys in the order they came,
/// and the items of each list.
#[verifier::ext_equal]
pub struct Defs {
    pub keys: Map<Seq<char>, Seq<char>>,
    pub order: Seq<Seq<char>>,
    pub lists: Map<Seq<char>, Seq<Seq<char>>>,
}

impl Defs {
    pub open spec fn nothing() -> Defs {
        Defs { keys: Map::empty(), order: Seq::empty(), lists: Map::empty() }
    }

    pub open spec fn get(self, k: Seq<char>) -> Option<Seq<char>> {
        if self.keys.contains_key(k) {
            Some(self.keys[k])
        } else {
            None
        }
    }

    pub open spec fn list(self, k: Seq<char>) -> Seq<Seq<char>> {
        if self.lists.contains_key(k) {
            self.lists[k]
        } else {
            Seq::empty()
        }
    }

    /// The first value of a key counts.
    pub open spec fn with_key(self, k: Seq<char>, v: Seq<char>) -> Defs {
        if self.keys.contains_key(k) {
            self
        } else {
            Defs { keys: self.keys.insert(k, v), order: self.order.push(k), ..self }
        }
    }

    pub open spec fn with_item(self, k: Seq<char>, v: Seq<char>) -> Defs {
        Defs { lists: self.lists.insert(k, self.list(k).push(v)), ..self }
    }
}

/// One definition file, with what it includes.
pub struct SiiUnit {
    pub path: String,
    pub keys: StringHashMap<String>,
    /// the names of the keys, in the order they came
    pub order: Vec<String>,
    pub lists: StringHashMap<Vec<String>>,
    /// the list that is not there
    pub nothing: Vec<String>,
}

#[verifier::ext_equal]
pub struct UnitView {
    pub path: Seq<char>,
    pub defs: Defs,
}

pub open spec fn string_map(m: Map<Seq<char>, String>) -> Map<Seq<char>, Seq<char>> {
    m.map_values(|s: String| s@)
}

pub open spec fn list_map(m: Map<Seq<char>, Vec<String>>) -> Map<Seq<char>, Seq<Seq<char>>> {
    m.map_values(|v: Vec<String>| texts(v@))
}

impl View for SiiUnit {
    type V = UnitView;

    open spec fn view(&self) -> UnitView {
        UnitView {
            path: self.path@,
            defs: Defs {
                keys: string_map(self.keys@),
                order: texts(self.order@),
                lists: list_map(self.lists@),
            },
        }
    }
}

impl SiiUnit {
    pub open spec fn wf(self) -> bool {
        &&& self.nothing@.len() == 0
        &&& forall|k: Seq<char>| #[trigger]
            self@.defs.order.contains(k) ==> self@.defs.keys.contains_key(k)
    }

    fn new(path: String) -> (r: SiiUnit)
        ensures
            r.wf(),
            r@ == (UnitView { path: path@, defs: Defs::nothing() }),
    {
        let r = SiiUnit {
            path,
            keys: StringHashMap::new(),
            order: Vec::new(),
            lists: StringHashMap::new(),
            nothing: Vec::new(),
        };
        assert(r@.defs =~= Defs::nothing());
        r
    }

    pub fn get(&self, k: &str) -> (r: Option<&str>)
        ensures
            opt_str(r) == self@.defs.get(k@),
    {
        match self.keys.get(k) {
            Some(s) => Some(s.as_str()),
            None => None,
        }
    }

    pub fn list(&self, k: &str) -> (r: &[String])
        requires
            self.wf(),
        ensures
            texts(r@) == self@.defs.list(k@),
    {
        match self.lists.get(k) {
            Some(v) => v.as_slice(),
            None => {
                assert(texts(self.nothing@) =~= Seq::<Seq<char>>::empty());
                self.nothing.as_slice()
            },
        }
    }

    fn add_key(&mut self, k: String, v: String)
        requires
            old(self).wf(),
        ensures
            final(self).wf(),
            final(self)@ == (UnitView { defs: old(self)@.defs.with_key(k@, v@), ..old(self)@ }),
    {
        let ghost was = self@;
        if !self.keys.contains_key(k.as_str()) {
            let ghost old_keys = self.keys@;
            self.keys.insert(k.clone(), v);
            self.order.push(k);
            assert(string_map(self.keys@) =~= string_map(old_keys).insert(k@, v@));
            assert(texts(self.order@) =~= was.defs.order.push(k@));
            proof {
                crate::harvest::lemma_pushed(was.defs.order, k@);
            }
        }
        assert(self@ =~~= (UnitView { defs: was.defs.with_key(k@, v@), ..was }));
    }

    fn add_item(&mut self, k: String, v: String)
        requires
            old(self).wf(),
        ensures
            final(self).wf(),
            final(self)@ == (UnitView { defs: old(self)@.defs.with_item(k@, v@), ..old(self)@ }),
    {
        let ghost was = self@;
        let ghost old_lists = self.lists@;
        let mut items: Vec<String> = match self.lists.get(k.as_str()) {
            Some(v) => clone_texts(v),
            None => Vec::new(),
        };
        assert(texts(items@) =~= was.defs.list(k@));
        items.push(v);
        assert(texts(items@) =~= was.defs.list(k@).push(v@));
        self.lists.insert(k, items);
        assert(list_map(self.lists@) =~= list_map(old_lists).insert(k@, texts(items@)));
        assert(self@ =~~= (UnitView { defs: was.defs.with_item(k@, v@), ..was }));
    }
}

// -------------------------------------------------------------- reading ---

/// `s` without the double quotes around it.
pub open spec fn unquoted(s: Seq<char>) -> Seq<char> {
    back_trimmed(front_trimmed(s, Class::Is('"')), Class::Is('"'))
}

pub fn unquote<'a>(s: &'a [char]) -> (r: &'a [char])
    ensures
        r@ == unquoted(s@),
{
    trim_back(trim_front(s, Class::Is('"')), Class::Is('"'))
}

/// What a value says: blanks, one run of commas at the end and quotes do not
/// count.
pub open spec fn value_of(v: Seq<char>) -> Seq<char> {
    unquoted(trimmed(back_trimmed(trimmed(v), Class::Is(','))))
}

/// How deep files may pull in others.
pub const DEEPEST: u32 = 8;

/// `d` after one trimmed line of a file in the folder `dir`. `.sii` files pull
/// in `.sui` fragments with `@include`, relative to the including file's own
/// folder.
pub open spec fn after_line(t: Nodes, dir: Seq<char>, d: Defs, line: Seq<char>, depth: nat) -> Defs
    decreases DEEPEST + 1 - depth, 0int, 0int,
    when depth <= DEEPEST
{
    if line.len() == 0 || "#"@.is_prefix_of(line) || "//"@.is_prefix_of(line) {
        d
    } else {
        match after_prefix(line, "@include"@) {
            Some(rest) => {
                let inc = unquoted(trimmed(rest));
                if inc.len() == 0 || depth >= DEEPEST {
                    d
                } else {
                    match file_in(t, dir, steps(unrooted(inc))) {
                        Some(f) => after_file(t, f.0, d, depth + 1),
                        None => d,
                    }
                }
            },
            None => match halves(line, ':') {
                None => d,
                Some(h) => {
                    let key = trimmed(h.0);
                    match before_suffix(key, "[]"@) {
                        Some(base) => d.with_item(trimmed(base), value_of(h.1)),
                        None => if key.contains(' ') {
                            d
                        } else {
                            d.with_key(key, value_of(h.1))
                        },
                    }
                },
            },
        }
    }
}

pub open spec fn after_lines(
    t: Nodes,
    dir: Seq<char>,
    d: Defs,
    ls: Seq<Seq<char>>,
    depth: nat,
) -> Defs
    decreases DEEPEST + 1 - depth, 1int, ls.len(),
    when depth <= DEEPEST
{
    if ls.len() == 0 {
        d
    } else {
        after_line(
            t,
            dir,
            after_lines(t, dir, d, ls.drop_last(), depth),
            trimmed(ls.last()),
            depth,
        )
    }
}

/// `d` after the file at `at`.
pub open spec fn after_file(t: Nodes, at: Seq<char>, d: Defs, depth: nat) -> Defs
    decreases DEEPEST + 1 - depth, 2int, 0int,
    when depth <= DEEPEST
{
    match node_at(t, at) {
        Some(Some(b)) => after_lines(t, folder_of(at), d, lines(utf8_lossy(b)), depth),
        _ => d,
    }
}

/// The definitions in the file at `at`.
pub open spec fn unit_at(t: Nodes, at: Seq<char>) -> UnitView {
    UnitView { path: at, defs: after_file(t, at, Defs::nothing(), 0) }
}

/// The definitions in the file that a list of names leads to.
pub open spec fn unit_in(t: Nodes, p: Seq<Seq<char>>) -> Option<UnitView> {
    match file_in(t, Seq::empty(), p) {
        Some(f) => Some(unit_at(t, f.0)),
        None => None,
    }
}

fn read_line(tree: &Tree, dir: &str, line: &[char], unit: &mut SiiUnit, depth: u32)
    requires
        tree.wf(),
        old(unit).wf(),
        depth <= DEEPEST,
    ensures
        final(unit).wf(),
        final(unit)@ == (UnitView {
            defs: after_line(tree@, dir@, old(unit)@.defs, line@, depth as nat),
            ..old(unit)@
        }),
    decreases DEEPEST + 1 - depth, 0int, 0int,
{
    let ghost was = unit@;
    if line.len() == 0 || begins(line, "#") || begins(line, "//") {
        assert(unit@ =~= (UnitView { defs: was.defs, ..was }));
        return;
    }
    match strip_prefix(line, "@include") {
        Some(rest) => {
            let inc = unquote(trim(rest));
            if inc.len() == 0 || depth >= DEEPEST {
            } else {
                let p = steps_of(unroot(inc));
                match tree.read(dir, &p) {
                    Some((at, _)) => {
                        read_file(tree, at.as_str(), unit, depth + 1);
                    },
                    None => {},
                }
            }
        },
        None => match split_once(line, ':') {
            None => {},
            Some((k, v)) => {
                let key = trim(k);
                let val = string_of(unquote(trim(trim_back(trim(v), Class::Is(',')))));
                match strip_suffix(key, "[]") {
                    Some(base) => {
                        unit.add_item(string_of(trim(base)), val);
                    },
                    None => {
                        if !has_char(key, ' ') {
                            unit.add_key(string_of(key), val);
                        }
                    },
                }
            },
        },
    }
    assert(unit@ =~= (UnitView {
        defs: after_line(tree@, dir@, was.defs, line@, depth as nat),
        ..was
    }));
}

fn read_file(tree: &Tree, at: &str, unit: &mut SiiUnit, depth: u32)
    requires
        tree.wf(),
        old(unit).wf(),
        depth <= DEEPEST,
    ensures
        final(unit).wf(),
        final(unit)@ == (UnitView {
            defs: after_file(tree@, at@, old(unit)@.defs, depth as nat),
            ..old(unit)@
        }),
    decreases DEEPEST + 1 - depth, 2int, 0int,
{
    let ghost was = unit@;
    match tree.bytes_at(at) {
        None => {
            assert(unit@ =~= (UnitView { defs: was.defs, ..was }));
        },
        Some(b) => {
            let text = lossy(b.as_slice());
            let c = chars_of(text.as_str());
            let ls = split_lines(c.as_slice());
            let dir = crate::tree::folder_text(at);
            let ghost all = lines(text@);
            let mut i: usize = 0;
            assert(all.take(0) =~= Seq::<Seq<char>>::empty());
            assert(unit@ =~= (UnitView { defs: was.defs, ..was }));
            while i < ls.len()
                invariant
                    i <= ls@.len(),
                    parts(ls@) == all,
                    tree.wf(),
                    unit.wf(),
                    depth <= DEEPEST,
                    unit@ == (UnitView {
                        defs: after_lines(
                            tree@,
                            dir@,
                            was.defs,
                            all.take(i as int),
                            depth as nat,
                        ),
                        ..was
                    }),
                decreases ls@.len() - i,
            {
                assert(parts(ls@)[i as int] == ls@[i as int]@);
                assert(all.take(i + 1).drop_last() =~= all.take(i as int));
                read_line(tree, dir.as_str(), trim(ls[i]), unit, depth);
                i = i + 1;
            }
            assert(all.take(i as int) =~= all);
        },
    }
}

pub open spec fn opt_unit(r: Option<SiiUnit>) -> Option<UnitView> {
    match r {
        Some(u) => Some(u@),
        None => None,
    }
}

/// Reads a definition, with what it pulls in. The bytes are read as the tree holds
/// them, so a scrambled definition must have been put there decoded.
pub fn parse(tree: &Tree, p: &Vec<String>) -> (r: Option<SiiUnit>)
    requires
        tree.wf(),
    ensures
        opt_unit(r) == unit_in(tree@, texts(p@)),
        r matches Some(u) ==> u.wf(),
{
    match tree.read(root(), p) {
        None => None,
        Some((at, _)) => {
            let mut unit = SiiUnit::new(at.clone());
            read_file(tree, at.as_str(), &mut unit, 0);
            assert(unit@ =~= unit_at(tree@, at@));
            Some(unit)
        },
    }
}

} // verus!
