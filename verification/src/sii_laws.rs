//! What can be said of definitions, from the text that they are written in.

use crate::sii::{
    after_file, after_line, after_lines, unit_in, unquoted, value_of, Defs, DEEPEST,
};
use crate::text::{
    after_prefix, as_text, back_trimmed, front_trimmed, last_of, lemma_halves_around, lemma_last_of,
    lemma_trimmed, lines, lines_are_read_back, one_line, one_word, space, trimmed, unrooted,
    utf8_lossy, Class,
};
use crate::tree::{file_in, folder_of, located, names_of, node_at, steps, under, Nodes};
use vstd::prelude::*;

verus! {

// ------------------------------------------------------------- trimming ---

/// A text in quotes, taken out of them.
proof fn lemma_unquoted(s: Seq<char>)
    requires
        s.len() > 0 ==> s[0] != '"' && s.last() != '"',
    ensures
        unquoted(seq!['"'] + s + seq!['"']) == s,
{
    let q = seq!['"'] + s + seq!['"'];
    let r = s + seq!['"'];
    assert(q.skip(1) =~= r);
    assert(r.drop_last() =~= s);
    if s.len() > 0 {
        assert(r[0] == s[0]);
        assert(front_trimmed(r, Class::Is('"')) == r);
        assert(back_trimmed(s, Class::Is('"')) == s);
        assert(unquoted(q) == s);
    } else {
        assert(r.skip(1) =~= s);
        assert(front_trimmed(r, Class::Is('"')) == front_trimmed(s, Class::Is('"')));
        assert(unquoted(q) =~= s);
    }
}

// ------------------------------------------------------------- includes ---

proof fn lemma_located_in_turn(t: Nodes, from: Seq<char>, a: Seq<Seq<char>>, b: Seq<Seq<char>>)
    ensures
        located(t, from, a + b) == (match located(t, from, a) {
            Some(at) => located(t, at, b),
            None => None,
        }),
    decreases b.len(),
{
    if b.len() == 0 {
        assert(a + b =~= a);
    } else {
        lemma_located_in_turn(t, from, a, b.drop_last());
        assert((a + b).drop_last() =~= a + b.drop_last());
    }
}

/// Whether a name leads to one thing in its folder.
pub open spec fn plain(name: Seq<char>) -> bool {
    name.len() > 0 && !name.contains('/') && name != "."@ && name != ".."@
}

proof fn lemma_folder_of_under(d: Seq<char>, name: Seq<char>)
    requires
        !name.contains('/'),
    ensures
        folder_of(under(d, name)) == d,
{
    let p = under(d, name);
    lemma_last_of(p, '/');
    if d.len() == 0 {
        assert(d =~= Seq::<char>::empty());
    } else {
        reveal_strlit("/");
        assert(p[d.len() as int] == '/');
        assert forall|j: int| d.len() < j < p.len() implies p[j] != '/' by {
            assert(p[j] == name[j - d.len() - 1]);
            assert(name.contains(p[j]));
        }
        if last_of(p, '/') is None {
            assert(p.contains(p[d.len() as int]));
        }
        assert(last_of(p, '/') == Some(d.len() as int));
        assert(p.take(d.len() as int) =~= d);
    }
}

proof fn lemma_steps_unrooted(c: Seq<char>)
    ensures
        steps(unrooted(c)) == steps(c),
    decreases c.len(),
{
    if c.len() > 0 && c[0] == '/' {
        let r = c.skip(1);
        lemma_steps_unrooted(r);
        reveal_strlit("/");
        assert(c =~= Seq::<char>::empty() + "/"@ + r);
        crate::tree::joined_paths_are_walked_in_turn(Seq::empty(), r);
        assert(steps(Seq::empty()) =~= Seq::<Seq<char>>::empty()) by {
            reveal_with_fuel(names_of, 2);
        }
        assert(steps(c) =~= steps(r));
    }
}

/// The line that pulls in `inc`.
pub open spec fn include_line(inc: Seq<char>) -> Seq<char> {
    "@include \""@ + inc + "\""@
}

/// Whether the files that a file pulls in, and those that they pull in, go no
/// deeper than `n` levels, each found from the folder of the file that names it.
pub open spec fn shallow(t: Nodes, at: Seq<char>, n: nat) -> bool
    decreases n,
{
    match node_at(t, at) {
        Some(Some(b)) => forall|i: int|
            0 <= i < lines(utf8_lossy(b)).len() ==> (after_prefix(
                trimmed(#[trigger] lines(utf8_lossy(b))[i]),
                "@include"@,
            ) matches Some(rest) ==> n > 0 && (file_in(
                t,
                folder_of(at),
                steps(unquoted(trimmed(rest))),
            ) matches Some(f) ==> shallow(t, f.0, (n - 1) as nat))),
        _ => true,
    }
}

/// How deep a file stands does not matter to one that does not reach the limit.
proof fn lemma_depth(t: Nodes, at: Seq<char>, n: nat, d: Defs, j: nat, k: nat)
    requires
        shallow(t, at, n),
        j + n <= DEEPEST,
        k + n <= DEEPEST,
    ensures
        after_file(t, at, d, j) == after_file(t, at, d, k),
    decreases n, 1int, 0int,
{
    match node_at(t, at) {
        Some(Some(b)) => {
            let ls = lines(utf8_lossy(b));
            lemma_depth_lines(t, at, n, d, ls, ls.len() as int, j, k);
            assert(ls.take(ls.len() as int) =~= ls);
        },
        _ => {},
    }
}

proof fn lemma_depth_lines(
    t: Nodes,
    at: Seq<char>,
    n: nat,
    d: Defs,
    ls: Seq<Seq<char>>,
    m: int,
    j: nat,
    k: nat,
)
    requires
        shallow(t, at, n),
        node_at(t, at) matches Some(Some(b)) && ls == lines(utf8_lossy(b)),
        0 <= m <= ls.len(),
        j + n <= DEEPEST,
        k + n <= DEEPEST,
    ensures
        after_lines(t, folder_of(at), d, ls.take(m), j) == after_lines(
            t,
            folder_of(at),
            d,
            ls.take(m),
            k,
        ),
    decreases n, 0int, m,
{
    if m > 0 {
        lemma_depth_lines(t, at, n, d, ls, m - 1, j, k);
        assert(ls.take(m).drop_last() =~= ls.take(m - 1));
        let line = trimmed(ls[m - 1]);
        let dir = folder_of(at);
        let e = after_lines(t, dir, d, ls.take(m - 1), j);
        match after_prefix(line, "@include"@) {
            Some(rest) => {
                let inc = unquoted(trimmed(rest));
                lemma_steps_unrooted(inc);
                match file_in(t, dir, steps(inc)) {
                    Some(f) => {
                        lemma_depth(t, f.0, (n - 1) as nat, e, j + 1, k + 1);
                    },
                    None => {},
                }
            },
            None => {},
        }
        assert(after_line(t, dir, e, line, j) == after_line(t, dir, e, line, k));
    }
}

/// A file that only pulls in another says what that one says. What is pulled in is
/// found from the folder of the file that names it: with a file in the folder
/// `folder`, whose one line is `@include "inc"`, and with a file where `inc` leads
/// from that same folder, the two have the same keys and lists, in whatever folder
/// they are. The limit on how deep files pull in others counts one level more.
pub proof fn includes_are_found_beside_their_file(
    t: Nodes,
    folder: Seq<Seq<char>>,
    name: Seq<char>,
    inc: Seq<char>,
)
    requires
        plain(name),
        inc.len() > 0,
        inc[0] != '"',
        inc.last() != '"',
        !inc.contains('\n'),
        file_in(t, Seq::empty(), folder.push(name)) matches Some(f) && utf8_lossy(f.1)
            == include_line(inc),
        file_in(t, Seq::empty(), folder + steps(inc)) matches Some(g) && shallow(
            t,
            g.0,
            (DEEPEST - 1) as nat,
        ),
    ensures
        unit_in(t, folder.push(name)) is Some,
        unit_in(t, folder + steps(inc)) is Some,
        unit_in(t, folder.push(name))->0.defs.keys =~= unit_in(t, folder + steps(inc))->0.defs.keys,
        unit_in(t, folder.push(name))->0.defs.lists =~= unit_in(
            t,
            folder + steps(inc),
        )->0.defs.lists,
        unit_in(t, folder.push(name))->0.defs == unit_in(t, folder + steps(inc))->0.defs,
{
    let root = Seq::<char>::empty();
    let f = file_in(t, root, folder.push(name))->0;
    let g = file_in(t, root, folder + steps(inc))->0;
    assert(folder.push(name).drop_last() =~= folder);
    let at = located(t, root, folder)->0;
    lemma_folder_of_under(at, name);
    lemma_located_in_turn(t, root, folder, steps(inc));
    assert(folder_of(f.0) == at);
    let line = include_line(inc);
    reveal_strlit("@include \"");
    reveal_strlit("\"");
    reveal_strlit("@include");
    reveal_strlit("#");
    reveal_strlit("//");
    assert(!line.contains('\n')) by {
        if line.contains('\n') {
            let i = line.index_of('\n');
            assert(10 <= i < 10 + inc.len());
            assert(inc[i - 10] == '\n');
        }
    }
    crate::text::lemma_pieces_around(line, Seq::empty(), '\n');
    assert(lines(line) =~= seq![line]);
    assert(line[0] == '@');
    assert(line.last() == '"');
    lemma_trimmed(line);
    assert("@include"@.is_prefix_of(line)) by {
        assert(line.take(8) =~= "@include"@);
    }
    assert(!"#"@.is_prefix_of(line)) by {
        assert("#"@[0] == '#');
    }
    assert(!"//"@.is_prefix_of(line)) by {
        assert("//"@[0] == '/');
    }
    let rest = line.skip(8);
    let q = seq!['"'] + inc + seq!['"'];
    assert(rest =~= seq![' '] + q);
    assert(rest.skip(1) =~= q);
    assert(space(' '));
    assert(q[0] == '"' && q.last() == '"');
    assert(rest[0] == ' ');
    assert(front_trimmed(q, Class::Space) == q);
    assert(front_trimmed(rest, Class::Space) == q);
    lemma_trimmed(q);
    assert(trimmed(rest) == q);
    lemma_unquoted(inc);
    lemma_steps_unrooted(inc);
    let d = Defs::nothing();
    assert(seq![line].drop_last() =~= Seq::<Seq<char>>::empty());
    reveal_with_fuel(after_lines, 2);
    assert(after_lines(t, at, d, seq![line], 0) == after_line(t, at, d, line, 0));
    assert(after_line(t, at, d, line, 0) == after_file(t, g.0, d, 1));
    lemma_depth(t, g.0, (DEEPEST - 1) as nat, d, 0, 1);
}

// -------------------------------------------------------------- entries ---

/// One entry of a definition: a key with its value, or one more item of a list.
/// `quoted` says how it is spelled: `name: "value"`, or `name: value,`.
pub struct Entry {
    pub name: Seq<char>,
    pub value: Seq<char>,
    pub item: bool,
    pub quoted: bool,
}

pub open spec fn entry_line(e: Entry) -> Seq<char> {
    let name = if e.item {
        e.name + "[]"@
    } else {
        e.name
    };
    if e.quoted {
        name + ": \""@ + e.value + "\""@
    } else {
        name + ": "@ + e.value + ","@
    }
}

/// What an entry can be written from. The name is a word that begins like one; the
/// value stays within its line and its spelling.
pub open spec fn spellable(e: Entry) -> bool {
    &&& one_word(e.name)
    &&& !e.name.contains(':')
    &&& e.name[0] != '#'
    &&& e.name[0] != '/'
    &&& e.name[0] != '@'
    &&& !"[]"@.is_suffix_of(e.name)
    &&& !e.value.contains('\n')
    &&& e.value.len() > 0 ==> e.value[0] != '"' && e.value.last() != '"'
    &&& !e.quoted ==> e.value.len() > 0 && !space(e.value[0]) && !space(e.value.last())
        && e.value.last() != ','
}

proof fn lemma_value(e: Entry)
    requires
        spellable(e),
    ensures
        value_of(
            if e.quoted {
                " \""@ + e.value + "\""@
            } else {
                " "@ + e.value + ","@
            },
        ) == e.value,
{
    reveal_strlit(" \"");
    reveal_strlit("\"");
    reveal_strlit(" ");
    reveal_strlit(",");
    let v = e.value;
    assert(space(' '));
    if e.quoted {
        let w = " \""@ + v + "\""@;
        let q = seq!['"'] + v + seq!['"'];
        assert(w.skip(1) =~= q);
        assert(w[0] == ' ');
        assert(q[0] == '"' && q.last() == '"');
        assert(front_trimmed(q, Class::Space) == q);
        assert(trimmed(w) == q);
        assert(back_trimmed(q, Class::Is(',')) == q);
        assert(trimmed(q) == q);
        lemma_unquoted(v);
    } else {
        let w = " "@ + v + ","@;
        let q = v + ","@;
        assert(w.skip(1) =~= q);
        assert(w[0] == ' ');
        assert(q[0] == v[0] && q.last() == ',');
        assert(front_trimmed(q, Class::Space) == q);
        assert(trimmed(w) == q);
        assert(q.drop_last() =~= v);
        assert(back_trimmed(v, Class::Is(',')) == v);
        assert(back_trimmed(q, Class::Is(',')) == v);
        lemma_trimmed(v);
        assert(front_trimmed(v, Class::Is('"')) == v);
        assert(back_trimmed(v, Class::Is('"')) == v);
    }
}

proof fn lemma_entry(t: Nodes, dir: Seq<char>, d: Defs, e: Entry, depth: nat)
    requires
        spellable(e),
        depth <= DEEPEST,
    ensures
        after_line(t, dir, d, trimmed(entry_line(e)), depth) == (if e.item {
            d.with_item(e.name, e.value)
        } else {
            d.with_key(e.name, e.value)
        }),
        one_line(entry_line(e)),
{
    reveal_strlit(" \"");
    reveal_strlit(": \"");
    reveal_strlit("\"");
    reveal_strlit(" ");
    reveal_strlit(": ");
    reveal_strlit(",");
    reveal_strlit("[]");
    reveal_strlit("#");
    reveal_strlit("//");
    reveal_strlit("@include");
    let name = if e.item {
        e.name + "[]"@
    } else {
        e.name
    };
    let tail = if e.quoted {
        " \""@ + e.value + "\""@
    } else {
        " "@ + e.value + ","@
    };
    let line = entry_line(e);
    assert(line =~= name.push(':') + tail);
    assert(line[0] == e.name[0]);
    assert(!space(e.name[0]));
    assert(!space(line.last()));
    lemma_trimmed(line);
    assert(!"#"@.is_prefix_of(line)) by {
        assert("#"@[0] == '#');
    }
    assert(!"//"@.is_prefix_of(line)) by {
        assert("//"@[0] == '/');
    }
    assert(!"@include"@.is_prefix_of(line)) by {
        assert("@include"@[0] == '@');
    }
    if name.contains(':') {
        let i = name.index_of(':');
        if i < e.name.len() {
            assert(e.name[i] == ':');
        }
    }
    lemma_halves_around(name, tail, ':');
    assert(!space(e.name[e.name.len() - 1]));
    assert(name[0] == e.name[0]);
    lemma_trimmed(name);
    lemma_trimmed(e.name);
    lemma_value(e);
    if e.item {
        assert(name.skip(e.name.len() as int) =~= "[]"@);
        assert("[]"@.is_suffix_of(name));
        assert(name.take(e.name.len() as int) =~= e.name);
    } else if e.name.contains(' ') {
        let i = e.name.index_of(' ');
        assert(!space(e.name[i]));
    }
    if line.contains('\n') {
        let i = line.index_of('\n');
        if i < e.name.len() {
            assert(!space(e.name[i]));
        } else {
            let k = name.len() + (if e.quoted { 3int } else { 2 });
            assert(i >= k ==> i - k < e.value.len() && line[i] == e.value[i - k]);
            assert(i < k);
        }
    }
}

/// The items that entries add to a list, in order.
pub open spec fn items_of(es: Seq<Entry>, name: Seq<char>) -> Seq<Seq<char>>
    decreases es.len(),
{
    if es.len() == 0 {
        Seq::empty()
    } else if es.last().item && es.last().name == name {
        items_of(es.drop_last(), name).push(es.last().value)
    } else {
        items_of(es.drop_last(), name)
    }
}

/// Whether entry `i` is the first that gives `name` a value.
pub open spec fn gives_first(es: Seq<Entry>, name: Seq<char>, i: int) -> bool {
    &&& 0 <= i < es.len()
    &&& !es[i].item
    &&& es[i].name == name
    &&& forall|j: int| 0 <= j < i ==> (#[trigger] es[j]).item || es[j].name != name
}

pub open spec fn names_key(es: Seq<Entry>, name: Seq<char>) -> bool {
    exists|i: int| 0 <= i < es.len() && !(#[trigger] es[i]).item && es[i].name == name
}

proof fn lemma_entries(t: Nodes, dir: Seq<char>, es: Seq<Entry>, name: Seq<char>)
    requires
        forall|i: int| 0 <= i < es.len() ==> spellable(#[trigger] es[i]),
    ensures
        ({
            let d = after_lines(
                t,
                dir,
                Defs::nothing(),
                Seq::new(es.len(), |i: int| entry_line(es[i])),
                0,
            );
            &&& d.get(name) is Some <==> names_key(es, name)
            &&& forall|i: int| #[trigger]
                gives_first(es, name, i) ==> d.get(name) == Some(es[i].value)
            &&& d.list(name) == items_of(es, name)
        }),
    decreases es.len(),
{
    let ls = Seq::new(es.len(), |i: int| entry_line(es[i]));
    let d = after_lines(t, dir, Defs::nothing(), ls, 0);
    if es.len() > 0 {
        let fs = es.drop_last();
        let e = es.last();
        assert forall|i: int| 0 <= i < fs.len() implies spellable(#[trigger] fs[i]) by {
            assert(es[i] == fs[i]);
        }
        lemma_entries(t, dir, fs, name);
        let ks = Seq::new(fs.len(), |i: int| entry_line(fs[i]));
        assert(ls.drop_last() =~= ks);
        let c = after_lines(t, dir, Defs::nothing(), ks, 0);
        assert(spellable(es[es.len() - 1]));
        lemma_entry(t, dir, c, e, 0);
        assert(d == if e.item {
            c.with_item(e.name, e.value)
        } else {
            c.with_key(e.name, e.value)
        });
        if names_key(fs, name) {
            let i = choose|i: int|
                0 <= i < fs.len() && !(#[trigger] fs[i]).item && fs[i].name == name;
            assert(es[i] == fs[i]);
        }
        if names_key(es, name) && !names_key(fs, name) {
            let i = choose|i: int|
                0 <= i < es.len() && !(#[trigger] es[i]).item && es[i].name == name;
            if i < fs.len() {
                assert(fs[i] == es[i]);
            }
        }
        if !e.item && e.name == name {
            assert(!es[es.len() - 1].item && es[es.len() - 1].name == name);
        }
        assert forall|i: int| #[trigger] gives_first(es, name, i) implies d.get(name) == Some(
            es[i].value,
        ) by {
            if i < fs.len() {
                assert(fs[i] == es[i]);
                assert forall|j: int| 0 <= j < i implies (#[trigger] fs[j]).item || fs[j].name
                    != name by {
                    assert(es[j] == fs[j]);
                }
                assert(gives_first(fs, name, i));
            } else {
                if names_key(fs, name) {
                    let j = choose|j: int|
                        0 <= j < fs.len() && !(#[trigger] fs[j]).item && fs[j].name == name;
                    assert(es[j] == fs[j]);
                }
            }
        }
    } else {
        assert(d.list(name) =~= items_of(es, name));
    }
}

/// A definition that was written entry by entry is read back: a key has the first
/// value that it is given and no other key has any, and a list holds its items in
/// the order in which they came.
pub proof fn definitions_are_read_back(
    t: Nodes,
    path: Seq<Seq<char>>,
    es: Seq<Entry>,
    name: Seq<char>,
)
    requires
        forall|i: int| 0 <= i < es.len() ==> spellable(#[trigger] es[i]),
        file_in(t, Seq::empty(), path) matches Some(f) && utf8_lossy(f.1) == as_text(
            Seq::new(es.len(), |i: int| entry_line(es[i])),
        ),
    ensures
        unit_in(t, path) matches Some(u) && {
            &&& u.defs.get(name) is Some <==> names_key(es, name)
            &&& forall|i: int| #[trigger]
                gives_first(es, name, i) ==> u.defs.get(name) == Some(es[i].value)
            &&& u.defs.list(name) == items_of(es, name)
        },
{
    let f = file_in(t, Seq::empty(), path)->0;
    let ls = Seq::new(es.len(), |i: int| entry_line(es[i]));
    assert forall|i: int| 0 <= i < ls.len() implies one_line(#[trigger] ls[i]) by {
        lemma_entry(t, Seq::empty(), Defs::nothing(), es[i], 0);
    }
    lines_are_read_back(ls);
    lemma_entries(t, folder_of(f.0), es, name);
}

/// A blank line says nothing, nor does one that begins with `#` or `//`.
pub proof fn comments_say_nothing(
    t: Nodes,
    dir: Seq<char>,
    d: Defs,
    line: Seq<char>,
    depth: nat,
)
    requires
        depth <= DEEPEST,
        trimmed(line).len() > 0 ==> trimmed(line)[0] == '#' || (trimmed(line).len() > 1
            && trimmed(line)[0] == '/' && trimmed(line)[1] == '/'),
    ensures
        after_lines(t, dir, d, seq![line], depth) == d,
{
    reveal_strlit("#");
    reveal_strlit("//");
    let s = trimmed(line);
    assert(seq![line].drop_last() =~= Seq::<Seq<char>>::empty());
    reveal_with_fuel(after_lines, 2);
    if s.len() > 0 && s[0] == '#' {
        assert(s.take(1) =~= "#"@);
        assert("#"@.is_prefix_of(s));
    } else if s.len() > 0 {
        assert(s.take(2) =~= "//"@);
        assert("//"@.is_prefix_of(s));
    }
}

} // verus!
