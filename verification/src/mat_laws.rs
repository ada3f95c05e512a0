//! What a `.mat` says, told from the writer's side.

use crate::matfile::{
    base_tobj_in, entries, entry_on, line_tagged, normal_maps_in, normals, numbered, shader_in,
};
use crate::pim_laws::{all_lines, lemma_all_lines, lemma_not_prefix, quotable};
use crate::text::{
    as_text, digits, front_trimmed, lemma_halves_around, lemma_pieces_around, lemma_trimmed,
    lines_are_read_back, numbers_are_read_back, one_line, piece, pieces, space, trimmed, unrooted,
    Class,
};
use vstd::prelude::*;

verus! {

/// A texture as a writer has it: its slot's name, and its path without the leading
/// slash.
pub struct Slot {
    pub name: Seq<char>,
    pub path: Seq<char>,
}

/// `texture[0] : "/vehicle/body.tobj"`
pub open spec fn path_line(i: int, s: Slot) -> Seq<char> {
    "texture["@ + digits(i as nat, 10) + "] : \"/"@ + s.path + "\""@
}

/// `texture_name[0] : "texture_base"`
pub open spec fn name_line(i: int, s: Slot) -> Seq<char> {
    "texture_name["@ + digits(i as nat, 10) + "] : \""@ + s.name + "\""@
}

pub open spec fn slot_lines(v: Seq<Slot>) -> Seq<Seq<char>>
    decreases v.len(),
{
    if v.len() == 0 {
        Seq::empty()
    } else {
        slot_lines(v.drop_last()) + seq![
            path_line(v.len() - 1, v.last()),
            name_line(v.len() - 1, v.last()),
        ]
    }
}

pub open spec fn shader_line(shader: Seq<char>) -> Seq<char> {
    "material : \""@ + shader + "\" {"@
}

pub open spec fn material_lines(shader: Seq<char>, v: Seq<Slot>) -> Seq<Seq<char>> {
    seq![shader_line(shader)] + slot_lines(v) + seq!["}"@]
}

/// Whether a slot can be printed.
pub open spec fn slottable(s: Slot) -> bool {
    &&& quotable(s.name)
    &&& quotable(s.path)
    &&& s.path.len() > 0
    &&& s.path[0] != '/'
    &&& !space(s.path.last())
}

/// The paths of the textures that are called normal maps, in order.
pub open spec fn bumps(v: Seq<Slot>) -> Seq<Seq<char>>
    decreases v.len(),
{
    if v.len() == 0 {
        Seq::empty()
    } else if v.last().name == "texture_nmap"@ {
        bumps(v.drop_last()).push(v.last().path)
    } else {
        bumps(v.drop_last())
    }
}

/// A numbered entry, read back.
proof fn lemma_entry(tag: Seq<char>, i: nat, value: Seq<char>, line: Seq<char>)
    requires
        tag.len() > 0,
        !space(tag[0]),
        quotable(value),
        i <= u64::MAX,
        !tag.contains('\n'),
        line == tag + digits(i, 10) + seq![']', ' ', ':', ' ', '"'] + value + seq!['"'],
    ensures
        entry_on(line, tag) == Some((i, value)),
        trimmed(line) == line,
        one_line(line),
{
    let d = digits(i, 10);
    numbers_are_read_back(i, 10, 0, u64::MAX as nat);
    assert(line[0] == tag[0]);
    assert(line.last() == '"');
    lemma_trimmed(line);
    assert(line.take(tag.len() as int) =~= tag);
    let rest = line.skip(tag.len() as int);
    let tail = seq![' ', ':', ' ', '"'] + value + seq!['"'];
    assert(rest =~= d.push(']') + tail);
    if d.contains(']') {
        let k = d.index_of(']');
        assert(crate::text::digit_value(d[k], 10) is Some);
    }
    lemma_halves_around(d, tail, ']');
    lemma_quoted(seq![' ', ':', ' '], value, Seq::empty());
    assert(tail =~= seq![' ', ':', ' '].push('"') + (value.push('"') + Seq::<char>::empty()));
    if line.contains('\n') {
        let k = line.index_of('\n');
        let a = tag.len() + d.len() + 5;
        if k < tag.len() {
            assert(tag[k] == '\n');
            assert(tag.contains(tag[k]));
        } else if k < tag.len() + d.len() {
            assert(crate::text::digit_value(d[k - tag.len()], 10) is Some);
        } else if a <= k < line.len() - 1 {
            assert(value[k - a] == '\n');
        }
    }
}

/// What stands in the first quotes.
proof fn lemma_quoted(a: Seq<char>, value: Seq<char>, b: Seq<char>)
    requires
        !a.contains('"'),
        !value.contains('"'),
    ensures
        piece(a.push('"') + (value.push('"') + b), '"', 1) == Some(value),
{
    lemma_pieces_around(a, value.push('"') + b, '"');
    lemma_pieces_around(value, b, '"');
    let s = a.push('"') + (value.push('"') + b);
    assert(pieces(s, '"')[1] == value);
}

proof fn lemma_path_line(i: int, s: Slot)
    requires
        slottable(s),
        0 <= i <= u64::MAX,
    ensures
        entry_on(path_line(i, s), "texture["@) == Some((i as nat, seq!['/'] + s.path)),
        entry_on(path_line(i, s), "texture_name["@) is None,
        one_line(path_line(i, s)),
{
    reveal_strlit("texture[");
    reveal_strlit("texture_name[");
    reveal_strlit("] : \"/");
    reveal_strlit("\"");
    let line = path_line(i, s);
    let value = seq!['/'] + s.path;
    assert(line =~= "texture["@ + digits(i as nat, 10) + seq![']', ' ', ':', ' ', '"'] + value
        + seq!['"']);
    if value.contains('"') {
        let k = value.index_of('"');
        assert(s.path[k - 1] == '"');
    }
    if value.contains('\n') {
        let k = value.index_of('\n');
        assert(s.path[k - 1] == '\n');
    }
    lemma_entry("texture["@, i as nat, value, line);
    assert(line[7] == '[');
    lemma_not_prefix("texture_name["@, line, 7);
}

proof fn lemma_name_line(i: int, s: Slot)
    requires
        slottable(s),
        0 <= i <= u64::MAX,
    ensures
        entry_on(name_line(i, s), "texture_name["@) == Some((i as nat, s.name)),
        entry_on(name_line(i, s), "texture["@) is None,
        one_line(name_line(i, s)),
{
    reveal_strlit("texture[");
    reveal_strlit("texture_name[");
    reveal_strlit("] : \"");
    reveal_strlit("\"");
    let line = name_line(i, s);
    assert(line =~= "texture_name["@ + digits(i as nat, 10) + seq![']', ' ', ':', ' ', '"']
        + s.name + seq!['"']);
    lemma_entry("texture_name["@, i as nat, s.name, line);
    assert(line[7] == '_');
    lemma_not_prefix("texture["@, line, 7);
}

proof fn lemma_entries_both(a: Seq<Seq<char>>, b: Seq<Seq<char>>, tag: Seq<char>)
    ensures
        entries(a + b, tag) == entries(a, tag) + entries(b, tag),
    decreases b.len(),
{
    if b.len() == 0 {
        assert(a + b =~= a);
        assert(entries(a + b, tag) =~= entries(a, tag) + entries(b, tag));
    } else {
        lemma_entries_both(a, b.drop_last(), tag);
        assert((a + b).drop_last() =~= a + b.drop_last());
        assert(entries(a + b, tag) =~= entries(a, tag) + entries(b, tag));
    }
}

proof fn lemma_slots(v: Seq<Slot>)
    requires
        forall|i: int| 0 <= i < v.len() ==> slottable(#[trigger] v[i]),
        v.len() <= u64::MAX,
    ensures
        entries(slot_lines(v), "texture["@) == Seq::new(
            v.len(),
            |i: int| (i as nat, seq!['/'] + v[i].path),
        ),
        entries(slot_lines(v), "texture_name["@) == Seq::new(
            v.len(),
            |i: int| (i as nat, v[i].name),
        ),
        all_lines(slot_lines(v)),
    decreases v.len(),
{
    let paths = Seq::new(v.len(), |i: int| (i as nat, seq!['/'] + v[i].path));
    let names = Seq::new(v.len(), |i: int| (i as nat, v[i].name));
    if v.len() == 0 {
        assert(entries(slot_lines(v), "texture["@) =~= paths);
        assert(entries(slot_lines(v), "texture_name["@) =~= names);
    } else {
        let u = v.drop_last();
        assert forall|i: int| 0 <= i < u.len() implies slottable(#[trigger] u[i]) by {
            assert(u[i] == v[i]);
        }
        lemma_slots(u);
        let n = v.len() - 1;
        assert(slottable(v[n]));
        lemma_path_line(n, v[n]);
        lemma_name_line(n, v[n]);
        let two = seq![path_line(n, v[n]), name_line(n, v[n])];
        assert(two.drop_last() =~= seq![path_line(n, v[n])]);
        assert(two.drop_last().drop_last() =~= Seq::<Seq<char>>::empty());
        reveal_with_fuel(entries, 3);
        lemma_entries_both(slot_lines(u), two, "texture["@);
        lemma_entries_both(slot_lines(u), two, "texture_name["@);
        assert(entries(slot_lines(v), "texture["@) =~= paths);
        assert(entries(slot_lines(v), "texture_name["@) =~= names);
        assert(all_lines(two));
        lemma_all_lines(slot_lines(u), two);
    }
}

proof fn lemma_numbered(v: Seq<(nat, Seq<char>)>, n: nat, j: int)
    requires
        0 <= j < v.len(),
        v[j].0 == n,
        forall|i: int| 0 <= i < j ==> (#[trigger] v[i]).0 != n,
    ensures
        numbered(v, n) == Some(v[j].1),
    decreases j,
{
    if j > 0 {
        assert(v[0].0 != n);
        let w = v.skip(1);
        assert forall|i: int| 0 <= i < j - 1 implies (#[trigger] w[i]).0 != n by {
            assert(w[i] == v[i + 1]);
        }
        lemma_numbered(w, n, j - 1);
    }
}

proof fn lemma_bumps(v: Seq<Slot>, n: int)
    requires
        forall|i: int| 0 <= i < v.len() ==> slottable(#[trigger] v[i]),
        0 <= n <= v.len(),
    ensures
        normals(
            Seq::new(n as nat, |i: int| (i as nat, v[i].name)),
            Seq::new(v.len(), |i: int| (i as nat, seq!['/'] + v[i].path)),
        ) == bumps(v.take(n)),
    decreases n,
{
    let names = Seq::new(n as nat, |i: int| (i as nat, v[i].name));
    let paths = Seq::new(v.len(), |i: int| (i as nat, seq!['/'] + v[i].path));
    if n > 0 {
        lemma_bumps(v, n - 1);
        assert(names.drop_last() =~= Seq::new((n - 1) as nat, |i: int| (i as nat, v[i].name)));
        assert(v.take(n).drop_last() =~= v.take(n - 1));
        lemma_numbered(paths, (n - 1) as nat, n - 1);
        let s = v[n - 1];
        assert(slottable(s));
        let p = seq!['/'] + s.path;
        assert(p.skip(1) =~= s.path);
        assert(p[0] == '/');
        assert(front_trimmed(s.path, Class::Is('/')) == s.path);
        assert(unrooted(p) == s.path);
    } else {
        assert(v.take(0) =~= Seq::<Slot>::empty());
    }
}

/// A material that was printed is read back: its shader, the path of its first
/// texture, and the paths of those textures that are called normal maps, in order.
pub proof fn materials_are_read_as_printed(shader: Seq<char>, v: Seq<Slot>)
    requires
        quotable(shader),
        v.len() <= u64::MAX,
        forall|i: int| 0 <= i < v.len() ==> slottable(#[trigger] v[i]),
    ensures
        ({
            let text = as_text(material_lines(shader, v));
            &&& shader_in(text) == shader
            &&& normal_maps_in(text) == bumps(v)
            &&& v.len() > 0 ==> base_tobj_in(text) == Some(seq!['/'] + v[0].path)
            &&& v.len() == 0 ==> base_tobj_in(text) is None
        }),
{
    reveal_strlit("material : \"");
    reveal_strlit("material");
    reveal_strlit("\" {");
    reveal_strlit("texture[");
    reveal_strlit("texture[0]");
    reveal_strlit("texture_name[");
    reveal_strlit("}");
    let first = shader_line(shader);
    let a = seq![first];
    let b = slot_lines(v);
    let c = seq!["}"@];
    let ls = material_lines(shader, v);
    let front = seq!['m', 'a', 't', 'e', 'r', 'i', 'a', 'l', ' ', ':', ' '];
    assert(first =~= front.push('"') + (shader.push('"') + seq![' ', '{']));
    lemma_quoted(front, shader, seq![' ', '{']);
    assert(first[0] == 'm' && first.last() == '{');
    lemma_trimmed(first);
    if first.contains('\n') {
        let k = first.index_of('\n');
        if 12 <= k < 12 + shader.len() {
            assert(shader[k - 12] == '\n');
        }
    }
    lemma_trimmed("}"@);
    lemma_slots(v);
    assert(all_lines(a));
    assert(all_lines(c));
    lemma_all_lines(a, b);
    lemma_all_lines(a + b, c);
    lines_are_read_back(ls);
    // the shader
    assert(ls[0] == first);
    assert(first.take(8) =~= "material"@);
    assert(front_trimmed(first, Class::Space) == first);
    // the normal maps
    lemma_not_prefix("texture["@, first, 0);
    lemma_not_prefix("texture_name["@, first, 0);
    lemma_not_prefix("texture["@, "}"@, 0);
    lemma_not_prefix("texture_name["@, "}"@, 0);
    lemma_alone(first, "texture["@);
    lemma_alone(first, "texture_name["@);
    lemma_alone("}"@, "texture["@);
    lemma_alone("}"@, "texture_name["@);
    lemma_entries_both(a + b, c, "texture["@);
    lemma_entries_both(a, b, "texture["@);
    lemma_entries_both(a + b, c, "texture_name["@);
    lemma_entries_both(a, b, "texture_name["@);
    assert(entries(ls, "texture["@) =~= entries(b, "texture["@));
    assert(entries(ls, "texture_name["@) =~= entries(b, "texture_name["@));
    lemma_bumps(v, v.len() as int);
    assert(v.take(v.len() as int) =~= v);
    // the base texture
    let tag = "texture[0]"@;
    lemma_not_prefix(tag, first, 0);
    assert(line_tagged(ls, tag) == line_tagged(ls.skip(1), tag));
    if v.len() > 0 {
        lemma_first_slot(v);
        assert(ls.skip(1)[0] == b[0]);
        let line = path_line(0, v[0]);
        assert(slottable(v[0]));
        lemma_base_line(v[0]);
    } else {
        assert(ls.skip(1) =~= c);
        lemma_not_prefix(tag, "}"@, 0);
        assert(c.skip(1) =~= Seq::<Seq<char>>::empty());
        reveal_with_fuel(line_tagged, 3);
    }
}

proof fn lemma_alone(line: Seq<char>, tag: Seq<char>)
    requires
        trimmed(line) == line,
        !tag.is_prefix_of(line),
    ensures
        entries(seq![line], tag) == Seq::<(nat, Seq<char>)>::empty(),
{
    assert(seq![line].drop_last() =~= Seq::<Seq<char>>::empty());
    reveal_with_fuel(entries, 2);
}

proof fn lemma_first_slot(v: Seq<Slot>)
    requires
        v.len() > 0,
    ensures
        slot_lines(v).len() > 0,
        slot_lines(v)[0] == path_line(0, v[0]),
    decreases v.len(),
{
    if v.len() > 1 {
        lemma_first_slot(v.drop_last());
    } else {
        assert(slot_lines(v.drop_last()) =~= Seq::<Seq<char>>::empty());
    }
}

proof fn lemma_base_line(s: Slot)
    requires
        slottable(s),
    ensures
        "texture[0]"@.is_prefix_of(front_trimmed(path_line(0, s), Class::Space)),
        piece(path_line(0, s), '"', 1) == Some(seq!['/'] + s.path),
        trimmed(seq!['/'] + s.path) == seq!['/'] + s.path,
{
    reveal_strlit("texture[");
    reveal_strlit("texture[0]");
    reveal_strlit("] : \"/");
    reveal_strlit("\"");
    let line = path_line(0, s);
    assert(digits(0, 10) =~= seq!['0']);
    assert(line[0] == 't');
    assert(front_trimmed(line, Class::Space) == line);
    assert(line.take(10) =~= "texture[0]"@);
    let value = seq!['/'] + s.path;
    if value.contains('"') {
        let k = value.index_of('"');
        assert(s.path[k - 1] == '"');
    }
    let front = seq!['t', 'e', 'x', 't', 'u', 'r', 'e', '[', '0', ']', ' ', ':', ' '];
    assert(line =~= front.push('"') + (value.push('"') + Seq::<char>::empty()));
    lemma_quoted(front, value, Seq::empty());
    assert(value.last() == s.path.last());
    lemma_trimmed(value);
}

} // verus!
