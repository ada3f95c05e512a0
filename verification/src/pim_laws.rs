//! What a text model says, told from the writer's side.
//!
//! A model is printed here block by block, and reading the text is shown to give
//! back what was printed.

use crate::pim::{
    after_lines, colon_text, indices, inside, model_in, num_bits, quoted_text, tuple_bits, whole,
    Colour, LocatorView, ModelView, PartView, PieceView, ReaderView,
};
use crate::text::{
    as_text, digits, first_of, front_trimmed, lemma_blank_in_front,
    lemma_first_of, lemma_halves_around, lemma_pieces_around, lemma_trimmed,
    lines_are_read_back, numbers_are_read_back, one_line, one_word, pieces, space, spaced,
    trimmed, words, words_are_read_back, zero_padded, Class,
};
use vstd::arithmetic::power2::{lemma2_to64, lemma_pow2_adds, lemma_pow2_pos, pow2};
use vstd::prelude::*;

verus! {

// ------------------------------------------------------------- printing ---

/// A number by its bits: `&3f800000`.
pub open spec fn hex(x: u32) -> Seq<char> {
    "&"@ + zero_padded(digits(x as nat, 16), 8)
}

pub open spec fn hexes(xs: Seq<u32>) -> Seq<Seq<char>> {
    Seq::new(xs.len(), |i: int| hex(xs[i]))
}

/// Numbers in parentheses: `( &3f800000 &00000000 )`.
pub open spec fn tuple_text(xs: Seq<u32>) -> Seq<char> {
    "("@ + spaced(hexes(xs)) + " )"@
}

/// A word and a text in quotes.
pub open spec fn quoting(word: Seq<char>, s: Seq<char>) -> Seq<char> {
    word + " \""@ + s + "\""@
}

/// A locator as a writer has it; its rotation is the quaternion w + xi + yj + zk.
pub struct Placed {
    pub name: Seq<char>,
    pub position: (u32, u32, u32),
    pub w: u32,
    pub x: u32,
    pub y: u32,
    pub z: u32,
    pub scale: (u32, u32, u32),
}

/// A locator's block. The rotation is printed with its scalar part first.
pub open spec fn locator_lines(l: Placed) -> Seq<Seq<char>> {
    seq![
        "Locator {"@,
        quoting("Name:"@, l.name),
        "Position: "@ + tuple_text(seq![l.position.0, l.position.1, l.position.2]),
        "Rotation: "@ + tuple_text(seq![l.w, l.x, l.y, l.z]),
        "Scale: "@ + tuple_text(seq![l.scale.0, l.scale.1, l.scale.2]),
        "}"@,
    ]
}

/// Whether a text can stand in quotes.
pub open spec fn quotable(s: Seq<char>) -> bool {
    !s.contains('"') && !s.contains('\n')
}

// -------------------------------------------------------------- reading ---

/// A reader that has read on from `st`.
pub open spec fn read_on(
    st: ReaderView,
    ls: Seq<Seq<char>>,
    t: Map<Seq<char>, u32>,
) -> ReaderView
    decreases ls.len(),
{
    if ls.len() == 0 {
        st
    } else {
        read_on(st, ls.drop_last(), t).after(trimmed(ls.last()), t)
    }
}

proof fn lemma_read_all(ls: Seq<Seq<char>>, t: Map<Seq<char>, u32>)
    ensures
        after_lines(ls, t) == read_on(ReaderView::start(), ls, t),
    decreases ls.len(),
{
    if ls.len() > 0 {
        lemma_read_all(ls.drop_last(), t);
    }
}

proof fn lemma_read_in_turn(
    st: ReaderView,
    a: Seq<Seq<char>>,
    b: Seq<Seq<char>>,
    t: Map<Seq<char>, u32>,
)
    ensures
        read_on(st, a + b, t) == read_on(read_on(st, a, t), b, t),
    decreases b.len(),
{
    if b.len() == 0 {
        assert(a + b =~= a);
    } else {
        lemma_read_in_turn(st, a, b.drop_last(), t);
        assert((a + b).drop_last() =~= a + b.drop_last());
    }
}

proof fn lemma_read_one(st: ReaderView, line: Seq<char>, t: Map<Seq<char>, u32>)
    ensures
        read_on(st, seq![line], t) == st.after(trimmed(line), t),
{
    assert(seq![line].drop_last() =~= Seq::<Seq<char>>::empty());
    reveal_with_fuel(read_on, 2);
}

pub proof fn lemma_not_prefix(p: Seq<char>, s: Seq<char>, k: int)
    requires
        0 <= k < p.len(),
        k < s.len(),
        p[k] != s[k],
    ensures
        !p.is_prefix_of(s),
{
    if p.is_prefix_of(s) {
        assert(s.take(p.len() as int)[k] == p[k]);
    }
}

/// Letters that no line reads on from: what none of the block marks begins with, or
/// goes on with.
pub open spec fn unmarked(line: Seq<char>) -> bool {
    &&& line.len() > 0
    &&& !"Material {"@.is_prefix_of(line)
    &&& line != "Material"@
    &&& !"Alias:"@.is_prefix_of(line)
    &&& !"Piece {"@.is_prefix_of(line)
    &&& !"Part {"@.is_prefix_of(line)
    &&& !"Locator {"@.is_prefix_of(line)
    &&& !"Stream {"@.is_prefix_of(line)
    &&& !"Triangles"@.is_prefix_of(line)
    &&& line != "}"@
}

/// A line whose first letter begins no block mark.
proof fn lemma_unmarked(line: Seq<char>)
    requires
        line.len() > 0,
        line[0] != 'M' && line[0] != 'A' && line[0] != 'P' && line[0] != 'L' && line[0] != 'S'
            && line[0] != 'T' && line[0] != '}',
    ensures
        unmarked(line),
{
    reveal_strlit("Material {");
    reveal_strlit("Material");
    reveal_strlit("Alias:");
    reveal_strlit("Piece {");
    reveal_strlit("Part {");
    reveal_strlit("Locator {");
    reveal_strlit("Stream {");
    reveal_strlit("Triangles");
    reveal_strlit("}");
    lemma_not_prefix("Material {"@, line, 0);
    lemma_not_prefix("Alias:"@, line, 0);
    lemma_not_prefix("Piece {"@, line, 0);
    lemma_not_prefix("Part {"@, line, 0);
    lemma_not_prefix("Locator {"@, line, 0);
    lemma_not_prefix("Stream {"@, line, 0);
    lemma_not_prefix("Triangles"@, line, 0);
    assert("Material"@[0] == 'M');
    assert("}"@[0] == '}');
}

/// A line that begins like a block mark and goes on otherwise.
proof fn lemma_nearly_marked(line: Seq<char>)
    requires
        line.len() > 9,
        line[0] == 'P' ==> line[1] != 'i' && line[1] != 'a' || line[5] != ' ' && line[4] != ' ',
        line[0] == 'L' ==> line[7] != ' ',
        line[0] == 'M' ==> line[8] != ' ',
        line[0] == 'S' ==> line[1] != 't',
        line[0] == 'T' ==> line[1] != 'r',
        line[0] != 'A',
    ensures
        unmarked(line),
{
    reveal_strlit("Material {");
    reveal_strlit("Material");
    reveal_strlit("Alias:");
    reveal_strlit("Piece {");
    reveal_strlit("Part {");
    reveal_strlit("Locator {");
    reveal_strlit("Stream {");
    reveal_strlit("Triangles");
    reveal_strlit("}");
    lemma_not_prefix("Alias:"@, line, 0);
    if line[0] == 'M' {
        lemma_not_prefix("Material {"@, line, 8);
    } else {
        lemma_not_prefix("Material {"@, line, 0);
    }
    if line[0] == 'L' {
        lemma_not_prefix("Locator {"@, line, 7);
    } else {
        lemma_not_prefix("Locator {"@, line, 0);
    }
    if line[0] == 'S' {
        lemma_not_prefix("Stream {"@, line, 1);
    } else {
        lemma_not_prefix("Stream {"@, line, 0);
    }
    if line[0] == 'T' {
        lemma_not_prefix("Triangles"@, line, 1);
    } else {
        lemma_not_prefix("Triangles"@, line, 0);
    }
    if line[0] == 'P' {
        if line[1] != 'i' {
            lemma_not_prefix("Piece {"@, line, 1);
        } else {
            lemma_not_prefix("Piece {"@, line, 5);
        }
        if line[1] != 'a' {
            lemma_not_prefix("Part {"@, line, 1);
        } else {
            lemma_not_prefix("Part {"@, line, 4);
        }
    } else {
        lemma_not_prefix("Piece {"@, line, 0);
        lemma_not_prefix("Part {"@, line, 0);
    }
}

// --------------------------------------------------------------- tuples ---

/// Whether a character can stand in a printed number.
pub open spec fn digit_like(c: char) -> bool {
    c == '&' || crate::text::digit_value(c, 16) is Some
}

proof fn lemma_hex(t: Map<Seq<char>, u32>, x: u32)
    ensures
        num_bits(t, hex(x)) == x,
        one_word(hex(x)),
        forall|i: int| 0 <= i < hex(x).len() ==> digit_like(#[trigger] hex(x)[i]),
{
    reveal_strlit("&");
    let d = zero_padded(digits(x as nat, 16), 8);
    let h = hex(x);
    numbers_are_read_back(x as nat, 16, 8, u32::MAX as nat);
    assert(h[0] == '&');
    assert forall|i: int| 0 <= i < h.len() implies !space(#[trigger] h[i]) && digit_like(h[i]) by {
        if i > 0 {
            assert(h[i] == d[i - 1]);
        }
    }
    assert(h.last() == h[h.len() - 1]);
    lemma_trimmed(h);
    assert(h.take(1) =~= "&"@);
    assert(h.skip(1) =~= d);
}

proof fn lemma_spaced_chars(ws: Seq<Seq<char>>)
    requires
        forall|i: int, j: int|
            0 <= i < ws.len() && 0 <= j < ws[i].len() ==> digit_like(#[trigger] ws[i][j]),
    ensures
        forall|k: int|
            0 <= k < spaced(ws).len() ==> (#[trigger] spaced(ws)[k]) == ' ' || digit_like(
                spaced(ws)[k],
            ),
    decreases ws.len(),
{
    if ws.len() > 0 {
        let front = ws.drop_last();
        assert forall|i: int, j: int|
            0 <= i < front.len() && 0 <= j < front[i].len() implies digit_like(
            #[trigger] front[i][j],
        ) by {
            assert(front[i] == ws[i]);
            assert(digit_like(ws[i][j]));
        }
        lemma_spaced_chars(front);
        let a = spaced(front).push(' ');
        let w = ws.last();
        assert forall|k: int| 0 <= k < spaced(ws).len() implies (#[trigger] spaced(ws)[k]) == ' '
            || digit_like(spaced(ws)[k]) by {
            if k < a.len() - 1 {
                assert(spaced(ws)[k] == spaced(front)[k]);
            } else if k >= a.len() {
                assert(spaced(ws)[k] == ws[ws.len() - 1][k - a.len()]);
            }
        }
    }
}

/// Numbers in parentheses are read back, whatever stands in front.
proof fn lemma_tuple(t: Map<Seq<char>, u32>, front: Seq<char>, xs: Seq<u32>)
    requires
        !front.contains('('),
        !front.contains('\n'),
    ensures
        tuple_bits(t, front + tuple_text(xs)) == xs,
        one_line(front + tuple_text(xs)),
        (front + tuple_text(xs)).last() == ')',
        (front + tuple_text(xs)).len() >= front.len() + 3,
{
    reveal_strlit("(");
    reveal_strlit(" )");
    let ws = hexes(xs);
    let line = front + tuple_text(xs);
    let body = spaced(ws);
    assert forall|i: int| 0 <= i < ws.len() implies one_word(#[trigger] ws[i]) by {
        lemma_hex(t, xs[i]);
    }
    assert forall|i: int, j: int|
        0 <= i < ws.len() && 0 <= j < ws[i].len() implies digit_like(#[trigger] ws[i][j]) by {
        lemma_hex(t, xs[i]);
        assert(digit_like(hex(xs[i])[j]));
    }
    lemma_spaced_chars(ws);
    words_are_read_back(ws);
    let o = front.len() as int;
    assert(line =~= front + seq!['('] + body + seq![' ', ')']);
    assert(line[o] == '(');
    lemma_first_of(line, '(');
    assert(line.contains(line[o]));
    let f = first_of(line, '(')->0;
    if f < o {
        assert(front[f] == '(');
        assert(front.contains(front[f]));
    }
    assert(first_of(line, '(') == Some(o));
    let rest = line.skip(o);
    let c = (body.len() + 2) as int;
    assert(rest[c] == ')');
    lemma_first_of(rest, ')');
    assert(rest.contains(rest[c]));
    let g = first_of(rest, ')')->0;
    if g < c {
        assert(rest[g] == ')');
        if 0 < g <= body.len() {
            assert(rest[g] == body[g - 1]);
        }
    }
    assert(first_of(rest, ')') == Some(c));
    assert(line.subrange(o + 1, o + c) =~= body.push(' '));
    assert(inside(line) == Some(body.push(' ')));
    let r = tuple_bits(t, line);
    assert forall|i: int| 0 <= i < xs.len() implies r[i] == xs[i] by {
        lemma_hex(t, xs[i]);
    }
    assert(r =~= xs);
    if line.contains('\n') {
        let i = line.index_of('\n');
        if i < o {
            assert(front[i] == '\n');
            assert(front.contains(front[i]));
        } else if o < i <= o + body.len() {
            assert(line[i] == body[i - o - 1]);
        }
    }
}

/// A text in quotes is read back.
pub proof fn lemma_quoting(word: Seq<char>, s: Seq<char>)
    requires
        quotable(s),
        quotable(word),
    ensures
        quoted_text(quoting(word, s)) == s,
        one_line(quoting(word, s)),
        quoting(word, s).last() == '"',
        word.is_prefix_of(quoting(word, s)),
        quoting(word, s).len() >= word.len() + 3,
{
    reveal_strlit(" \"");
    reveal_strlit("\"");
    let line = quoting(word, s);
    let a = word.push(' ');
    let b = s.push('"');
    if a.contains('"') {
        let i = a.index_of('"');
        assert(word[i] == '"');
    }
    assert(line =~= a.push('"') + b);
    lemma_pieces_around(a, b, '"');
    let none = Seq::<char>::empty();
    assert(b =~= s.push('"') + none);
    lemma_pieces_around(s, none, '"');
    assert(pieces(line, '"')[1] == s);
    assert(line.take(word.len() as int) =~= word);
    if line.contains('\n') {
        let i = line.index_of('\n');
        if i < word.len() {
            assert(word[i] == '\n');
        } else if word.len() + 2 <= i < line.len() - 1 {
            assert(s[i - word.len() - 2] == '\n');
        }
    }
}

// ------------------------------------------------------------- locators ---

/// Whether no block is open.
pub open spec fn between_blocks(st: ReaderView) -> bool {
    st.piece is None && st.part is None && st.locator is None && !st.in_stream && !st.in_tris
}

pub open spec fn locator_view(l: Placed) -> LocatorView {
    LocatorView {
        name: l.name,
        position: l.position,
        rotation: (l.w, l.x, l.y, l.z),
        scale: l.scale,
    }
}

proof fn lemma_no_paren(word: Seq<char>)
    requires
        word == "Position: "@ || word == "Rotation: "@ || word == "Scale: "@,
    ensures
        !word.contains('('),
        !word.contains('\n'),
{
    reveal_strlit("Position: ");
    reveal_strlit("Rotation: ");
    reveal_strlit("Scale: ");
}

proof fn lemma_in_locator(st: ReaderView, v: LocatorView, line: Seq<char>, t: Map<Seq<char>, u32>)
    requires
        st.locator == Some(v),
        unmarked(line),
    ensures
        st.after(line, t) == (ReaderView { locator: Some(v.after(line, t)), ..st }),
{
}

proof fn lemma_name_line(name: Seq<char>)
    requires
        quotable(name),
    ensures
        ({
            let line = quoting("Name:"@, name);
            &&& unmarked(line)
            &&& trimmed(line) == line
            &&& one_line(line)
            &&& "Name:"@.is_prefix_of(line)
            &&& quoted_text(line) == name
        }),
{
    reveal_strlit("Name:");
    assert(quotable("Name:"@));
    lemma_quoting("Name:"@, name);
    let line = quoting("Name:"@, name);
    assert(line[0] == 'N');
    lemma_trimmed(line);
    lemma_unmarked(line);
}

proof fn lemma_position_line(t: Map<Seq<char>, u32>, v: LocatorView, p: (u32, u32, u32))
    ensures
        ({
            let line = "Position: "@ + tuple_text(seq![p.0, p.1, p.2]);
            &&& unmarked(line)
            &&& trimmed(line) == line
            &&& one_line(line)
            &&& v.after(line, t) == (LocatorView { position: p, ..v })
        }),
{
    reveal_strlit("Position: ");
    let xs = seq![p.0, p.1, p.2];
    let line = "Position: "@ + tuple_text(xs);
    lemma_no_paren("Position: "@);
    lemma_tuple(t, "Position: "@, xs);
    assert(line[0] == 'P' && line[1] == 'o');
    lemma_trimmed(line);
    lemma_nearly_marked(line);
    reveal_strlit("Position:");
    reveal_strlit("Name:");
    assert(line.take(9) =~= "Position:"@);
    lemma_not_prefix("Name:"@, line, 0);
}

proof fn lemma_rotation_line(t: Map<Seq<char>, u32>, v: LocatorView, q: (u32, u32, u32, u32))
    ensures
        ({
            let line = "Rotation: "@ + tuple_text(seq![q.0, q.1, q.2, q.3]);
            &&& unmarked(line)
            &&& trimmed(line) == line
            &&& one_line(line)
            &&& v.after(line, t) == (LocatorView { rotation: q, ..v })
        }),
{
    reveal_strlit("Rotation: ");
    let xs = seq![q.0, q.1, q.2, q.3];
    let line = "Rotation: "@ + tuple_text(xs);
    lemma_no_paren("Rotation: "@);
    lemma_tuple(t, "Rotation: "@, xs);
    assert(line[0] == 'R');
    lemma_trimmed(line);
    lemma_unmarked(line);
    reveal_strlit("Rotation:");
    reveal_strlit("Position:");
    reveal_strlit("Name:");
    assert(line.take(9) =~= "Rotation:"@);
    lemma_not_prefix("Name:"@, line, 0);
    lemma_not_prefix("Position:"@, line, 0);
}

proof fn lemma_scale_line(t: Map<Seq<char>, u32>, v: LocatorView, p: (u32, u32, u32))
    ensures
        ({
            let line = "Scale: "@ + tuple_text(seq![p.0, p.1, p.2]);
            &&& unmarked(line)
            &&& trimmed(line) == line
            &&& one_line(line)
            &&& v.after(line, t) == (LocatorView { scale: p, ..v })
        }),
{
    reveal_strlit("Scale: ");
    let xs = seq![p.0, p.1, p.2];
    let line = "Scale: "@ + tuple_text(xs);
    lemma_no_paren("Scale: "@);
    lemma_tuple(t, "Scale: "@, xs);
    assert(line[0] == 'S' && line[1] == 'c');
    lemma_trimmed(line);
    lemma_nearly_marked(line);
    reveal_strlit("Scale:");
    reveal_strlit("Rotation:");
    reveal_strlit("Position:");
    reveal_strlit("Name:");
    assert(line.take(6) =~= "Scale:"@);
    lemma_not_prefix("Name:"@, line, 0);
    lemma_not_prefix("Position:"@, line, 0);
    lemma_not_prefix("Rotation:"@, line, 0);
}

proof fn lemma_piece_mark(st: ReaderView, t: Map<Seq<char>, u32>)
    ensures
        st.after(trimmed("Piece {"@), t) == (ReaderView { piece: Some(PieceView::blank()), ..st }),
        one_line("Piece {"@),
{
    reveal_strlit("Material {");
    reveal_strlit("Material");
    reveal_strlit("Alias:");
    reveal_strlit("Piece {");
    let s = "Piece {"@;
    lemma_trimmed(s);
    lemma_not_prefix("Material {"@, s, 0);
    lemma_not_prefix("Alias:"@, s, 0);
    assert("Material"@.len() == 8);
}

proof fn lemma_part_mark(st: ReaderView, t: Map<Seq<char>, u32>)
    ensures
        st.after(trimmed("Part {"@), t) == (ReaderView { part: Some(PartView::blank()), ..st }),
        one_line("Part {"@),
{
    reveal_strlit("Material {");
    reveal_strlit("Material");
    reveal_strlit("Alias:");
    reveal_strlit("Piece {");
    reveal_strlit("Part {");
    let s = "Part {"@;
    lemma_trimmed(s);
    lemma_not_prefix("Material {"@, s, 0);
    lemma_not_prefix("Alias:"@, s, 0);
    lemma_not_prefix("Piece {"@, s, 1);
    assert("Material"@.len() == 8);
}

proof fn lemma_locator_mark(st: ReaderView, t: Map<Seq<char>, u32>)
    ensures
        st.after(trimmed("Locator {"@), t) == (ReaderView {
            locator: Some(LocatorView::blank()),
            ..st
        }),
        one_line("Locator {"@),
{
    reveal_strlit("Material {");
    reveal_strlit("Material");
    reveal_strlit("Alias:");
    reveal_strlit("Piece {");
    reveal_strlit("Part {");
    reveal_strlit("Locator {");
    let s = "Locator {"@;
    lemma_trimmed(s);
    lemma_not_prefix("Material {"@, s, 0);
    lemma_not_prefix("Alias:"@, s, 0);
    lemma_not_prefix("Piece {"@, s, 0);
    lemma_not_prefix("Part {"@, s, 0);
    assert("Material"@.len() == 8);
}

proof fn lemma_stream_mark(st: ReaderView, t: Map<Seq<char>, u32>)
    ensures
        st.after(trimmed("Stream {"@), t) == (ReaderView {
            in_stream: true,
            tag: Seq::empty(),
            ..st
        }),
        one_line("Stream {"@),
{
    reveal_strlit("Material {");
    reveal_strlit("Material");
    reveal_strlit("Alias:");
    reveal_strlit("Piece {");
    reveal_strlit("Part {");
    reveal_strlit("Locator {");
    reveal_strlit("Stream {");
    let s = "Stream {"@;
    lemma_trimmed(s);
    lemma_not_prefix("Material {"@, s, 0);
    lemma_not_prefix("Alias:"@, s, 0);
    lemma_not_prefix("Piece {"@, s, 0);
    lemma_not_prefix("Part {"@, s, 0);
    lemma_not_prefix("Locator {"@, s, 0);
    assert("Material"@[0] == 'M');
    assert(s[0] == 'S');
}

proof fn lemma_triangles_mark(st: ReaderView, t: Map<Seq<char>, u32>)
    ensures
        st.after(trimmed("Triangles {"@), t) == (ReaderView { in_tris: true, ..st }),
        one_line("Triangles {"@),
{
    reveal_strlit("Material {");
    reveal_strlit("Material");
    reveal_strlit("Alias:");
    reveal_strlit("Piece {");
    reveal_strlit("Part {");
    reveal_strlit("Locator {");
    reveal_strlit("Stream {");
    reveal_strlit("Triangles");
    reveal_strlit("Triangles {");
    let s = "Triangles {"@;
    lemma_trimmed(s);
    lemma_not_prefix("Material {"@, s, 0);
    lemma_not_prefix("Alias:"@, s, 0);
    lemma_not_prefix("Piece {"@, s, 0);
    lemma_not_prefix("Part {"@, s, 0);
    lemma_not_prefix("Locator {"@, s, 0);
    lemma_not_prefix("Stream {"@, s, 0);
    assert("Material"@.len() == 8);
    assert(s.take(9) =~= "Triangles"@);
}

proof fn lemma_end_mark(st: ReaderView, t: Map<Seq<char>, u32>)
    ensures
        st.after(trimmed("}"@), t) == st.closed(),
        one_line("}"@),
{
    reveal_strlit("Material {");
    reveal_strlit("Material");
    reveal_strlit("Alias:");
    reveal_strlit("Piece {");
    reveal_strlit("Part {");
    reveal_strlit("Locator {");
    reveal_strlit("Stream {");
    reveal_strlit("Triangles");
    reveal_strlit("}");
    let s = "}"@;
    lemma_trimmed(s);
    lemma_not_prefix("Material {"@, s, 0);
    lemma_not_prefix("Alias:"@, s, 0);
    lemma_not_prefix("Piece {"@, s, 0);
    lemma_not_prefix("Part {"@, s, 0);
    lemma_not_prefix("Locator {"@, s, 0);
    lemma_not_prefix("Stream {"@, s, 0);
    lemma_not_prefix("Triangles"@, s, 0);
    assert("Material"@.len() == 8);
}

proof fn lemma_locator_block(st: ReaderView, l: Placed, t: Map<Seq<char>, u32>)
    requires
        between_blocks(st),
        quotable(l.name),
    ensures
        read_on(st, locator_lines(l), t) == (ReaderView {
            model: ModelView { locators: st.model.locators.push(locator_view(l)), ..st.model },
            ..st
        }),
        forall|i: int| 0 <= i < 6 ==> one_line(#[trigger] locator_lines(l)[i]),
{
    let ls = locator_lines(l);
    let v1 = LocatorView::blank();
    let v2 = LocatorView { name: l.name, ..v1 };
    let v3 = LocatorView { position: l.position, ..v2 };
    let v4 = LocatorView { rotation: (l.w, l.x, l.y, l.z), ..v3 };
    let v5 = LocatorView { scale: l.scale, ..v4 };
    let s1 = ReaderView { locator: Some(v1), ..st };
    let s2 = ReaderView { locator: Some(v2), ..st };
    let s3 = ReaderView { locator: Some(v3), ..st };
    let s4 = ReaderView { locator: Some(v4), ..st };
    let s5 = ReaderView { locator: Some(v5), ..st };
    lemma_locator_mark(st, t);
    lemma_name_line(l.name);
    lemma_in_locator(s1, v1, ls[1], t);
    assert(s1.after(ls[1], t) == s2);
    lemma_position_line(t, v2, l.position);
    lemma_in_locator(s2, v2, ls[2], t);
    assert(s2.after(ls[2], t) == s3);
    lemma_rotation_line(t, v3, (l.w, l.x, l.y, l.z));
    lemma_in_locator(s3, v3, ls[3], t);
    assert(s3.after(ls[3], t) == s4);
    lemma_scale_line(t, v4, l.scale);
    lemma_in_locator(s4, v4, ls[4], t);
    assert(s4.after(ls[4], t) == s5);
    lemma_end_mark(s5, t);
    lemma_read_six(st, ls, t);
}

proof fn lemma_read_six(st: ReaderView, ls: Seq<Seq<char>>, t: Map<Seq<char>, u32>)
    requires
        ls.len() == 6,
    ensures
        read_on(st, ls, t) == st.after(trimmed(ls[0]), t).after(trimmed(ls[1]), t).after(
            trimmed(ls[2]),
            t,
        ).after(trimmed(ls[3]), t).after(trimmed(ls[4]), t).after(trimmed(ls[5]), t),
{
    let l5 = ls.drop_last();
    let l4 = l5.drop_last();
    let l3 = l4.drop_last();
    let l2 = l3.drop_last();
    let l1 = l2.drop_last();
    assert(l1.drop_last() =~= Seq::<Seq<char>>::empty());
    assert(l1.last() == ls[0] && l2.last() == ls[1] && l3.last() == ls[2] && l4.last() == ls[3]
        && l5.last() == ls[4]);
    reveal_with_fuel(read_on, 7);
}

// ---------------------------------------------------------------- parts ---

pub open spec fn decimals(v: Seq<usize>) -> Seq<Seq<char>> {
    Seq::new(v.len(), |i: int| digits(v[i] as nat, 10))
}

/// A part's block.
pub open spec fn part_lines(p: PartView) -> Seq<Seq<char>> {
    seq![
        "Part {"@,
        quoting("Name:"@, p.name),
        "Pieces:"@ + spaced(decimals(p.pieces)),
        "Locators:"@ + spaced(decimals(p.locators)),
        "}"@,
    ]
}

proof fn lemma_indices(v: Seq<usize>)
    ensures
        indices(decimals(v)) == v,
    decreases v.len(),
{
    if v.len() > 0 {
        let u = v.drop_last();
        lemma_indices(u);
        assert(decimals(v).drop_last() =~= decimals(u));
        numbers_are_read_back(v.last() as nat, 10, 0, usize::MAX as nat);
        assert(u.push(v.last()) =~= v);
    } else {
        assert(indices(decimals(v)) =~= v);
    }
}

/// A list of numbers behind a word and a colon is read back.
proof fn lemma_number_list(word: Seq<char>, v: Seq<usize>)
    requires
        word.len() > 0,
        !word.contains(':'),
        !word.contains('\n'),
        !space(word[0]),
    ensures
        ({
            let line = word.push(':') + spaced(decimals(v));
            &&& indices(words(colon_text(line))) == v
            &&& trimmed(line) == line
            &&& one_line(line)
        }),
{
    let ws = decimals(v);
    let body = spaced(ws);
    let line = word.push(':') + body;
    assert forall|i: int| 0 <= i < ws.len() implies one_word(#[trigger] ws[i]) by {
        numbers_are_read_back(v[i] as nat, 10, 0, usize::MAX as nat);
    }
    assert forall|i: int, j: int|
        0 <= i < ws.len() && 0 <= j < ws[i].len() implies digit_like(#[trigger] ws[i][j]) by {
        numbers_are_read_back(v[i] as nat, 10, 0, usize::MAX as nat);
        let d = digits(v[i] as nat, 10);
        assert(crate::text::digit_value(d[j], 10) is Some);
    }
    lemma_spaced_chars(ws);
    words_are_read_back(ws);
    lemma_halves_around(word, body, ':');
    lemma_indices(v);
    if v.len() == 0 {
        assert(body =~= Seq::<char>::empty());
        assert(line.last() == ':');
        assert(trimmed(body) =~= body);
    } else {
        lemma_spaced_ends(ws);
        let inner = body.skip(1);
        assert(space(' '));
        assert(front_trimmed(inner, Class::Space) == inner);
        assert(front_trimmed(body, Class::Space) == inner);
        assert(inner.last() == body.last());
        assert(trimmed(body) == inner);
        assert(body =~= seq![' '] + inner);
        lemma_blank_in_front(inner);
        assert(line.last() == body.last());
    }
    lemma_trimmed(line);
    if line.contains('\n') {
        let i = line.index_of('\n');
        if i < word.len() {
            assert(word[i] == '\n');
        } else if i > word.len() {
            assert(line[i] == body[i - word.len() - 1]);
        }
    }
}

/// How words with blanks before them begin and end.
proof fn lemma_spaced_ends(ws: Seq<Seq<char>>)
    requires
        ws.len() > 0,
        forall|i: int| 0 <= i < ws.len() ==> one_word(#[trigger] ws[i]),
    ensures
        spaced(ws).len() >= 2,
        spaced(ws)[0] == ' ',
        !space(spaced(ws)[1]),
        !space(spaced(ws).last()),
    decreases ws.len(),
{
    let front = ws.drop_last();
    let w = ws.last();
    assert(one_word(ws[ws.len() - 1]));
    assert(spaced(ws).last() == w[w.len() - 1]);
    if front.len() > 0 {
        assert forall|i: int| 0 <= i < front.len() implies one_word(#[trigger] front[i]) by {
            assert(ws[i] == front[i]);
        }
        lemma_spaced_ends(front);
    } else {
        assert(spaced(front).len() == 0);
        assert(spaced(ws)[1] == w[0]);
    }
}

proof fn lemma_in_part(st: ReaderView, v: PartView, line: Seq<char>, t: Map<Seq<char>, u32>)
    requires
        st.locator is None,
        st.part == Some(v),
        unmarked(line),
    ensures
        st.after(line, t) == (ReaderView { part: Some(v.after(line)), ..st }),
{
}

proof fn lemma_pieces_line(v: PartView, xs: Seq<usize>)
    ensures
        ({
            let line = "Pieces:"@ + spaced(decimals(xs));
            &&& unmarked(line)
            &&& trimmed(line) == line
            &&& one_line(line)
            &&& v.after(line) == (PartView { pieces: xs, ..v })
        }),
{
    reveal_strlit("Pieces:");
    reveal_strlit("Name:");
    let word = seq!['P', 'i', 'e', 'c', 'e', 's'];
    let line = "Pieces:"@ + spaced(decimals(xs));
    assert("Pieces:"@ =~= word.push(':'));
    lemma_number_list(word, xs);
    assert(line[0] == 'P' && line[1] == 'i' && line[5] == 's' && line[4] == 'e');
    lemma_short_mark(line);
    assert(line.take(7) =~= "Pieces:"@);
    lemma_not_prefix("Name:"@, line, 0);
}

proof fn lemma_locators_line(v: PartView, xs: Seq<usize>)
    ensures
        ({
            let line = "Locators:"@ + spaced(decimals(xs));
            &&& unmarked(line)
            &&& trimmed(line) == line
            &&& one_line(line)
            &&& v.after(line) == (PartView { locators: xs, ..v })
        }),
{
    reveal_strlit("Locators:");
    reveal_strlit("Pieces:");
    reveal_strlit("Name:");
    let word = seq!['L', 'o', 'c', 'a', 't', 'o', 'r', 's'];
    let line = "Locators:"@ + spaced(decimals(xs));
    assert("Locators:"@ =~= word.push(':'));
    lemma_number_list(word, xs);
    assert(line[0] == 'L' && line[7] == 's');
    lemma_short_mark(line);
    assert(line.take(9) =~= "Locators:"@);
    lemma_not_prefix("Name:"@, line, 0);
    lemma_not_prefix("Pieces:"@, line, 0);
}

/// A line like `Pieces:` or `Locators:` opens no block.
proof fn lemma_short_mark(line: Seq<char>)
    requires
        line.len() >= 7,
        line[0] == 'P' || line[0] == 'L',
        line[0] == 'P' ==> line[1] == 'i' && line[5] != ' ',
        line[0] == 'L' ==> line.len() >= 9 && line[7] != ' ',
    ensures
        unmarked(line),
{
    reveal_strlit("Material {");
    reveal_strlit("Material");
    reveal_strlit("Alias:");
    reveal_strlit("Piece {");
    reveal_strlit("Part {");
    reveal_strlit("Locator {");
    reveal_strlit("Stream {");
    reveal_strlit("Triangles");
    reveal_strlit("}");
    lemma_not_prefix("Material {"@, line, 0);
    lemma_not_prefix("Alias:"@, line, 0);
    lemma_not_prefix("Stream {"@, line, 0);
    lemma_not_prefix("Triangles"@, line, 0);
    if line[0] == 'P' {
        lemma_not_prefix("Piece {"@, line, 5);
        lemma_not_prefix("Part {"@, line, 1);
        lemma_not_prefix("Locator {"@, line, 0);
    } else {
        lemma_not_prefix("Piece {"@, line, 0);
        lemma_not_prefix("Part {"@, line, 0);
        lemma_not_prefix("Locator {"@, line, 7);
    }
    assert("Material"@[0] == 'M');
    assert("}"@.len() == 1);
}

proof fn lemma_part_block(st: ReaderView, p: PartView, t: Map<Seq<char>, u32>)
    requires
        between_blocks(st),
        quotable(p.name),
    ensures
        read_on(st, part_lines(p), t) == (ReaderView {
            model: ModelView { parts: st.model.parts.push(p), ..st.model },
            ..st
        }),
        forall|i: int| 0 <= i < 5 ==> one_line(#[trigger] part_lines(p)[i]),
{
    reveal_strlit("Name:");
    let ls = part_lines(p);
    let v1 = PartView::blank();
    let v2 = PartView { name: p.name, ..v1 };
    let v3 = PartView { pieces: p.pieces, ..v2 };
    let v4 = PartView { locators: p.locators, ..v3 };
    let s1 = ReaderView { part: Some(v1), ..st };
    let s2 = ReaderView { part: Some(v2), ..st };
    let s3 = ReaderView { part: Some(v3), ..st };
    let s4 = ReaderView { part: Some(v4), ..st };
    lemma_part_mark(st, t);
    lemma_name_line(p.name);
    lemma_in_part(s1, v1, ls[1], t);
    assert(s1.after(ls[1], t) == s2);
    lemma_pieces_line(v2, p.pieces);
    lemma_in_part(s2, v2, ls[2], t);
    assert(s2.after(ls[2], t) == s3);
    lemma_locators_line(v3, p.locators);
    lemma_in_part(s3, v3, ls[3], t);
    assert(s3.after(ls[3], t) == s4);
    assert(v4 == p);
    lemma_end_mark(s4, t);
    let l4 = ls.drop_last();
    let l3 = l4.drop_last();
    let l2 = l3.drop_last();
    let l1 = l2.drop_last();
    assert(l1.drop_last() =~= Seq::<Seq<char>>::empty());
    assert(l1.last() == ls[0] && l2.last() == ls[1] && l3.last() == ls[2] && l4.last() == ls[3]);
    reveal_with_fuel(read_on, 6);
}

// --------------------------------------------------------------- pieces ---

/// A numbered row.
pub open spec fn row(i: int, xs: Seq<u32>) -> Seq<char> {
    digits(i as nat, 10) + " "@ + tuple_text(xs)
}

pub open spec fn rows(v: Seq<Seq<u32>>) -> Seq<Seq<char>> {
    Seq::new(v.len(), |i: int| row(i, v[i]))
}

/// What a stream carries.
pub enum Kind {
    Position,
    Normal,
    Uv0,
    Uv1,
    Rgba,
    Rgb,
}

pub open spec fn tag_of(k: Kind) -> Seq<char> {
    match k {
        Kind::Position => "_POSITION"@,
        Kind::Normal => "_NORMAL"@,
        Kind::Uv0 => "_UV0"@,
        Kind::Uv1 => "_UV1"@,
        Kind::Rgba => "_RGBA"@,
        Kind::Rgb => "_RGB"@,
    }
}

/// How many numbers a row has.
pub open spec fn width_of(k: Kind) -> nat {
    match k {
        Kind::Position => 3,
        Kind::Normal => 3,
        Kind::Uv0 => 2,
        Kind::Uv1 => 2,
        Kind::Rgba => 4,
        Kind::Rgb => 3,
    }
}

/// The piece `p` with all rows of one more stream. A colour without alpha is
/// opaque.
pub open spec fn grown(p: PieceView, k: Kind, v: Seq<Seq<u32>>) -> PieceView {
    let triples = Seq::new(v.len(), |i: int| (v[i][0], v[i][1], v[i][2]));
    let doubles = Seq::new(v.len(), |i: int| (v[i][0], v[i][1]));
    match k {
        Kind::Position => PieceView { positions: p.positions + triples, ..p },
        Kind::Normal => PieceView { normals: p.normals + triples, ..p },
        Kind::Uv0 => PieceView { uv0: p.uv0 + doubles, ..p },
        Kind::Uv1 => PieceView { uv1: p.uv1 + doubles, ..p },
        Kind::Rgba => PieceView {
            rgba: p.rgba + Seq::new(
                v.len(),
                |i: int| Colour::Floats(v[i][0], v[i][1], v[i][2], v[i][3]),
            ),
            ..p
        },
        Kind::Rgb => PieceView {
            rgba: p.rgba + Seq::new(
                v.len(),
                |i: int| Colour::Floats(v[i][0], v[i][1], v[i][2], 0x3f80_0000),
            ),
            ..p
        },
    }
}

proof fn lemma_tags(k: Kind, p: PieceView, xs: Seq<u32>)
    requires
        xs.len() == width_of(k),
    ensures
        p.with_value(tag_of(k), xs) == grown(p, k, seq![xs]),
        quotable(tag_of(k)),
{
    reveal_strlit("_POSITION");
    reveal_strlit("_NORMAL");
    reveal_strlit("_UV0");
    reveal_strlit("_UV1");
    reveal_strlit("_RGBA");
    reveal_strlit("_RGB");
    assert("_POSITION"@.len() == 9 && "_NORMAL"@.len() == 7 && "_UV0"@.len() == 4 && "_UV1"@.len()
        == 4 && "_RGBA"@.len() == 5 && "_RGB"@.len() == 4);
    assert("_UV0"@[3] == '0' && "_UV1"@[3] == '1' && "_RGB"@[3] == 'B');
    assert(p.with_value(tag_of(k), xs) =~= grown(p, k, seq![xs]));
}

proof fn lemma_row(t: Map<Seq<char>, u32>, i: int, xs: Seq<u32>)
    requires
        i >= 0,
    ensures
        ({
            let line = row(i, xs);
            &&& unmarked(line)
            &&& trimmed(line) == line
            &&& one_line(line)
            &&& tuple_bits(t, line) == xs
            &&& !"Tag:"@.is_prefix_of(line)
            &&& !"Format:"@.is_prefix_of(line)
            &&& !"Alias"@.is_prefix_of(line)
        }),
{
    reveal_strlit(" ");
    reveal_strlit("Tag:");
    reveal_strlit("Format:");
    reveal_strlit("Alias");
    let d = digits(i as nat, 10);
    let front = d + " "@;
    numbers_are_read_back(i as nat, 10, 0, i as nat);
    if front.contains('(') {
        let k = front.index_of('(');
        assert(k < d.len());
        assert(crate::text::digit_value(d[k], 10) is Some);
    }
    if front.contains('\n') {
        let k = front.index_of('\n');
        assert(k < d.len());
        assert(crate::text::digit_value(d[k], 10) is Some);
    }
    lemma_tuple(t, front, xs);
    let line = row(i, xs);
    assert(line[0] == d[0]);
    assert(crate::text::digit_value(d[0], 10) is Some);
    lemma_trimmed(line);
    lemma_unmarked(line);
    lemma_not_prefix("Tag:"@, line, 0);
    lemma_not_prefix("Format:"@, line, 0);
    lemma_not_prefix("Alias"@, line, 0);
}

/// Whether a reader stands in the piece `p`, in no block inside it.
pub open spec fn in_piece(st: ReaderView, p: PieceView) -> bool {
    st.piece == Some(p) && st.part is None && st.locator is None && !st.in_stream && !st.in_tris
        && st.tag.len() == 0
}

proof fn lemma_in_stream(
    st: ReaderView,
    p: PieceView,
    k: Kind,
    i: int,
    xs: Seq<u32>,
    t: Map<Seq<char>, u32>,
)
    requires
        st.piece == Some(p),
        st.part is None,
        st.locator is None,
        st.in_stream,
        !st.in_tris,
        st.tag == tag_of(k),
        i >= 0,
        xs.len() == width_of(k),
    ensures
        st.after(trimmed(row(i, xs)), t) == (ReaderView {
            piece: Some(grown(p, k, seq![xs])),
            ..st
        }),
{
    lemma_row(t, i, xs);
    lemma_tags(k, p, xs);
}

proof fn lemma_stream_rows(
    st: ReaderView,
    p: PieceView,
    k: Kind,
    v: Seq<Seq<u32>>,
    t: Map<Seq<char>, u32>,
)
    requires
        st.piece == Some(p),
        st.part is None,
        st.locator is None,
        st.in_stream,
        !st.in_tris,
        st.tag == tag_of(k),
        forall|i: int| 0 <= i < v.len() ==> (#[trigger] v[i]).len() == width_of(k),
    ensures
        read_on(st, rows(v), t) == (ReaderView { piece: Some(grown(p, k, v)), ..st }),
    decreases v.len(),
{
    if v.len() == 0 {
        assert(grown(p, k, v) =~= p);
        assert(read_on(st, rows(v), t) =~= (ReaderView { piece: Some(grown(p, k, v)), ..st }));
    } else {
        let u = v.drop_last();
        assert forall|i: int| 0 <= i < u.len() implies (#[trigger] u[i]).len() == width_of(k) by {
            assert(u[i] == v[i]);
        }
        lemma_stream_rows(st, p, k, u, t);
        assert(rows(v).drop_last() =~= rows(u));
        let q = grown(p, k, u);
        let mid = ReaderView { piece: Some(q), ..st };
        assert(v[v.len() - 1].len() == width_of(k));
        lemma_in_stream(mid, q, k, v.len() - 1, v.last(), t);
        assert(grown(q, k, seq![v.last()]) =~= grown(p, k, v));
    }
}

/// A stream's block.
pub open spec fn stream_lines(k: Kind, v: Seq<Seq<u32>>) -> Seq<Seq<char>> {
    seq!["Stream {"@, quoting("Tag:"@, tag_of(k))] + rows(v) + seq!["}"@]
}

proof fn lemma_tag_line(st: ReaderView, k: Kind, t: Map<Seq<char>, u32>)
    requires
        st.piece is Some,
        st.part is None,
        st.locator is None,
        st.in_stream,
        !st.in_tris,
    ensures
        st.after(trimmed(quoting("Tag:"@, tag_of(k))), t) == (ReaderView { tag: tag_of(k), ..st }),
        one_line(quoting("Tag:"@, tag_of(k))),
{
    reveal_strlit("Tag:");
    let line = quoting("Tag:"@, tag_of(k));
    lemma_tags(k, PieceView::blank(), Seq::new(width_of(k), |i: int| 0u32));
    assert(quotable("Tag:"@));
    lemma_quoting("Tag:"@, tag_of(k));
    assert(line[0] == 'T' && line[1] == 'a');
    lemma_trimmed(line);
    lemma_tag_unmarked(line);
}

proof fn lemma_tag_unmarked(line: Seq<char>)
    requires
        line.len() > 1,
        line[0] == 'T',
        line[1] != 'r',
    ensures
        unmarked(line),
{
    reveal_strlit("Material {");
    reveal_strlit("Material");
    reveal_strlit("Alias:");
    reveal_strlit("Piece {");
    reveal_strlit("Part {");
    reveal_strlit("Locator {");
    reveal_strlit("Stream {");
    reveal_strlit("Triangles");
    reveal_strlit("}");
    lemma_not_prefix("Material {"@, line, 0);
    lemma_not_prefix("Alias:"@, line, 0);
    lemma_not_prefix("Piece {"@, line, 0);
    lemma_not_prefix("Part {"@, line, 0);
    lemma_not_prefix("Locator {"@, line, 0);
    lemma_not_prefix("Stream {"@, line, 0);
    lemma_not_prefix("Triangles"@, line, 1);
    assert("Material"@[0] == 'M');
    assert("}"@.len() == 1);
}

proof fn lemma_stream_block(
    st: ReaderView,
    p: PieceView,
    k: Kind,
    v: Seq<Seq<u32>>,
    t: Map<Seq<char>, u32>,
)
    requires
        in_piece(st, p),
        forall|i: int| 0 <= i < v.len() ==> (#[trigger] v[i]).len() == width_of(k),
    ensures
        read_on(st, stream_lines(k, v), t) == (ReaderView { piece: Some(grown(p, k, v)), ..st }),
{
    let a = seq!["Stream {"@];
    let b = seq![quoting("Tag:"@, tag_of(k))];
    let c = rows(v);
    let d = seq!["}"@];
    assert(stream_lines(k, v) =~= a + b + c + d);
    lemma_read_in_turn(st, a + b + c, d, t);
    lemma_read_in_turn(st, a + b, c, t);
    lemma_read_in_turn(st, a, b, t);
    let none = Seq::<char>::empty();
    lemma_stream_mark(st, t);
    lemma_read_one(st, "Stream {"@, t);
    let s1 = ReaderView { in_stream: true, tag: none, ..st };
    lemma_tag_line(s1, k, t);
    lemma_read_one(s1, quoting("Tag:"@, tag_of(k)), t);
    let s2 = ReaderView { tag: tag_of(k), ..s1 };
    lemma_stream_rows(s2, p, k, v, t);
    let s3 = ReaderView { piece: Some(grown(p, k, v)), ..s2 };
    lemma_end_mark(s3, t);
    lemma_read_one(s3, "}"@, t);
    assert(st.tag =~= none);
    assert(s3.closed() =~= (ReaderView { piece: Some(grown(p, k, v)), ..st }));
}

/// A block of triangles.
pub open spec fn triangle_lines(v: Seq<Seq<u32>>) -> Seq<Seq<char>> {
    seq!["Triangles {"@] + rows(v) + seq!["}"@]
}

pub open spec fn with_triangles(p: PieceView, v: Seq<Seq<u32>>) -> PieceView {
    PieceView {
        tris: p.tris + Seq::new(v.len(), |i: int| (whole(v[i][0]), whole(v[i][1]), whole(v[i][2]))),
        ..p
    }
}

proof fn lemma_in_triangles(
    st: ReaderView,
    p: PieceView,
    i: int,
    xs: Seq<u32>,
    t: Map<Seq<char>, u32>,
)
    requires
        st.piece == Some(p),
        st.part is None,
        st.locator is None,
        st.in_tris,
        i >= 0,
        xs.len() == 3,
    ensures
        st.after(trimmed(row(i, xs)), t) == (ReaderView {
            piece: Some(with_triangles(p, seq![xs])),
            ..st
        }),
{
    lemma_row(t, i, xs);
    assert(p.with_triangle(xs) =~= with_triangles(p, seq![xs]));
}

proof fn lemma_triangle_rows(
    st: ReaderView,
    p: PieceView,
    v: Seq<Seq<u32>>,
    t: Map<Seq<char>, u32>,
)
    requires
        st.piece == Some(p),
        st.part is None,
        st.locator is None,
        st.in_tris,
        forall|i: int| 0 <= i < v.len() ==> (#[trigger] v[i]).len() == 3,
    ensures
        read_on(st, rows(v), t) == (ReaderView { piece: Some(with_triangles(p, v)), ..st }),
    decreases v.len(),
{
    if v.len() == 0 {
        assert(with_triangles(p, v) =~= p);
        assert(read_on(st, rows(v), t) =~= (ReaderView {
            piece: Some(with_triangles(p, v)),
            ..st
        }));
    } else {
        let u = v.drop_last();
        assert forall|i: int| 0 <= i < u.len() implies (#[trigger] u[i]).len() == 3 by {
            assert(u[i] == v[i]);
        }
        lemma_triangle_rows(st, p, u, t);
        assert(rows(v).drop_last() =~= rows(u));
        let q = with_triangles(p, u);
        let mid = ReaderView { piece: Some(q), ..st };
        assert(v[v.len() - 1].len() == 3);
        lemma_in_triangles(mid, q, v.len() - 1, v.last(), t);
        assert(with_triangles(q, seq![v.last()]) =~= with_triangles(p, v));
    }
}

proof fn lemma_triangle_block(
    st: ReaderView,
    p: PieceView,
    v: Seq<Seq<u32>>,
    t: Map<Seq<char>, u32>,
)
    requires
        in_piece(st, p),
        forall|i: int| 0 <= i < v.len() ==> (#[trigger] v[i]).len() == 3,
    ensures
        read_on(st, triangle_lines(v), t) == (ReaderView {
            piece: Some(with_triangles(p, v)),
            ..st
        }),
{
    let a = seq!["Triangles {"@];
    let c = rows(v);
    let d = seq!["}"@];
    lemma_read_in_turn(st, a + c, d, t);
    lemma_read_in_turn(st, a, c, t);
    lemma_triangles_mark(st, t);
    lemma_read_one(st, "Triangles {"@, t);
    let s1 = ReaderView { in_tris: true, ..st };
    lemma_triangle_rows(s1, p, v, t);
    let s2 = ReaderView { piece: Some(with_triangles(p, v)), ..s1 };
    lemma_end_mark(s2, t);
    lemma_read_one(s2, "}"@, t);
}

/// A piece as a writer has it. The corners of the triangles are numbers like all
/// others, given by their bits.
pub struct Shown {
    pub material: usize,
    pub positions: Seq<(u32, u32, u32)>,
    pub normals: Seq<(u32, u32, u32)>,
    pub uv0: Seq<(u32, u32)>,
    pub uv1: Seq<(u32, u32)>,
    pub rgba: Seq<(u32, u32, u32, u32)>,
    pub rgb: Seq<(u32, u32, u32)>,
    pub triangles: Seq<(u32, u32, u32)>,
}

pub open spec fn threes(v: Seq<(u32, u32, u32)>) -> Seq<Seq<u32>> {
    Seq::new(v.len(), |i: int| seq![v[i].0, v[i].1, v[i].2])
}

pub open spec fn twos(v: Seq<(u32, u32)>) -> Seq<Seq<u32>> {
    Seq::new(v.len(), |i: int| seq![v[i].0, v[i].1])
}

pub open spec fn fours(v: Seq<(u32, u32, u32, u32)>) -> Seq<Seq<u32>> {
    Seq::new(v.len(), |i: int| seq![v[i].0, v[i].1, v[i].2, v[i].3])
}

/// A piece's block: the index of its material, its streams, its triangles.
pub open spec fn piece_lines(p: Shown) -> Seq<Seq<char>> {
    seq!["Piece {"@, "Material: "@ + digits(p.material as nat, 10)] + stream_lines(
        Kind::Position,
        threes(p.positions),
    ) + stream_lines(Kind::Normal, threes(p.normals)) + stream_lines(Kind::Uv0, twos(p.uv0))
        + stream_lines(Kind::Uv1, twos(p.uv1)) + stream_lines(Kind::Rgba, fours(p.rgba))
        + stream_lines(Kind::Rgb, threes(p.rgb)) + triangle_lines(threes(p.triangles)) + seq!["}"@]
}

pub open spec fn piece_view(p: Shown) -> PieceView {
    PieceView {
        material: p.material,
        positions: p.positions,
        normals: p.normals,
        uv0: p.uv0,
        uv1: p.uv1,
        rgba: Seq::new(
            p.rgba.len(),
            |i: int| Colour::Floats(p.rgba[i].0, p.rgba[i].1, p.rgba[i].2, p.rgba[i].3),
        ) + Seq::new(
            p.rgb.len(),
            |i: int| Colour::Floats(p.rgb[i].0, p.rgb[i].1, p.rgb[i].2, 0x3f80_0000),
        ),
        tris: Seq::new(
            p.triangles.len(),
            |i: int|
                (
                    whole(p.triangles[i].0),
                    whole(p.triangles[i].1),
                    whole(p.triangles[i].2),
                ),
        ),
    }
}

proof fn lemma_material_line(st: ReaderView, p: PieceView, n: usize, t: Map<Seq<char>, u32>)
    requires
        in_piece(st, p),
    ensures
        st.after(trimmed("Material: "@ + digits(n as nat, 10)), t) == (ReaderView {
            piece: Some(PieceView { material: n, ..p }),
            ..st
        }),
        one_line("Material: "@ + digits(n as nat, 10)),
{
    reveal_strlit("Material: ");
    reveal_strlit("Material:");
    let d = digits(n as nat, 10);
    let line = "Material: "@ + d;
    numbers_are_read_back(n as nat, 10, 0, usize::MAX as nat);
    assert(line[0] == 'M' && line[8] == ':');
    assert(line.last() == d[d.len() - 1]);
    lemma_trimmed(line);
    lemma_nearly_marked(line);
    let word = seq!['M', 'a', 't', 'e', 'r', 'i', 'a', 'l'];
    let tail = seq![' '] + d;
    assert(line =~= word.push(':') + tail);
    lemma_halves_around(word, tail, ':');
    assert(space(' '));
    assert(tail.skip(1) =~= d);
    assert(tail[0] == ' ');
    assert(!space(d[0]));
    assert(front_trimmed(d, Class::Space) == d);
    assert(front_trimmed(tail, Class::Space) == d);
    assert(!space(d[d.len() - 1]));
    assert(colon_text(line) == d);
    assert(line.take(9) =~= "Material:"@);
    if line.contains('\n') {
        let i = line.index_of('\n');
        if i >= 10 {
            assert(!space(d[i - 10]));
        }
    }
}

/// One more stream of a piece.
proof fn lemma_next_stream(
    st: ReaderView,
    before: Seq<Seq<char>>,
    p: PieceView,
    k: Kind,
    v: Seq<Seq<u32>>,
    t: Map<Seq<char>, u32>,
)
    requires
        in_piece(ReaderView { piece: Some(p), ..st }, p),
        read_on(st, before, t) == (ReaderView { piece: Some(p), ..st }),
        forall|i: int| 0 <= i < v.len() ==> (#[trigger] v[i]).len() == width_of(k),
    ensures
        read_on(st, before + stream_lines(k, v), t) == (ReaderView {
            piece: Some(grown(p, k, v)),
            ..st
        }),
{
    lemma_read_in_turn(st, before, stream_lines(k, v), t);
    lemma_stream_block(ReaderView { piece: Some(p), ..st }, p, k, v, t);
}

/// All streams of a piece make the piece.
pub open spec fn with_streams(p: PieceView, s: Shown) -> PieceView {
    let p1 = grown(p, Kind::Position, threes(s.positions));
    let p2 = grown(p1, Kind::Normal, threes(s.normals));
    let p3 = grown(p2, Kind::Uv0, twos(s.uv0));
    let p4 = grown(p3, Kind::Uv1, twos(s.uv1));
    let p5 = grown(p4, Kind::Rgba, fours(s.rgba));
    grown(p5, Kind::Rgb, threes(s.rgb))
}

proof fn lemma_with_streams(s: Shown)
    ensures
        with_streams(PieceView { material: s.material, ..PieceView::blank() }, s) == (PieceView {
            tris: Seq::empty(),
            ..piece_view(s)
        }),
{
    let p = PieceView { material: s.material, ..PieceView::blank() };
    let r = with_streams(p, s);
    let e = PieceView { tris: Seq::empty(), ..piece_view(s) };
    assert(r.positions =~= e.positions);
    assert(r.normals =~= e.normals);
    assert(r.uv0 =~= e.uv0);
    assert(r.uv1 =~= e.uv1);
    assert(r.rgba =~= e.rgba);
    assert(r.tris =~= e.tris);
    assert(r =~= e);
}

/// The streams of a piece, one after the other.
proof fn lemma_streams(st: ReaderView, p: PieceView, s: Shown, t: Map<Seq<char>, u32>)
    requires
        in_piece(st, p),
    ensures
        read_on(
            st,
            stream_lines(Kind::Position, threes(s.positions)) + stream_lines(
                Kind::Normal,
                threes(s.normals),
            ) + stream_lines(Kind::Uv0, twos(s.uv0)) + stream_lines(Kind::Uv1, twos(s.uv1))
                + stream_lines(Kind::Rgba, fours(s.rgba)) + stream_lines(Kind::Rgb, threes(s.rgb)),
            t,
        ) == (ReaderView { piece: Some(with_streams(p, s)), ..st }),
{
    let l1 = stream_lines(Kind::Position, threes(s.positions));
    let l2 = stream_lines(Kind::Normal, threes(s.normals));
    let l3 = stream_lines(Kind::Uv0, twos(s.uv0));
    let l4 = stream_lines(Kind::Uv1, twos(s.uv1));
    let l5 = stream_lines(Kind::Rgba, fours(s.rgba));
    let p1 = grown(p, Kind::Position, threes(s.positions));
    let p2 = grown(p1, Kind::Normal, threes(s.normals));
    let p3 = grown(p2, Kind::Uv0, twos(s.uv0));
    let p4 = grown(p3, Kind::Uv1, twos(s.uv1));
    let p5 = grown(p4, Kind::Rgba, fours(s.rgba));
    lemma_stream_block(st, p, Kind::Position, threes(s.positions), t);
    lemma_next_stream(st, l1, p1, Kind::Normal, threes(s.normals), t);
    lemma_next_stream(st, l1 + l2, p2, Kind::Uv0, twos(s.uv0), t);
    lemma_next_stream(st, l1 + l2 + l3, p3, Kind::Uv1, twos(s.uv1), t);
    lemma_next_stream(st, l1 + l2 + l3 + l4, p4, Kind::Rgba, fours(s.rgba), t);
    lemma_next_stream(st, l1 + l2 + l3 + l4 + l5, p5, Kind::Rgb, threes(s.rgb), t);
}

#[verifier::rlimit(40)]
#[verifier::spinoff_prover]
proof fn lemma_piece_block(st: ReaderView, p: Shown, t: Map<Seq<char>, u32>)
    requires
        between_blocks(st),
        st.tag.len() == 0,
    ensures
        read_on(st, piece_lines(p), t) == (ReaderView {
            model: ModelView { pieces: st.model.pieces.push(piece_view(p)), ..st.model },
            ..st
        }),
{
    let a = seq!["Piece {"@];
    let b = seq!["Material: "@ + digits(p.material as nat, 10)];
    let c = stream_lines(Kind::Position, threes(p.positions)) + stream_lines(
        Kind::Normal,
        threes(p.normals),
    ) + stream_lines(Kind::Uv0, twos(p.uv0)) + stream_lines(Kind::Uv1, twos(p.uv1)) + stream_lines(
        Kind::Rgba,
        fours(p.rgba),
    ) + stream_lines(Kind::Rgb, threes(p.rgb));
    let d = triangle_lines(threes(p.triangles));
    let e = seq!["}"@];
    assert(piece_lines(p) =~= a + b + c + d + e);
    lemma_read_in_turn(st, a + b + c + d, e, t);
    lemma_read_in_turn(st, a + b + c, d, t);
    lemma_read_in_turn(st, a + b, c, t);
    lemma_read_in_turn(st, a, b, t);
    lemma_piece_mark(st, t);
    lemma_read_one(st, "Piece {"@, t);
    let v1 = PieceView::blank();
    let s1 = ReaderView { piece: Some(v1), ..st };
    lemma_material_line(s1, v1, p.material, t);
    lemma_read_one(s1, "Material: "@ + digits(p.material as nat, 10), t);
    let v2 = PieceView { material: p.material, ..v1 };
    let s2 = ReaderView { piece: Some(v2), ..st };
    lemma_streams(s2, v2, p, t);
    lemma_with_streams(p);
    let v3 = PieceView { tris: Seq::empty(), ..piece_view(p) };
    let s3 = ReaderView { piece: Some(v3), ..st };
    lemma_triangle_block(s3, v3, threes(p.triangles), t);
    let v4 = with_triangles(v3, threes(p.triangles));
    assert(v4.tris =~= piece_view(p).tris);
    assert(v4 =~= piece_view(p));
    let s4 = ReaderView { piece: Some(v4), ..st };
    lemma_end_mark(s4, t);
    lemma_read_one(s4, "}"@, t);
}

/// The corners of a triangle come out as the numbers that they are: the bits of a
/// whole number `n` that lies between 2 to the power `e` and the next power are the
/// exponent and the digits behind the first.
pub proof fn whole_numbers_are_read_back(n: nat, e: nat)
    requires
        e <= 23,
        pow2(e) <= n < pow2(e + 1),
    ensures
        n * pow2((23 - e) as nat) - 0x80_0000 < 0x80_0000,
        whole(((127 + e) * 0x80_0000 + (n * pow2((23 - e) as nat) - 0x80_0000)) as u32) == n,
        whole(0) == 0,
{
    let d = (23 - e) as nat;
    let m = n * pow2(d);
    lemma2_to64();
    lemma_pow2_adds(e, d);
    lemma_pow2_adds(e + 1, d);
    lemma_pow2_pos(d);
    assert(pow2(23) == 0x80_0000 && pow2(24) == 0x100_0000);
    assert(0x80_0000 <= m < 0x100_0000) by (nonlinear_arith)
        requires
            m == n * pow2(d),
            pow2(e) <= n < pow2(e + 1),
            pow2(e) * pow2(d) == 0x80_0000,
            pow2(e + 1) * pow2(d) == 0x100_0000,
            pow2(d) > 0,
    ;
    let f = m - 0x80_0000;
    let b = (127 + e) * 0x80_0000 + f;
    assert(b / 0x80_0000 == 127 + e && b % 0x80_0000 == f);
    let u = b as u32;
    assert(u == b);
    assert(u / 0x80_0000 % 0x100 == 127 + e);
    assert(u % 0x80_0000 == f);
    if d == 0 {
        assert(m == n) by (nonlinear_arith)
            requires
                m == n * pow2(d),
                pow2(d) == 1,
        ;
    } else {
        assert(150 - (127 + e) == d);
        assert(m / pow2(d) == n) by (nonlinear_arith)
            requires
                m == n * pow2(d),
                pow2(d) > 0,
        ;
    }
}

// --------------------------------------------------------------- models ---

/// A material's block.
pub open spec fn material_lines(name: Seq<char>) -> Seq<Seq<char>> {
    seq!["Material {"@, quoting("Alias:"@, name), "}"@]
}

proof fn lemma_material_mark(st: ReaderView, t: Map<Seq<char>, u32>)
    ensures
        st.after(trimmed("Material {"@), t) == st,
        one_line("Material {"@),
{
    reveal_strlit("Material {");
    lemma_trimmed("Material {"@);
    assert("Material {"@.take(10) =~= "Material {"@);
}

proof fn lemma_material_block(st: ReaderView, name: Seq<char>, t: Map<Seq<char>, u32>)
    requires
        between_blocks(st),
        quotable(name),
    ensures
        read_on(st, material_lines(name), t) == (ReaderView {
            model: ModelView { materials: st.model.materials.push(name), ..st.model },
            ..st
        }),
        one_line(quoting("Alias:"@, name)),
{
    reveal_strlit("Alias:");
    reveal_strlit("Material {");
    reveal_strlit("Material");
    let line = quoting("Alias:"@, name);
    assert(quotable("Alias:"@));
    lemma_quoting("Alias:"@, name);
    assert(line[0] == 'A');
    lemma_trimmed(line);
    lemma_not_prefix("Material {"@, line, 0);
    assert("Material"@[0] == 'M');
    let ls = material_lines(name);
    lemma_material_mark(st, t);
    let s2 = ReaderView {
        model: ModelView { materials: st.model.materials.push(name), ..st.model },
        ..st
    };
    assert(st.after(line, t) == s2);
    lemma_end_mark(s2, t);
    let l2 = ls.drop_last();
    let l1 = l2.drop_last();
    assert(l1.drop_last() =~= Seq::<Seq<char>>::empty());
    assert(l1.last() == ls[0] && l2.last() == ls[1]);
    reveal_with_fuel(read_on, 4);
}

/// A model as a writer has it.
pub struct Printed {
    pub materials: Seq<Seq<char>>,
    pub pieces: Seq<Shown>,
    pub parts: Seq<PartView>,
    pub locators: Seq<Placed>,
}

pub open spec fn all_material_lines(v: Seq<Seq<char>>) -> Seq<Seq<char>>
    decreases v.len(),
{
    if v.len() == 0 {
        Seq::empty()
    } else {
        all_material_lines(v.drop_last()) + material_lines(v.last())
    }
}

pub open spec fn all_piece_lines(v: Seq<Shown>) -> Seq<Seq<char>>
    decreases v.len(),
{
    if v.len() == 0 {
        Seq::empty()
    } else {
        all_piece_lines(v.drop_last()) + piece_lines(v.last())
    }
}

pub open spec fn all_part_lines(v: Seq<PartView>) -> Seq<Seq<char>>
    decreases v.len(),
{
    if v.len() == 0 {
        Seq::empty()
    } else {
        all_part_lines(v.drop_last()) + part_lines(v.last())
    }
}

pub open spec fn all_locator_lines(v: Seq<Placed>) -> Seq<Seq<char>>
    decreases v.len(),
{
    if v.len() == 0 {
        Seq::empty()
    } else {
        all_locator_lines(v.drop_last()) + locator_lines(v.last())
    }
}

/// The lines of a whole model: materials, pieces, parts, locators.
pub open spec fn model_lines(m: Printed) -> Seq<Seq<char>> {
    all_material_lines(m.materials) + all_piece_lines(m.pieces) + all_part_lines(m.parts)
        + all_locator_lines(m.locators)
}

/// Whether all names can stand in quotes.
pub open spec fn printable(m: Printed) -> bool {
    &&& forall|i: int| 0 <= i < m.materials.len() ==> quotable(#[trigger] m.materials[i])
    &&& forall|i: int| 0 <= i < m.parts.len() ==> quotable((#[trigger] m.parts[i]).name)
    &&& forall|i: int| 0 <= i < m.locators.len() ==> quotable((#[trigger] m.locators[i]).name)
}

/// Whether each of some lines can be one.
pub open spec fn all_lines(ls: Seq<Seq<char>>) -> bool {
    forall|i: int| 0 <= i < ls.len() ==> one_line(#[trigger] ls[i])
}

pub proof fn lemma_all_lines(a: Seq<Seq<char>>, b: Seq<Seq<char>>)
    requires
        all_lines(a),
        all_lines(b),
    ensures
        all_lines(a + b),
{
    let c = a + b;
    assert forall|i: int| 0 <= i < c.len() implies one_line(#[trigger] c[i]) by {
        if i < a.len() {
            assert(c[i] == a[i]);
        } else {
            assert(c[i] == b[i - a.len()]);
        }
    }
}

proof fn lemma_rows_are_lines(v: Seq<Seq<u32>>)
    ensures
        all_lines(rows(v)),
{
    assert forall|i: int| 0 <= i < rows(v).len() implies one_line(#[trigger] rows(v)[i]) by {
        lemma_row(Map::empty(), i, v[i]);
    }
}

proof fn lemma_stream_is_lines(k: Kind, v: Seq<Seq<u32>>)
    ensures
        all_lines(stream_lines(k, v)),
{
    let t = Map::<Seq<char>, u32>::empty();
    let st = ReaderView {
        piece: Some(PieceView::blank()),
        in_stream: true,
        ..ReaderView::start()
    };
    lemma_stream_mark(st, t);
    lemma_tag_line(st, k, t);
    lemma_end_mark(st, t);
    lemma_rows_are_lines(v);
    let a = seq!["Stream {"@, quoting("Tag:"@, tag_of(k))];
    assert(all_lines(a));
    lemma_all_lines(a, rows(v));
    assert(all_lines(seq!["}"@]));
    lemma_all_lines(a + rows(v), seq!["}"@]);
}

proof fn lemma_piece_is_lines(p: Shown)
    ensures
        all_lines(piece_lines(p)),
{
    let t = Map::<Seq<char>, u32>::empty();
    let st = ReaderView { piece: Some(PieceView::blank()), ..ReaderView::start() };
    lemma_piece_mark(st, t);
    lemma_material_line(st, PieceView::blank(), p.material, t);
    lemma_triangles_mark(st, t);
    lemma_end_mark(st, t);
    let l0 = seq!["Piece {"@, "Material: "@ + digits(p.material as nat, 10)];
    let l1 = stream_lines(Kind::Position, threes(p.positions));
    let l2 = stream_lines(Kind::Normal, threes(p.normals));
    let l3 = stream_lines(Kind::Uv0, twos(p.uv0));
    let l4 = stream_lines(Kind::Uv1, twos(p.uv1));
    let l5 = stream_lines(Kind::Rgba, fours(p.rgba));
    let l6 = stream_lines(Kind::Rgb, threes(p.rgb));
    let tri = threes(p.triangles);
    let end = seq!["}"@];
    assert(all_lines(l0));
    assert(all_lines(end));
    assert(all_lines(seq!["Triangles {"@]));
    lemma_stream_is_lines(Kind::Position, threes(p.positions));
    lemma_stream_is_lines(Kind::Normal, threes(p.normals));
    lemma_stream_is_lines(Kind::Uv0, twos(p.uv0));
    lemma_stream_is_lines(Kind::Uv1, twos(p.uv1));
    lemma_stream_is_lines(Kind::Rgba, fours(p.rgba));
    lemma_stream_is_lines(Kind::Rgb, threes(p.rgb));
    lemma_rows_are_lines(tri);
    lemma_all_lines(seq!["Triangles {"@], rows(tri));
    lemma_all_lines(seq!["Triangles {"@] + rows(tri), end);
    lemma_all_lines(l0, l1);
    lemma_all_lines(l0 + l1, l2);
    lemma_all_lines(l0 + l1 + l2, l3);
    lemma_all_lines(l0 + l1 + l2 + l3, l4);
    lemma_all_lines(l0 + l1 + l2 + l3 + l4, l5);
    lemma_all_lines(l0 + l1 + l2 + l3 + l4 + l5, l6);
    lemma_all_lines(l0 + l1 + l2 + l3 + l4 + l5 + l6, triangle_lines(tri));
    lemma_all_lines(l0 + l1 + l2 + l3 + l4 + l5 + l6 + triangle_lines(tri), end);
}

proof fn lemma_materials(st: ReaderView, v: Seq<Seq<char>>, t: Map<Seq<char>, u32>)
    requires
        between_blocks(st),
        forall|i: int| 0 <= i < v.len() ==> quotable(#[trigger] v[i]),
    ensures
        read_on(st, all_material_lines(v), t) == (ReaderView {
            model: ModelView { materials: st.model.materials + v, ..st.model },
            ..st
        }),
        all_lines(all_material_lines(v)),
    decreases v.len(),
{
    if v.len() == 0 {
        assert(st.model.materials + v =~= st.model.materials);
    } else {
        let u = v.drop_last();
        assert forall|i: int| 0 <= i < u.len() implies quotable(#[trigger] u[i]) by {
            assert(u[i] == v[i]);
        }
        lemma_materials(st, u, t);
        assert(quotable(v[v.len() - 1]));
        let mid = ReaderView {
            model: ModelView { materials: st.model.materials + u, ..st.model },
            ..st
        };
        lemma_read_in_turn(st, all_material_lines(u), material_lines(v.last()), t);
        lemma_material_block(mid, v.last(), t);
        lemma_material_mark(st, t);
        lemma_end_mark(st, t);
        assert(all_lines(material_lines(v.last())));
        lemma_all_lines(all_material_lines(u), material_lines(v.last()));
        assert((st.model.materials + u).push(v.last()) =~= st.model.materials + v);
    }
}

proof fn lemma_pieces(st: ReaderView, v: Seq<Shown>, t: Map<Seq<char>, u32>)
    requires
        between_blocks(st),
        st.tag.len() == 0,
    ensures
        read_on(st, all_piece_lines(v), t) == (ReaderView {
            model: ModelView {
                pieces: st.model.pieces + Seq::new(v.len(), |i: int| piece_view(v[i])),
                ..st.model
            },
            ..st
        }),
        all_lines(all_piece_lines(v)),
    decreases v.len(),
{
    let all = Seq::new(v.len(), |i: int| piece_view(v[i]));
    if v.len() == 0 {
        assert(st.model.pieces + all =~= st.model.pieces);
    } else {
        let u = v.drop_last();
        lemma_pieces(st, u, t);
        let some = Seq::new(u.len(), |i: int| piece_view(u[i]));
        let mid = ReaderView {
            model: ModelView { pieces: st.model.pieces + some, ..st.model },
            ..st
        };
        lemma_read_in_turn(st, all_piece_lines(u), piece_lines(v.last()), t);
        lemma_piece_block(mid, v.last(), t);
        lemma_piece_is_lines(v.last());
        lemma_all_lines(all_piece_lines(u), piece_lines(v.last()));
        assert((st.model.pieces + some).push(piece_view(v.last())) =~= st.model.pieces + all);
    }
}

proof fn lemma_parts(st: ReaderView, v: Seq<PartView>, t: Map<Seq<char>, u32>)
    requires
        between_blocks(st),
        forall|i: int| 0 <= i < v.len() ==> quotable((#[trigger] v[i]).name),
    ensures
        read_on(st, all_part_lines(v), t) == (ReaderView {
            model: ModelView { parts: st.model.parts + v, ..st.model },
            ..st
        }),
        all_lines(all_part_lines(v)),
    decreases v.len(),
{
    if v.len() == 0 {
        assert(st.model.parts + v =~= st.model.parts);
    } else {
        let u = v.drop_last();
        assert forall|i: int| 0 <= i < u.len() implies quotable((#[trigger] u[i]).name) by {
            assert(u[i] == v[i]);
        }
        lemma_parts(st, u, t);
        assert(quotable(v[v.len() - 1].name));
        let mid = ReaderView {
            model: ModelView { parts: st.model.parts + u, ..st.model },
            ..st
        };
        lemma_read_in_turn(st, all_part_lines(u), part_lines(v.last()), t);
        lemma_part_block(mid, v.last(), t);
        lemma_all_lines(all_part_lines(u), part_lines(v.last()));
        assert((st.model.parts + u).push(v.last()) =~= st.model.parts + v);
    }
}

proof fn lemma_locators(st: ReaderView, v: Seq<Placed>, t: Map<Seq<char>, u32>)
    requires
        between_blocks(st),
        forall|i: int| 0 <= i < v.len() ==> quotable((#[trigger] v[i]).name),
    ensures
        read_on(st, all_locator_lines(v), t) == (ReaderView {
            model: ModelView {
                locators: st.model.locators + Seq::new(v.len(), |i: int| locator_view(v[i])),
                ..st.model
            },
            ..st
        }),
        all_lines(all_locator_lines(v)),
    decreases v.len(),
{
    let all = Seq::new(v.len(), |i: int| locator_view(v[i]));
    if v.len() == 0 {
        assert(st.model.locators + all =~= st.model.locators);
    } else {
        let u = v.drop_last();
        assert forall|i: int| 0 <= i < u.len() implies quotable((#[trigger] u[i]).name) by {
            assert(u[i] == v[i]);
        }
        lemma_locators(st, u, t);
        assert(quotable(v[v.len() - 1].name));
        let some = Seq::new(u.len(), |i: int| locator_view(u[i]));
        let mid = ReaderView {
            model: ModelView { locators: st.model.locators + some, ..st.model },
            ..st
        };
        lemma_read_in_turn(st, all_locator_lines(u), locator_lines(v.last()), t);
        lemma_locator_block(mid, v.last(), t);
        lemma_all_lines(all_locator_lines(u), locator_lines(v.last()));
        assert((st.model.locators + some).push(locator_view(v.last())) =~= st.model.locators + all);
    }
}

/// A model that was printed is read back: every material, piece, part and locator in
/// its place. A locator's rotation has the first of its four numbers as its scalar
/// part and the others as x, y and z, as in the binary format.
pub proof fn models_are_read_as_printed(m: Printed, t: Map<Seq<char>, u32>)
    requires
        printable(m),
    ensures
        ({
            let r = model_in(as_text(model_lines(m)), t);
            &&& r.materials == m.materials
            &&& r.pieces.len() == m.pieces.len()
            &&& forall|i: int|
                0 <= i < m.pieces.len() ==> #[trigger] r.pieces[i] == piece_view(m.pieces[i])
            &&& r.parts == m.parts
            &&& r.locators.len() == m.locators.len()
            &&& forall|i: int|
                0 <= i < m.locators.len() ==> {
                    &&& (#[trigger] r.locators[i]).name == m.locators[i].name
                    &&& r.locators[i].position == m.locators[i].position
                    &&& r.locators[i].rotation == (
                        m.locators[i].w,
                        m.locators[i].x,
                        m.locators[i].y,
                        m.locators[i].z,
                    )
                    &&& r.locators[i].scale == m.locators[i].scale
                }
        }),
{
    let a = all_material_lines(m.materials);
    let b = all_piece_lines(m.pieces);
    let c = all_part_lines(m.parts);
    let d = all_locator_lines(m.locators);
    let s0 = ReaderView::start();
    lemma_materials(s0, m.materials, t);
    let s1 = ReaderView {
        model: ModelView { materials: s0.model.materials + m.materials, ..s0.model },
        ..s0
    };
    lemma_pieces(s1, m.pieces, t);
    let pieces = Seq::new(m.pieces.len(), |i: int| piece_view(m.pieces[i]));
    let s2 = ReaderView {
        model: ModelView { pieces: s1.model.pieces + pieces, ..s1.model },
        ..s1
    };
    lemma_parts(s2, m.parts, t);
    let s3 = ReaderView {
        model: ModelView { parts: s2.model.parts + m.parts, ..s2.model },
        ..s2
    };
    lemma_locators(s3, m.locators, t);
    lemma_read_in_turn(s0, a + b + c, d, t);
    lemma_read_in_turn(s0, a + b, c, t);
    lemma_read_in_turn(s0, a, b, t);
    lemma_all_lines(a, b);
    lemma_all_lines(a + b, c);
    lemma_all_lines(a + b + c, d);
    lines_are_read_back(model_lines(m));
    lemma_read_all(model_lines(m), t);
    let r = model_in(as_text(model_lines(m)), t);
    assert(r.materials =~= m.materials);
    assert(r.parts =~= m.parts);
    assert(r.pieces =~= pieces);
    assert(r.locators =~= Seq::new(m.locators.len(), |i: int| locator_view(m.locators[i])));
}

} // verus!
