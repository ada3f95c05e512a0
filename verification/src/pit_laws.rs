//! What a trait file says, told from the writer's side.
//!
//! A trait is printed here block by block, and reading the text is shown to give
//! back what was printed.

use crate::pim::quoted_text;
use crate::pim_laws::{
    all_lines, lemma_all_lines, lemma_not_prefix, lemma_quoting, quotable, quoting,
};
use crate::pit::{
    after_lines, decimals_in, texture_index, trait_in, values_on, Block, MaterialView, ReaderView,
    TraitView,
};
use crate::text::{
    as_text, back_trimmed, digits, first_of, lemma_first_of, lemma_halves_around, lemma_trimmed,
    lines_are_read_back, numbers_are_read_back, one_line, one_word, space, spaced, trimmed,
    words_are_read_back, Class,
};
use vstd::prelude::*;

verus! {

// ---------------------------------------------------------------- lines ---

/// A reader that has read on from `st`.
pub open spec fn read_on(st: ReaderView, ls: Seq<Seq<char>>, t: Map<Seq<char>, u32>) -> ReaderView
    decreases ls.len(),
{
    if ls.len() == 0 {
        st
    } else {
        read_on(st, ls.drop_last(), t).after(trimmed(ls.last()), t)
    }
}

proof fn lemma_read_all(ls: Seq<Seq<char>>, t: Map<Seq<char>, u32>)
    ensures
        after_lines(ls, t) == read_on(ReaderView::start(), ls, t),
    decreases ls.len(),
{
    if ls.len() > 0 {
        lemma_read_all(ls.drop_last(), t);
    }
}

proof fn lemma_read_in_turn(
    st: ReaderView,
    a: Seq<Seq<char>>,
    b: Seq<Seq<char>>,
    t: Map<Seq<char>, u32>,
)
    ensures
        read_on(st, a + b, t) == read_on(read_on(st, a, t), b, t),
    decreases b.len(),
{
    if b.len() == 0 {
        assert(a + b =~= a);
    } else {
        lemma_read_in_turn(st, a, b.drop_last(), t);
        assert((a + b).drop_last() =~= a + b.drop_last());
    }
}

proof fn lemma_read_three(st: ReaderView, ls: Seq<Seq<char>>, t: Map<Seq<char>, u32>)
    requires
        ls.len() == 3,
    ensures
        read_on(st, ls, t) == st.after(trimmed(ls[0]), t).after(trimmed(ls[1]), t).after(
            trimmed(ls[2]),
            t,
        ),
{
    let l2 = ls.drop_last();
    let l1 = l2.drop_last();
    assert(l1.drop_last() =~= Seq::<Seq<char>>::empty());
    assert(l1.last() == ls[0] && l2.last() == ls[1]);
    reveal_with_fuel(read_on, 4);
}

proof fn lemma_read_one(st: ReaderView, line: Seq<char>, t: Map<Seq<char>, u32>)
    ensures
        read_on(st, seq![line], t) == st.after(trimmed(line), t),
{
    assert(seq![line].drop_last() =~= Seq::<Seq<char>>::empty());
    reveal_with_fuel(read_on, 2);
}

proof fn lemma_read_four(st: ReaderView, ls: Seq<Seq<char>>, t: Map<Seq<char>, u32>)
    requires
        ls.len() == 4,
    ensures
        read_on(st, ls, t) == st.after(trimmed(ls[0]), t).after(trimmed(ls[1]), t).after(
            trimmed(ls[2]),
            t,
        ).after(trimmed(ls[3]), t),
{
    let l3 = ls.drop_last();
    lemma_read_three(st, l3, t);
    assert(l3[0] == ls[0] && l3[1] == ls[1] && l3[2] == ls[2]);
}

/// The line that opens a block.
pub open spec fn opening(word: Seq<char>) -> Seq<char> {
    word + " {"@
}

proof fn lemma_opening(st: ReaderView, word: Seq<char>, t: Map<Seq<char>, u32>)
    requires
        one_word(word),
    ensures
        st.after(trimmed(opening(word)), t) == st.opened(word),
        one_line(opening(word)),
{
    reveal_strlit(" {");
    let line = opening(word);
    assert(!space(word[0]));
    assert(!space(word[word.len() - 1]));
    assert(line[0] == word[0] && line.last() == '{');
    lemma_trimmed(line);
    let w = word.push(' ');
    assert(line.drop_last() =~= w);
    assert(back_trimmed(w, Class::Is('{')) == w);
    assert(back_trimmed(line, Class::Is('{')) == w);
    assert(space(' '));
    assert(w[0] == word[0]);
    assert(w.drop_last() =~= word);
    assert(back_trimmed(word, Class::Space) == word);
    assert(trimmed(w) == word);
    if line.contains('\n') {
        let i = line.index_of('\n');
        assert(i < word.len());
        assert(!space(word[i]));
    }
}

proof fn lemma_closing(st: ReaderView, t: Map<Seq<char>, u32>)
    ensures
        st.after(trimmed("}"@), t) == st.closed(),
        one_line("}"@),
{
    reveal_strlit("}");
    lemma_trimmed("}"@);
}

/// A line that says something inside a block: it neither opens nor closes one.
proof fn lemma_inner(st: ReaderView, line: Seq<char>, t: Map<Seq<char>, u32>)
    requires
        line.len() > 1,
        !space(line[0]),
        line.last() == '"' || line.last() == ')',
    ensures
        trimmed(line) == line,
        st.in_variant ==> st.after(trimmed(line), t) == st.in_variant(line, t),
        !st.in_variant ==> (st.material matches Some(m) ==> st.after(trimmed(line), t) == (
        ReaderView {
            material: Some(m.after(line, st.tag, t)),
            tag: if "Tag:"@.is_prefix_of(line) {
                quoted_text(line)
            } else {
                st.tag
            },
            ..st
        })),
{
    reveal_strlit("}");
    lemma_trimmed(line);
}

/// Words in parentheses.
pub open spec fn listing(word: Seq<char>, ws: Seq<Seq<char>>) -> Seq<char> {
    word + " ("@ + spaced(ws) + " )"@
}

/// Whether a text can stand among words in parentheses.
pub open spec fn listable(w: Seq<char>) -> bool {
    one_word(w) && !w.contains(')')
}

proof fn lemma_spaced_without(ws: Seq<Seq<char>>, c: char)
    requires
        c != ' ',
        forall|i: int| 0 <= i < ws.len() ==> !(#[trigger] ws[i]).contains(c),
    ensures
        !spaced(ws).contains(c),
    decreases ws.len(),
{
    if ws.len() > 0 {
        let front = ws.drop_last();
        assert forall|i: int| 0 <= i < front.len() implies !(#[trigger] front[i]).contains(c) by {
            assert(ws[i] == front[i]);
        }
        lemma_spaced_without(front, c);
        assert(!ws[ws.len() - 1].contains(c));
        if spaced(ws).contains(c) {
            let k = spaced(ws).index_of(c);
            let a = spaced(front);
            if k < a.len() {
                assert(a[k] == c);
            } else if k > a.len() {
                assert(ws.last()[k - a.len() - 1] == c);
            }
        }
    }
}

proof fn lemma_decimals(t: Map<Seq<char>, u32>, ws: Seq<Seq<char>>)
    requires
        forall|i: int| 0 <= i < ws.len() ==> t.contains_key(#[trigger] ws[i]),
    ensures
        decimals_in(t, ws) == Seq::new(ws.len(), |i: int| t[ws[i]]),
    decreases ws.len(),
{
    if ws.len() > 0 {
        let front = ws.drop_last();
        assert forall|i: int| 0 <= i < front.len() implies t.contains_key(#[trigger] front[i]) by {
            assert(ws[i] == front[i]);
        }
        lemma_decimals(t, front);
        assert(t.contains_key(ws[ws.len() - 1]));
    }
    assert(decimals_in(t, ws) =~= Seq::new(ws.len(), |i: int| t[ws[i]]));
}

/// Words in parentheses are read as the numbers that they spell.
proof fn lemma_listing(t: Map<Seq<char>, u32>, word: Seq<char>, ws: Seq<Seq<char>>)
    requires
        word.len() > 0,
        !word.contains('('),
        !word.contains('\n'),
        forall|i: int| 0 <= i < ws.len() ==> listable(#[trigger] ws[i]) && t.contains_key(ws[i]),
    ensures
        values_on(t, listing(word, ws)) == Seq::new(ws.len(), |i: int| t[ws[i]]),
        listing(word, ws).last() == ')',
        listing(word, ws)[0] == word[0],
        listing(word, ws).len() > word.len() + 1,
        word.is_prefix_of(listing(word, ws)),
        one_line(listing(word, ws)),
{
    reveal_strlit(" (");
    reveal_strlit(" )");
    let line = listing(word, ws);
    let body = spaced(ws);
    assert forall|i: int| 0 <= i < ws.len() implies one_word(#[trigger] ws[i])
        && !ws[i].contains(')') && !ws[i].contains('\n') by {
        if ws[i].contains('\n') {
            let k = ws[i].index_of('\n');
            assert(!space(ws[i][k]));
        }
    }
    words_are_read_back(ws);
    lemma_spaced_without(ws, ')');
    lemma_spaced_without(ws, '\n');
    lemma_decimals(t, ws);
    let o = (word.len() + 1) as int;
    assert(line =~= word + seq![' ', '('] + body + seq![' ', ')']);
    assert(line[o] == '(');
    lemma_first_of(line, '(');
    assert(line.contains(line[o]));
    let f = first_of(line, '(')->0;
    if f < o {
        if f < word.len() {
            assert(word[f] == '(');
            assert(word.contains(word[f]));
        }
    }
    assert(first_of(line, '(') == Some(o));
    let rest = line.skip(o);
    let c = (body.len() + 2) as int;
    assert(rest[c] == ')');
    lemma_first_of(rest, ')');
    assert(rest.contains(rest[c]));
    let g = first_of(rest, ')')->0;
    if g < c && 0 < g <= body.len() {
        assert(rest[g] == body[g - 1]);
        assert(body.contains(body[g - 1]));
    }
    assert(first_of(rest, ')') == Some(c));
    assert(line.subrange(o + 1, o + c) =~= body.push(' '));
    assert(line.take(word.len() as int) =~= word);
    if line.contains('\n') {
        let i = line.index_of('\n');
        if i < word.len() {
            assert(word.contains(word[i]));
        } else if o < i <= o + body.len() {
            assert(line[i] == body[i - o - 1]);
            assert(body.contains(body[i - o - 1]));
        }
    }
}

// ------------------------------------------------------------ materials ---

/// A material as a writer has it: the words that spell its colour, and its textures
/// in order, each with the name of its slot.
pub struct Surface {
    pub alias: Seq<char>,
    pub effect: Seq<char>,
    pub diffuse: (Seq<char>, Seq<char>, Seq<char>),
    pub textures: Seq<Seq<char>>,
    pub slots: Seq<Seq<char>>,
}

/// The tag of texture `i`: `texture[0]:texture_base`.
pub open spec fn texture_tag(i: int, slot: Seq<char>) -> Seq<char> {
    "texture["@ + digits(i as nat, 10) + "]:"@ + slot
}

/// A texture's block, one level inside its material's.
pub open spec fn texture_lines(i: int, slot: Seq<char>, path: Seq<char>) -> Seq<Seq<char>> {
    seq![
        opening("Texture"@),
        quoting("Tag:"@, texture_tag(i, slot)),
        quoting("Value:"@, path),
        "}"@,
    ]
}

proof fn lemma_other(st: ReaderView, word: Seq<char>)
    requires
        word == "Texture"@ || word == "Attribute"@,
    ensures
        st.opened(word) == (ReaderView { stack: st.stack.push(Block::Other), ..st }),
        one_word(word),
{
    reveal_strlit("Texture");
    reveal_strlit("Attribute");
    reveal_strlit("Look");
    reveal_strlit("Variant");
    reveal_strlit("Material");
    reveal_strlit("Part");
    assert("Look"@.len() == 4 && "Variant"@.len() == 7 && "Material"@.len() == 8 && "Part"@.len()
        == 4 && "Texture"@.len() == 7 && "Attribute"@.len() == 9);
    assert("Texture"@[0] == 'T' && "Variant"@[0] == 'V');
}

proof fn lemma_texture_tag(i: int, slot: Seq<char>)
    requires
        0 <= i < usize::MAX,
        quotable(slot),
    ensures
        texture_index(texture_tag(i, slot)) == Some(i as usize),
        quotable(texture_tag(i, slot)),
        texture_tag(i, slot) != "diffuse"@,
{
    reveal_strlit("texture[");
    reveal_strlit("]:");
    reveal_strlit("diffuse");
    let d = digits(i as nat, 10);
    let tag = texture_tag(i, slot);
    numbers_are_read_back(i as nat, 10, 0, usize::MAX as nat);
    assert(tag.take(8) =~= "texture["@);
    let rest = tag.skip(8);
    assert(rest =~= d.push(']') + seq![':'] + slot);
    assert(rest =~= d.push(']') + (seq![':'] + slot));
    if d.contains(']') {
        let k = d.index_of(']');
        assert(crate::text::digit_value(d[k], 10) is Some);
    }
    lemma_halves_around(d, seq![':'] + slot, ']');
    assert(tag[0] == 't' && "diffuse"@[0] == 'd');
    if tag.contains('"') {
        let k = tag.index_of('"');
        if 8 <= k < 8 + d.len() {
            assert(crate::text::digit_value(d[k - 8], 10) is Some);
        } else if k >= 10 + d.len() {
            assert(slot[k - 10 - d.len()] == '"');
        }
    }
    if tag.contains('\n') {
        let k = tag.index_of('\n');
        if 8 <= k < 8 + d.len() {
            assert(crate::text::digit_value(d[k - 8], 10) is Some);
        } else if k >= 10 + d.len() {
            assert(slot[k - 10 - d.len()] == '\n');
        }
    }
}

/// Whether a reader stands in the material `m`.
pub open spec fn in_material(st: ReaderView, m: MaterialView) -> bool {
    st.material == Some(m) && !st.in_variant
}

proof fn lemma_tag_line(
    st: ReaderView,
    m: MaterialView,
    tag: Seq<char>,
    t: Map<Seq<char>, u32>,
)
    requires
        in_material(st, m),
        quotable(tag),
    ensures
        st.after(trimmed(quoting("Tag:"@, tag)), t) == (ReaderView {
            material: Some(
                match texture_index(tag) {
                    Some(i) => m.with_room(i),
                    None => m,
                },
            ),
            tag,
            ..st
        }),
        one_line(quoting("Tag:"@, tag)),
{
    reveal_strlit("Tag:");
    reveal_strlit("Alias:");
    reveal_strlit("Effect:");
    let line = quoting("Tag:"@, tag);
    assert(quotable("Tag:"@));
    lemma_quoting("Tag:"@, tag);
    assert(line[0] == 'T');
    lemma_inner(st, line, t);
    lemma_not_prefix("Alias:"@, line, 0);
    lemma_not_prefix("Effect:"@, line, 0);
}

proof fn lemma_value_line(
    st: ReaderView,
    m: MaterialView,
    path: Seq<char>,
    t: Map<Seq<char>, u32>,
)
    requires
        in_material(st, m),
        quotable(path),
        st.tag != "diffuse"@,
    ensures
        st.after(trimmed(quoting("Value:"@, path)), t) == (ReaderView {
            material: Some(
                match texture_index(st.tag) {
                    Some(i) => m.with_texture(i, path),
                    None => m,
                },
            ),
            ..st
        }),
        one_line(quoting("Value:"@, path)),
{
    reveal_strlit("Tag:");
    reveal_strlit("Alias:");
    reveal_strlit("Effect:");
    reveal_strlit("Value:");
    let line = quoting("Value:"@, path);
    assert(quotable("Value:"@));
    lemma_quoting("Value:"@, path);
    assert(line[0] == 'V');
    lemma_inner(st, line, t);
    lemma_not_prefix("Alias:"@, line, 0);
    lemma_not_prefix("Effect:"@, line, 0);
    lemma_not_prefix("Tag:"@, line, 0);
}

/// One texture more.
proof fn lemma_texture_block(
    st: ReaderView,
    m: MaterialView,
    slot: Seq<char>,
    path: Seq<char>,
    t: Map<Seq<char>, u32>,
)
    requires
        in_material(st, m),
        m.textures.len() < usize::MAX,
        quotable(slot),
        quotable(path),
    ensures
        ({
            let i = m.textures.len() as int;
            read_on(st, texture_lines(i, slot, path), t) == (ReaderView {
                material: Some(MaterialView { textures: m.textures.push(path), ..m }),
                tag: texture_tag(i, slot),
                ..st
            })
        }),
{
    let i = m.textures.len() as int;
    let ls = texture_lines(i, slot, path);
    let tag = texture_tag(i, slot);
    lemma_texture_tag(i, slot);
    lemma_other(st, "Texture"@);
    lemma_opening(st, "Texture"@, t);
    let s1 = ReaderView { stack: st.stack.push(Block::Other), ..st };
    lemma_tag_line(s1, m, tag, t);
    let m2 = m.with_room(i as usize);
    let s2 = ReaderView { material: Some(m2), tag, ..s1 };
    lemma_value_line(s2, m2, path, t);
    let m3 = m2.with_texture(i as usize, path);
    let s3 = ReaderView { material: Some(m3), ..s2 };
    assert(m3 =~= (MaterialView { textures: m.textures.push(path), ..m }));
    lemma_closing(s3, t);
    assert(s3.stack.drop_last() =~= st.stack);
    lemma_read_four(st, ls, t);
}

pub open spec fn all_texture_lines(s: Surface, n: nat) -> Seq<Seq<char>>
    decreases n,
{
    if n == 0 {
        Seq::empty()
    } else {
        all_texture_lines(s, (n - 1) as nat) + texture_lines(n - 1, s.slots[n - 1], s.textures[n - 1])
    }
}

/// Whether a material can be printed: texts that fit into quotes, and words whose
/// numbers are known.
pub open spec fn coatable(s: Surface, t: Map<Seq<char>, u32>) -> bool {
    &&& s.alias.len() > 0
    &&& quotable(s.alias)
    &&& quotable(s.effect)
    &&& s.textures.len() < usize::MAX
    &&& s.slots.len() == s.textures.len()
    &&& forall|i: int|
        0 <= i < s.textures.len() ==> quotable(#[trigger] s.textures[i]) && quotable(s.slots[i])
    &&& listable(s.diffuse.0) && t.contains_key(s.diffuse.0)
    &&& listable(s.diffuse.1) && t.contains_key(s.diffuse.1)
    &&& listable(s.diffuse.2) && t.contains_key(s.diffuse.2)
}

proof fn lemma_textures(
    st: ReaderView,
    m: MaterialView,
    s: Surface,
    n: nat,
    t: Map<Seq<char>, u32>,
)
    requires
        in_material(st, m),
        m.textures.len() == 0,
        coatable(s, t),
        n <= s.textures.len(),
    ensures
        read_on(st, all_texture_lines(s, n), t) == (ReaderView {
            material: Some(MaterialView { textures: s.textures.take(n as int), ..m }),
            tag: read_on(st, all_texture_lines(s, n), t).tag,
            ..st
        }),
    decreases n,
{
    if n == 0 {
        assert(s.textures.take(0) =~= m.textures);
        assert(read_on(st, all_texture_lines(s, n), t) =~= st);
    } else {
        let k = (n - 1) as nat;
        lemma_textures(st, m, s, k, t);
        let a = all_texture_lines(s, k);
        let mid = read_on(st, a, t);
        let mm = MaterialView { textures: s.textures.take(k as int), ..m };
        assert(quotable(s.textures[n - 1]) && quotable(s.slots[n - 1]));
        lemma_texture_block(mid, mm, s.slots[n - 1], s.textures[n - 1], t);
        lemma_read_in_turn(st, a, texture_lines(n - 1, s.slots[n - 1], s.textures[n - 1]), t);
        assert(s.textures.take(k as int).push(s.textures[n - 1]) =~= s.textures.take(n as int));
    }
}

/// The colour's block.
pub open spec fn diffuse_lines(s: Surface) -> Seq<Seq<char>> {
    seq![
        opening("Attribute"@),
        quoting("Tag:"@, "diffuse"@),
        listing("Value:"@, seq![s.diffuse.0, s.diffuse.1, s.diffuse.2]),
        "}"@,
    ]
}

/// A material's block: its alias, its shader, its colour, its textures.
pub open spec fn surface_lines(s: Surface) -> Seq<Seq<char>> {
    seq![opening("Material"@), quoting("Alias:"@, s.alias), quoting("Effect:"@, s.effect)]
        + diffuse_lines(s) + all_texture_lines(s, s.textures.len()) + seq!["}"@]
}

pub open spec fn surface_view(s: Surface, t: Map<Seq<char>, u32>) -> MaterialView {
    MaterialView {
        alias: s.alias,
        effect: s.effect,
        textures: s.textures,
        diffuse: (t[s.diffuse.0], t[s.diffuse.1], t[s.diffuse.2]),
    }
}

proof fn lemma_diffuse_block(
    st: ReaderView,
    m: MaterialView,
    s: Surface,
    t: Map<Seq<char>, u32>,
)
    requires
        in_material(st, m),
        coatable(s, t),
    ensures
        read_on(st, diffuse_lines(s), t) == (ReaderView {
            material: Some(
                MaterialView {
                    diffuse: (t[s.diffuse.0], t[s.diffuse.1], t[s.diffuse.2]),
                    ..m
                },
            ),
            tag: "diffuse"@,
            ..st
        }),
        forall|i: int| 0 <= i < 4 ==> one_line(#[trigger] diffuse_lines(s)[i]),
{
    reveal_strlit("diffuse");
    reveal_strlit("texture[");
    reveal_strlit("Value:");
    reveal_strlit("Tag:");
    reveal_strlit("Alias:");
    reveal_strlit("Effect:");
    let ls = diffuse_lines(s);
    lemma_other(st, "Attribute"@);
    lemma_opening(st, "Attribute"@, t);
    let s1 = ReaderView { stack: st.stack.push(Block::Other), ..st };
    assert(quotable("diffuse"@));
    lemma_tag_line(s1, m, "diffuse"@, t);
    assert("texture["@.len() == 8 && "diffuse"@.len() == 7);
    assert(texture_index("diffuse"@) is None);
    let s2 = ReaderView { tag: "diffuse"@, ..s1 };
    let ws = seq![s.diffuse.0, s.diffuse.1, s.diffuse.2];
    lemma_listing(t, "Value:"@, ws);
    let line = ls[2];
    lemma_inner(s2, line, t);
    lemma_not_prefix("Alias:"@, line, 0);
    lemma_not_prefix("Effect:"@, line, 0);
    lemma_not_prefix("Tag:"@, line, 0);
    let m3 = MaterialView { diffuse: (t[s.diffuse.0], t[s.diffuse.1], t[s.diffuse.2]), ..m };
    let s3 = ReaderView { material: Some(m3), ..s2 };
    assert(values_on(t, line).len() == 3);
    assert(s2.after(trimmed(line), t) == s3);
    lemma_closing(s3, t);
    assert(s3.stack.drop_last() =~= st.stack);
    lemma_read_four(st, ls, t);
}

proof fn lemma_alias_lines(
    st: ReaderView,
    m: MaterialView,
    s: Surface,
    t: Map<Seq<char>, u32>,
)
    requires
        in_material(st, m),
        quotable(s.alias),
        quotable(s.effect),
    ensures
        st.after(trimmed(quoting("Alias:"@, s.alias)), t) == (ReaderView {
            material: Some(MaterialView { alias: s.alias, ..m }),
            ..st
        }),
        st.after(trimmed(quoting("Effect:"@, s.effect)), t) == (ReaderView {
            material: Some(MaterialView { effect: s.effect, ..m }),
            ..st
        }),
        one_line(quoting("Alias:"@, s.alias)),
        one_line(quoting("Effect:"@, s.effect)),
{
    reveal_strlit("Tag:");
    reveal_strlit("Alias:");
    reveal_strlit("Effect:");
    let a = quoting("Alias:"@, s.alias);
    let e = quoting("Effect:"@, s.effect);
    assert(quotable("Alias:"@));
    assert(quotable("Effect:"@));
    lemma_quoting("Alias:"@, s.alias);
    lemma_quoting("Effect:"@, s.effect);
    assert(a[0] == 'A' && e[0] == 'E');
    lemma_inner(st, a, t);
    lemma_inner(st, e, t);
    lemma_not_prefix("Tag:"@, a, 0);
    lemma_not_prefix("Tag:"@, e, 0);
    lemma_not_prefix("Alias:"@, e, 0);
}

/// A material of the first look is found under its alias, with all that its inner
/// blocks say.
proof fn lemma_surface_block(st: ReaderView, s: Surface, t: Map<Seq<char>, u32>)
    requires
        coatable(s, t),
        st.inside_of(Block::Look),
        st.looks <= 1,
        !st.in_variant,
        st.material is None,
        !st.found.materials.contains_key(s.alias),
    ensures
        read_on(st, surface_lines(s), t) == (ReaderView {
            found: TraitView {
                materials: st.found.materials.insert(s.alias, surface_view(s, t)),
                ..st.found
            },
            tag: read_on(st, surface_lines(s), t).tag,
            ..st
        }),
{
    reveal_strlit("Material");
    reveal_strlit("Look");
    reveal_strlit("Variant");
    assert("Material"@.len() == 8 && "Look"@.len() == 4 && "Variant"@.len() == 7);
    let a = seq![opening("Material"@), quoting("Alias:"@, s.alias), quoting("Effect:"@, s.effect)];
    let b = diffuse_lines(s);
    let c = all_texture_lines(s, s.textures.len());
    let d = seq!["}"@];
    lemma_read_in_turn(st, a + b + c, d, t);
    lemma_read_in_turn(st, a + b, c, t);
    lemma_read_in_turn(st, a, b, t);
    assert(one_word("Material"@));
    lemma_opening(st, "Material"@, t);
    let m1 = MaterialView::blank();
    let s1 = ReaderView { material: Some(m1), stack: st.stack.push(Block::Material), ..st };
    assert(st.opened("Material"@) == s1);
    lemma_alias_lines(s1, m1, s, t);
    let m2 = MaterialView { alias: s.alias, ..m1 };
    let s2 = ReaderView { material: Some(m2), ..s1 };
    lemma_alias_lines(s2, m2, s, t);
    let m3 = MaterialView { effect: s.effect, ..m2 };
    let s3 = ReaderView { material: Some(m3), ..s1 };
    lemma_read_three(st, a, t);
    assert(read_on(st, a, t) == s3);
    lemma_diffuse_block(s3, m3, s, t);
    let m4 = MaterialView { diffuse: (t[s.diffuse.0], t[s.diffuse.1], t[s.diffuse.2]), ..m3 };
    let s4 = ReaderView { material: Some(m4), tag: "diffuse"@, ..s1 };
    lemma_textures(s4, m4, s, s.textures.len(), t);
    let s5 = read_on(s4, c, t);
    let m5 = surface_view(s, t);
    assert(s.textures.take(s.textures.len() as int) =~= s.textures);
    assert(s5.material == Some(m5));
    lemma_closing(s5, t);
    lemma_read_one(s5, "}"@, t);
    assert(s5.stack.drop_last() =~= st.stack);
}

// ------------------------------------------------------------- variants ---

/// A part of a variant as a writer has it, with the word that spells whether it is
/// shown.
pub struct Member {
    pub name: Seq<char>,
    pub shown: Seq<char>,
}

pub struct Selection {
    pub name: Seq<char>,
    pub members: Seq<Member>,
}

/// The attribute of a part.
pub open spec fn shown_lines(p: Member) -> Seq<Seq<char>> {
    seq![
        opening("Attribute"@),
        quoting("Tag:"@, "visible"@),
        listing("Value:"@, seq![p.shown]),
        "}"@,
    ]
}

/// A part's block.
pub open spec fn member_lines(p: Member) -> Seq<Seq<char>> {
    seq![opening("Part"@), quoting("Name:"@, p.name)] + shown_lines(p) + seq!["}"@]
}

pub open spec fn all_member_lines(v: Seq<Member>) -> Seq<Seq<char>>
    decreases v.len(),
{
    if v.len() == 0 {
        Seq::empty()
    } else {
        all_member_lines(v.drop_last()) + member_lines(v.last())
    }
}

/// A variant's block.
pub open spec fn selection_lines(v: Selection) -> Seq<Seq<char>> {
    seq![opening("Variant"@), quoting("Name:"@, v.name)] + all_member_lines(v.members) + seq!["}"@]
}

/// Whether a part can be printed.
pub open spec fn pickable(p: Member, t: Map<Seq<char>, u32>) -> bool {
    &&& p.name.len() > 0
    &&& quotable(p.name)
    &&& listable(p.shown)
    &&& t.contains_key(p.shown)
}

/// Zero hides, with either sign; any other number shows.
pub open spec fn is_shown(p: Member, t: Map<Seq<char>, u32>) -> bool {
    t[p.shown] != 0 && t[p.shown] != 0x8000_0000
}

/// The names of the parts that are shown, each once.
pub open spec fn shown_names(v: Seq<Member>, t: Map<Seq<char>, u32>) -> Seq<Seq<char>>
    decreases v.len(),
{
    if v.len() == 0 {
        Seq::empty()
    } else {
        let front = shown_names(v.drop_last(), t);
        if is_shown(v.last(), t) && !front.contains(v.last().name) {
            front.push(v.last().name)
        } else {
            front
        }
    }
}

proof fn lemma_name_line(st: ReaderView, name: Seq<char>, t: Map<Seq<char>, u32>)
    requires
        st.in_variant,
        quotable(name),
    ensures
        st.after(trimmed(quoting("Name:"@, name)), t) == (if st.inside_of(Block::Part) {
            ReaderView { part: name, ..st }
        } else {
            ReaderView { variant: name, ..st }
        }),
        one_line(quoting("Name:"@, name)),
{
    reveal_strlit("Name:");
    let line = quoting("Name:"@, name);
    assert(quotable("Name:"@));
    lemma_quoting("Name:"@, name);
    assert(line[0] == 'N');
    lemma_inner(st, line, t);
}

proof fn lemma_shown_block(st: ReaderView, p: Member, t: Map<Seq<char>, u32>)
    requires
        st.in_variant,
        pickable(p, t),
    ensures
        read_on(st, shown_lines(p), t) == (ReaderView {
            visible: is_shown(p, t),
            tag: "visible"@,
            ..st
        }),
        forall|i: int| 0 <= i < 4 ==> one_line(#[trigger] shown_lines(p)[i]),
{
    reveal_strlit("Name:");
    reveal_strlit("Tag:");
    reveal_strlit("Value:");
    reveal_strlit("visible");
    let ls = shown_lines(p);
    lemma_other(st, "Attribute"@);
    lemma_opening(st, "Attribute"@, t);
    let s1 = ReaderView { stack: st.stack.push(Block::Other), ..st };
    assert(quotable("Tag:"@));
    assert(quotable("visible"@));
    lemma_quoting("Tag:"@, "visible"@);
    let tag = ls[1];
    assert(tag[0] == 'T');
    lemma_inner(s1, tag, t);
    lemma_not_prefix("Name:"@, tag, 0);
    let s2 = ReaderView { tag: "visible"@, ..s1 };
    assert(s1.after(trimmed(tag), t) == s2);
    let ws = seq![p.shown];
    lemma_listing(t, "Value:"@, ws);
    let line = ls[2];
    lemma_inner(s2, line, t);
    lemma_not_prefix("Name:"@, line, 0);
    lemma_not_prefix("Tag:"@, line, 0);
    let x = t[p.shown];
    assert(values_on(t, line)[0] == x);
    assert((x % 0x8000_0000 != 0) == is_shown(p, t));
    let s3 = ReaderView { visible: is_shown(p, t), ..s2 };
    assert(s2.after(trimmed(line), t) == s3);
    lemma_closing(s3, t);
    assert(s3.stack.drop_last() =~= st.stack);
    lemma_read_four(st, ls, t);
}

proof fn lemma_member_block(st: ReaderView, p: Member, t: Map<Seq<char>, u32>)
    requires
        st.in_variant,
        st.inside_of(Block::Variant),
        pickable(p, t),
    ensures
        ({
            let r = read_on(st, member_lines(p), t);
            r == (ReaderView {
                parts: if is_shown(p, t) && !st.parts.contains(p.name) {
                    st.parts.push(p.name)
                } else {
                    st.parts
                },
                part: r.part,
                visible: r.visible,
                tag: r.tag,
                ..st
            })
        }),
{
    reveal_strlit("Part");
    reveal_strlit("Look");
    reveal_strlit("Variant");
    reveal_strlit("Material");
    assert("Part"@[0] == 'P' && "Look"@[0] == 'L' && "Variant"@.len() == 7 && "Material"@.len() == 8
        && "Part"@.len() == 4);
    let a = seq![opening("Part"@)];
    let n = seq![quoting("Name:"@, p.name)];
    let b = shown_lines(p);
    let d = seq!["}"@];
    assert(member_lines(p) =~= a + n + b + d);
    lemma_read_in_turn(st, a + n + b, d, t);
    lemma_read_in_turn(st, a + n, b, t);
    lemma_read_in_turn(st, a, n, t);
    assert(one_word("Part"@));
    lemma_opening(st, "Part"@, t);
    lemma_read_one(st, opening("Part"@), t);
    let none = Seq::<char>::empty();
    let s1 = ReaderView { part: none, visible: true, stack: st.stack.push(Block::Part), ..st };
    assert(st.opened("Part"@) == s1);
    lemma_name_line(s1, p.name, t);
    lemma_read_one(s1, quoting("Name:"@, p.name), t);
    let s2 = ReaderView { part: p.name, ..s1 };
    lemma_shown_block(s2, p, t);
    let s3 = ReaderView { visible: is_shown(p, t), tag: "visible"@, ..s2 };
    lemma_closing(s3, t);
    lemma_read_one(s3, "}"@, t);
    assert(s3.stack.drop_last() =~= st.stack);
}

proof fn lemma_members(st: ReaderView, v: Seq<Member>, t: Map<Seq<char>, u32>)
    requires
        st.in_variant,
        st.inside_of(Block::Variant),
        st.parts.len() == 0,
        forall|i: int| 0 <= i < v.len() ==> pickable(#[trigger] v[i], t),
    ensures
        ({
            let r = read_on(st, all_member_lines(v), t);
            r == (ReaderView {
                parts: shown_names(v, t),
                part: r.part,
                visible: r.visible,
                tag: r.tag,
                ..st
            })
        }),
    decreases v.len(),
{
    if v.len() == 0 {
        assert(st.parts =~= shown_names(v, t));
    } else {
        let u = v.drop_last();
        assert forall|i: int| 0 <= i < u.len() implies pickable(#[trigger] u[i], t) by {
            assert(u[i] == v[i]);
        }
        lemma_members(st, u, t);
        assert(pickable(v[v.len() - 1], t));
        let mid = read_on(st, all_member_lines(u), t);
        lemma_member_block(mid, v.last(), t);
        lemma_read_in_turn(st, all_member_lines(u), member_lines(v.last()), t);
    }
}

/// Whether a variant can be printed.
pub open spec fn selectable(v: Selection, t: Map<Seq<char>, u32>) -> bool {
    quotable(v.name) && forall|i: int|
        0 <= i < v.members.len() ==> pickable(#[trigger] v.members[i], t)
}

proof fn lemma_selection_block(st: ReaderView, v: Selection, t: Map<Seq<char>, u32>)
    requires
        selectable(v, t),
    ensures
        ({
            let r = read_on(st, selection_lines(v), t);
            r == (ReaderView {
                found: TraitView {
                    variants: st.found.variants.push((v.name, shown_names(v.members, t))),
                    ..st.found
                },
                variant: r.variant,
                parts: r.parts,
                part: r.part,
                visible: r.visible,
                tag: r.tag,
                in_variant: false,
                ..st
            })
        }),
{
    reveal_strlit("Look");
    reveal_strlit("Variant");
    assert("Look"@.len() == 4 && "Variant"@.len() == 7);
    let a = seq![opening("Variant"@)];
    let n = seq![quoting("Name:"@, v.name)];
    let b = all_member_lines(v.members);
    let d = seq!["}"@];
    assert(selection_lines(v) =~= a + n + b + d);
    lemma_read_in_turn(st, a + n + b, d, t);
    lemma_read_in_turn(st, a + n, b, t);
    lemma_read_in_turn(st, a, n, t);
    assert(one_word("Variant"@));
    lemma_opening(st, "Variant"@, t);
    lemma_read_one(st, opening("Variant"@), t);
    let s1 = ReaderView {
        in_variant: true,
        variant: Seq::empty(),
        parts: Seq::empty(),
        stack: st.stack.push(Block::Variant),
        ..st
    };
    assert(st.opened("Variant"@) == s1);
    lemma_name_line(s1, v.name, t);
    lemma_read_one(s1, quoting("Name:"@, v.name), t);
    let s2 = ReaderView { variant: v.name, ..s1 };
    lemma_members(s2, v.members, t);
    let s3 = read_on(s2, b, t);
    lemma_closing(s3, t);
    lemma_read_one(s3, "}"@, t);
    assert(s3.stack.drop_last() =~= st.stack);
}

// --------------------------------------------------------------- traits ---

pub open spec fn all_surface_lines(v: Seq<Surface>) -> Seq<Seq<char>>
    decreases v.len(),
{
    if v.len() == 0 {
        Seq::empty()
    } else {
        all_surface_lines(v.drop_last()) + surface_lines(v.last())
    }
}

pub open spec fn all_selection_lines(v: Seq<Selection>) -> Seq<Seq<char>>
    decreases v.len(),
{
    if v.len() == 0 {
        Seq::empty()
    } else {
        all_selection_lines(v.drop_last()) + selection_lines(v.last())
    }
}

/// A look with its materials, and the variants.
pub open spec fn trait_lines(look: Seq<Surface>, variants: Seq<Selection>) -> Seq<Seq<char>> {
    seq![opening("Look"@)] + all_surface_lines(look) + seq!["}"@] + all_selection_lines(variants)
}

/// Whether all that a trait holds can be printed, and no alias stands for two
/// materials.
pub open spec fn tellable(
    look: Seq<Surface>,
    variants: Seq<Selection>,
    t: Map<Seq<char>, u32>,
) -> bool {
    &&& forall|i: int| 0 <= i < look.len() ==> coatable(#[trigger] look[i], t)
    &&& forall|i: int, j: int|
        0 <= i < j < look.len() ==> (#[trigger] look[i]).alias != (#[trigger] look[j]).alias
    &&& forall|i: int| 0 <= i < variants.len() ==> selectable(#[trigger] variants[i], t)
}

/// Whether a map holds exactly the materials of a look, each under its alias.
pub open spec fn holds_look(
    m: Map<Seq<char>, MaterialView>,
    look: Seq<Surface>,
    t: Map<Seq<char>, u32>,
) -> bool {
    &&& forall|i: int|
        0 <= i < look.len() ==> m.contains_key((#[trigger] look[i]).alias) && m[look[i].alias]
            == surface_view(look[i], t)
    &&& forall|k: Seq<char>| #[trigger]
        m.contains_key(k) ==> exists|i: int| 0 <= i < look.len() && (#[trigger] look[i]).alias == k
}

proof fn lemma_look(st: ReaderView, look: Seq<Surface>, t: Map<Seq<char>, u32>)
    requires
        tellable(look, Seq::empty(), t),
        st.inside_of(Block::Look),
        st.looks <= 1,
        !st.in_variant,
        st.material is None,
        st.found.materials == Map::<Seq<char>, MaterialView>::empty(),
    ensures
        ({
            let r = read_on(st, all_surface_lines(look), t);
            &&& r == (ReaderView {
                found: TraitView { materials: r.found.materials, ..st.found },
                tag: r.tag,
                ..st
            })
            &&& holds_look(r.found.materials, look, t)
        }),
    decreases look.len(),
{
    if look.len() > 0 {
        let u = look.drop_last();
        let s = look.last();
        assert forall|i: int| 0 <= i < u.len() implies coatable(#[trigger] u[i], t) by {
            assert(u[i] == look[i]);
        }
        assert forall|i: int, j: int| 0 <= i < j < u.len() implies (#[trigger] u[i]).alias != (
        #[trigger] u[j]).alias by {
            assert(u[i] == look[i] && u[j] == look[j]);
            assert(look[i].alias != look[j].alias);
        }
        lemma_look(st, u, t);
        let mid = read_on(st, all_surface_lines(u), t);
        let m = mid.found.materials;
        assert(coatable(look[look.len() - 1], t));
        if m.contains_key(s.alias) {
            let i = choose|i: int| 0 <= i < u.len() && (#[trigger] u[i]).alias == s.alias;
            assert(u[i] == look[i]);
            assert(look[i].alias != look[look.len() - 1].alias);
        }
        lemma_surface_block(mid, s, t);
        lemma_read_in_turn(st, all_surface_lines(u), surface_lines(s), t);
        let all = m.insert(s.alias, surface_view(s, t));
        assert forall|i: int| 0 <= i < look.len() implies all.contains_key(
            (#[trigger] look[i]).alias,
        ) && all[look[i].alias] == surface_view(look[i], t) by {
            if i < u.len() {
                assert(u[i] == look[i]);
                assert(look[i].alias != look[look.len() - 1].alias);
            }
        }
        assert forall|k: Seq<char>| #[trigger] all.contains_key(k) implies exists|i: int|
            0 <= i < look.len() && (#[trigger] look[i]).alias == k by {
            if k == s.alias {
                assert(look[look.len() - 1].alias == k);
            } else {
                assert(m.contains_key(k));
                let i = choose|i: int| 0 <= i < u.len() && (#[trigger] u[i]).alias == k;
                assert(look[i] == u[i]);
            }
        }
    }
}

proof fn lemma_selections(st: ReaderView, v: Seq<Selection>, t: Map<Seq<char>, u32>)
    requires
        forall|i: int| 0 <= i < v.len() ==> selectable(#[trigger] v[i], t),
        st.found.variants.len() == 0,
    ensures
        read_on(st, all_selection_lines(v), t).found == (TraitView {
            variants: Seq::new(
                v.len(),
                |i: int| (v[i].name, shown_names(v[i].members, t)),
            ),
            ..st.found
        }),
    decreases v.len(),
{
    let all = Seq::new(v.len(), |i: int| (v[i].name, shown_names(v[i].members, t)));
    if v.len() == 0 {
        assert(st.found.variants =~= all);
    } else {
        let u = v.drop_last();
        assert forall|i: int| 0 <= i < u.len() implies selectable(#[trigger] u[i], t) by {
            assert(u[i] == v[i]);
        }
        lemma_selections(st, u, t);
        let mid = read_on(st, all_selection_lines(u), t);
        assert(selectable(v[v.len() - 1], t));
        lemma_selection_block(mid, v.last(), t);
        lemma_read_in_turn(st, all_selection_lines(u), selection_lines(v.last()), t);
        assert(mid.found.variants.push((v.last().name, shown_names(v.last().members, t))) =~= all);
    }
}

proof fn lemma_texture_is_lines(s: Surface, n: nat, t: Map<Seq<char>, u32>)
    requires
        coatable(s, t),
        n <= s.textures.len(),
    ensures
        all_lines(all_texture_lines(s, n)),
    decreases n,
{
    if n > 0 {
        let k = (n - 1) as nat;
        lemma_texture_is_lines(s, k, t);
        let st = ReaderView { material: Some(MaterialView::blank()), ..ReaderView::start() };
        let m = MaterialView::blank();
        assert(quotable(s.textures[n - 1]) && quotable(s.slots[n - 1]));
        let tag = texture_tag(n - 1, s.slots[n - 1]);
        lemma_texture_tag(n - 1, s.slots[n - 1]);
        lemma_other(st, "Texture"@);
        lemma_opening(st, "Texture"@, t);
        lemma_tag_line(st, m, tag, t);
        lemma_value_line(ReaderView { tag, ..st }, m, s.textures[n - 1], t);
        lemma_closing(st, t);
        let ls = texture_lines(n - 1, s.slots[n - 1], s.textures[n - 1]);
        assert(all_lines(ls));
        lemma_all_lines(all_texture_lines(s, k), ls);
    }
}

proof fn lemma_surface_is_lines(s: Surface, t: Map<Seq<char>, u32>)
    requires
        coatable(s, t),
    ensures
        all_lines(surface_lines(s)),
{
    reveal_strlit("Material");
    let m = MaterialView::blank();
    let st = ReaderView { material: Some(m), ..ReaderView::start() };
    assert(one_word("Material"@));
    lemma_opening(st, "Material"@, t);
    lemma_alias_lines(st, m, s, t);
    lemma_diffuse_block(st, m, s, t);
    lemma_texture_is_lines(s, s.textures.len(), t);
    lemma_closing(st, t);
    let a = seq![opening("Material"@), quoting("Alias:"@, s.alias), quoting("Effect:"@, s.effect)];
    let b = diffuse_lines(s);
    let c = all_texture_lines(s, s.textures.len());
    assert(all_lines(a));
    assert(all_lines(b));
    assert(all_lines(seq!["}"@]));
    lemma_all_lines(a, b);
    lemma_all_lines(a + b, c);
    lemma_all_lines(a + b + c, seq!["}"@]);
}

proof fn lemma_look_is_lines(v: Seq<Surface>, t: Map<Seq<char>, u32>)
    requires
        forall|i: int| 0 <= i < v.len() ==> coatable(#[trigger] v[i], t),
    ensures
        all_lines(all_surface_lines(v)),
    decreases v.len(),
{
    if v.len() > 0 {
        let u = v.drop_last();
        assert forall|i: int| 0 <= i < u.len() implies coatable(#[trigger] u[i], t) by {
            assert(u[i] == v[i]);
        }
        lemma_look_is_lines(u, t);
        assert(coatable(v[v.len() - 1], t));
        lemma_surface_is_lines(v.last(), t);
        lemma_all_lines(all_surface_lines(u), surface_lines(v.last()));
    }
}

proof fn lemma_members_are_lines(v: Seq<Member>, t: Map<Seq<char>, u32>)
    requires
        forall|i: int| 0 <= i < v.len() ==> pickable(#[trigger] v[i], t),
    ensures
        all_lines(all_member_lines(v)),
    decreases v.len(),
{
    if v.len() > 0 {
        let u = v.drop_last();
        let p = v.last();
        assert forall|i: int| 0 <= i < u.len() implies pickable(#[trigger] u[i], t) by {
            assert(u[i] == v[i]);
        }
        lemma_members_are_lines(u, t);
        assert(pickable(v[v.len() - 1], t));
        reveal_strlit("Part");
        assert(one_word("Part"@));
        let st = ReaderView { in_variant: true, ..ReaderView::start() };
        lemma_opening(st, "Part"@, t);
        lemma_name_line(st, p.name, t);
        lemma_shown_block(st, p, t);
        lemma_closing(st, t);
        let a = seq![opening("Part"@), quoting("Name:"@, p.name)];
        assert(all_lines(a));
        assert(all_lines(shown_lines(p)));
        assert(all_lines(seq!["}"@]));
        lemma_all_lines(a, shown_lines(p));
        lemma_all_lines(a + shown_lines(p), seq!["}"@]);
        lemma_all_lines(all_member_lines(u), member_lines(p));
    }
}

proof fn lemma_selections_are_lines(v: Seq<Selection>, t: Map<Seq<char>, u32>)
    requires
        forall|i: int| 0 <= i < v.len() ==> selectable(#[trigger] v[i], t),
    ensures
        all_lines(all_selection_lines(v)),
    decreases v.len(),
{
    if v.len() > 0 {
        let u = v.drop_last();
        let w = v.last();
        assert forall|i: int| 0 <= i < u.len() implies selectable(#[trigger] u[i], t) by {
            assert(u[i] == v[i]);
        }
        lemma_selections_are_lines(u, t);
        assert(selectable(v[v.len() - 1], t));
        reveal_strlit("Variant");
        assert(one_word("Variant"@));
        let st = ReaderView { in_variant: true, ..ReaderView::start() };
        lemma_opening(st, "Variant"@, t);
        lemma_name_line(st, w.name, t);
        lemma_members_are_lines(w.members, t);
        lemma_closing(st, t);
        let a = seq![opening("Variant"@), quoting("Name:"@, w.name)];
        let b = all_member_lines(w.members);
        assert(all_lines(a));
        assert(all_lines(seq!["}"@]));
        lemma_all_lines(a, b);
        lemma_all_lines(a + b, seq!["}"@]);
        lemma_all_lines(all_selection_lines(u), selection_lines(w));
    }
}

/// A trait that was printed is read back: every material of the look
/// under its alias, with the shader, the colour and the textures in order that its
/// inner blocks hold; and every variant with the parts that it shows.
pub proof fn traits_are_read_as_printed(
    look: Seq<Surface>,
    variants: Seq<Selection>,
    t: Map<Seq<char>, u32>,
)
    requires
        tellable(look, variants, t),
    ensures
        ({
            let r = trait_in(as_text(trait_lines(look, variants)), t);
            &&& holds_look(r.materials, look, t)
            &&& r.variants.len() == variants.len()
            &&& forall|i: int|
                0 <= i < variants.len() ==> {
                    &&& (#[trigger] r.variants[i]).0 == variants[i].name
                    &&& r.variants[i].1 == shown_names(variants[i].members, t)
                }
        }),
{
    reveal_strlit("Look");
    let st = ReaderView::start();
    let a = seq![opening("Look"@)];
    let b = all_surface_lines(look);
    let c = seq!["}"@];
    let d = all_selection_lines(variants);
    lemma_read_all(trait_lines(look, variants), t);
    lemma_read_in_turn(st, a + b + c, d, t);
    lemma_read_in_turn(st, a + b, c, t);
    lemma_read_in_turn(st, a, b, t);
    assert(one_word("Look"@));
    lemma_opening(st, "Look"@, t);
    lemma_read_one(st, opening("Look"@), t);
    let s1 = ReaderView { looks: 1, stack: st.stack.push(Block::Look), ..st };
    assert(st.opened("Look"@) == s1);
    lemma_look(s1, look, t);
    let s2 = read_on(s1, b, t);
    lemma_closing(s2, t);
    lemma_read_one(s2, "}"@, t);
    let s3 = s2.closed();
    lemma_selections(s3, variants, t);
    lemma_look_is_lines(look, t);
    lemma_selections_are_lines(variants, t);
    assert(all_lines(a));
    assert(all_lines(c));
    lemma_all_lines(a, b);
    lemma_all_lines(a + b, c);
    lemma_all_lines(a + b + c, d);
    lines_are_read_back(trait_lines(look, variants));
}

} // verus!
