//! Models as pieces, parts and locators, and the reader for the `.pim`
//! mid-format.
//!
//! It is a plain-text block format. Floats are written as `&` followed by the
//! eight hex digits of their IEEE-754 bits, which is exact - no decimal
//! round-tripping. Numbers are kept as those bits here.
//!
//! ```text
//! Piece {
//!      Index: 0
//!      Material: 0
//!      Stream { Format: FLOAT3   Tag: "_POSITION"   0 ( &3f92bcc8 &403d27ae &bfdc47fc ) ... }
//!      Triangles { 0 ( 0 1 2 ) ... }
//! }
//! ```

use crate::text::{
    after_prefix, begins, chars_of, find_char, first_of, halves, equals, lemma_first_of, lines,
    nth_piece, number, parts, piece, read_number, same_str, split_lines, split_once,
    split_words, string_of, strip_prefix, texts, trim, trimmed, words,
};
use std::collections::HashMap;
use vstd::hash_map::StringHashMap;
use vstd::prelude::*;

verus! {

/// The bits of 1.0.
pub const ONE: u32 = 0x3f80_0000;

// --------------------------------------------------------------- models ---

/// A vertex colour, as the file it came from stores it.
#[derive(Clone, Copy, Debug, PartialEq, Eq, Structural)]
pub enum Colour {
    /// the bits of red, green, blue and alpha
    Floats(u32, u32, u32, u32),
    /// bytes, with red, green and blue halved
    Bytes(u8, u8, u8, u8),
}

/// One mesh. Coordinates are the bits of single-precision numbers.
pub struct Piece {
    pub material: usize,
    pub positions: Vec<(u32, u32, u32)>,
    pub normals: Vec<(u32, u32, u32)>,
    pub uv0: Vec<(u32, u32)>,
    pub uv1: Vec<(u32, u32)>,
    pub rgba: Vec<Colour>,
    pub tris: Vec<(u32, u32, u32)>,
}

pub struct Part {
    pub name: String,
    pub pieces: Vec<usize>,
    pub locators: Vec<usize>,
}

pub struct Locator {
    pub name: String,
    pub position: (u32, u32, u32),
    pub rotation: (u32, u32, u32, u32),
    pub scale: (u32, u32, u32),
}

pub struct Model {
    /// material alias per index, as referenced by `Piece::material`
    pub materials: Vec<String>,
    pub pieces: Vec<Piece>,
    pub parts: Vec<Part>,
    pub locators: Vec<Locator>,
}

#[verifier::ext_equal]
pub struct PieceView {
    pub material: usize,
    pub positions: Seq<(u32, u32, u32)>,
    pub normals: Seq<(u32, u32, u32)>,
    pub uv0: Seq<(u32, u32)>,
    pub uv1: Seq<(u32, u32)>,
    pub rgba: Seq<Colour>,
    pub tris: Seq<(u32, u32, u32)>,
}

#[verifier::ext_equal]
pub struct PartView {
    pub name: Seq<char>,
    pub pieces: Seq<usize>,
    pub locators: Seq<usize>,
}

#[verifier::ext_equal]
pub struct LocatorView {
    pub name: Seq<char>,
    pub position: (u32, u32, u32),
    pub rotation: (u32, u32, u32, u32),
    pub scale: (u32, u32, u32),
}

#[verifier::ext_equal]
pub struct ModelView {
    pub materials: Seq<Seq<char>>,
    pub pieces: Seq<PieceView>,
    pub parts: Seq<PartView>,
    pub locators: Seq<LocatorView>,
}

impl View for Piece {
    type V = PieceView;

    open spec fn view(&self) -> PieceView {
        PieceView {
            material: self.material,
            positions: self.positions@,
            normals: self.normals@,
            uv0: self.uv0@,
            uv1: self.uv1@,
            rgba: self.rgba@,
            tris: self.tris@,
        }
    }
}

impl View for Part {
    type V = PartView;

    open spec fn view(&self) -> PartView {
        PartView { name: self.name@, pieces: self.pieces@, locators: self.locators@ }
    }
}

impl View for Locator {
    type V = LocatorView;

    open spec fn view(&self) -> LocatorView {
        LocatorView {
            name: self.name@,
            position: self.position,
            rotation: self.rotation,
            scale: self.scale,
        }
    }
}

pub open spec fn piece_views(v: Seq<Piece>) -> Seq<PieceView> {
    Seq::new(v.len(), |i: int| v[i]@)
}

pub open spec fn part_views(v: Seq<Part>) -> Seq<PartView> {
    Seq::new(v.len(), |i: int| v[i]@)
}

pub open spec fn locator_views(v: Seq<Locator>) -> Seq<LocatorView> {
    Seq::new(v.len(), |i: int| v[i]@)
}

impl View for Model {
    type V = ModelView;

    open spec fn view(&self) -> ModelView {
        ModelView {
            materials: texts(self.materials@),
            pieces: piece_views(self.pieces@),
            parts: part_views(self.parts@),
            locators: locator_views(self.locators@),
        }
    }
}

impl PieceView {
    pub open spec fn blank() -> PieceView {
        PieceView {
            material: 0,
            positions: Seq::empty(),
            normals: Seq::empty(),
            uv0: Seq::empty(),
            uv1: Seq::empty(),
            rgba: Seq::empty(),
            tris: Seq::empty(),
        }
    }
}

impl PartView {
    pub open spec fn blank() -> PartView {
        PartView { name: Seq::empty(), pieces: Seq::empty(), locators: Seq::empty() }
    }
}

impl LocatorView {
    /// A locator at the origin, unturned and unscaled.
    pub open spec fn blank() -> LocatorView {
        LocatorView {
            name: Seq::empty(),
            position: (0, 0, 0),
            rotation: (0, 0, 0, ONE),
            scale: (ONE, ONE, ONE),
        }
    }
}

impl ModelView {
    pub open spec fn blank() -> ModelView {
        ModelView {
            materials: Seq::empty(),
            pieces: Seq::empty(),
            parts: Seq::empty(),
            locators: Seq::empty(),
        }
    }
}

impl Piece {
    pub fn new() -> (r: Piece)
        ensures
            r@ == PieceView::blank(),
    {
        Piece {
            material: 0,
            positions: Vec::new(),
            normals: Vec::new(),
            uv0: Vec::new(),
            uv1: Vec::new(),
            rgba: Vec::new(),
            tris: Vec::new(),
        }
    }
}

impl Part {
    pub fn new() -> (r: Part)
        ensures
            r@ == PartView::blank(),
    {
        let r = Part { name: String::new(), pieces: Vec::new(), locators: Vec::new() };
        assert(r@ =~= PartView::blank());
        r
    }
}

impl Locator {
    pub fn new() -> (r: Locator)
        ensures
            r@ == LocatorView::blank(),
    {
        let r = Locator {
            name: String::new(),
            position: (0, 0, 0),
            rotation: (0, 0, 0, ONE),
            scale: (ONE, ONE, ONE),
        };
        assert(r@ =~= LocatorView::blank());
        r
    }
}

/// The part of each piece: the last part that lists it.
pub open spec fn owners(parts: Seq<PartView>) -> Map<usize, Seq<char>>
    decreases parts.len(),
{
    if parts.len() == 0 {
        Map::empty()
    } else {
        owned(owners(parts.drop_last()), parts.last().pieces, parts.last().name)
    }
}

/// `m` with every piece of `p` given to the part `name`.
pub open spec fn owned(m: Map<usize, Seq<char>>, p: Seq<usize>, name: Seq<char>) -> Map<
    usize,
    Seq<char>,
>
    decreases p.len(),
{
    if p.len() == 0 {
        m
    } else {
        owned(m, p.drop_last(), name).insert(p.last(), name)
    }
}

pub open spec fn named(m: Map<usize, String>) -> Map<usize, Seq<char>> {
    m.map_values(|s: String| s@)
}

impl Model {
    pub fn new() -> (r: Model)
        ensures
            r@ == ModelView::blank(),
    {
        let r = Model {
            materials: Vec::new(),
            pieces: Vec::new(),
            parts: Vec::new(),
            locators: Vec::new(),
        };
        assert(r@ =~= ModelView::blank());
        r
    }

    /// Which part a piece belongs to, by piece index.
    pub fn part_of_piece(&self) -> (r: HashMap<usize, String>)
        ensures
            named(r@) == owners(self@.parts),
    {
        broadcast use vstd::std_specs::hash::group_hash_axioms;

        let mut m: HashMap<usize, String> = HashMap::new();
        let mut i: usize = 0;
        let ghost all = self@.parts;
        assert(named(m@) =~= owners(all.take(0)));
        while i < self.parts.len()
            invariant
                i <= self.parts@.len(),
                all == part_views(self.parts@),
                named(m@) == owners(all.take(i as int)),
            decreases self.parts@.len() - i,
        {
            broadcast use vstd::std_specs::hash::group_hash_axioms;

            let p = &self.parts[i];
            let mut j: usize = 0;
            let ghost start = named(m@);
            assert(start =~= owned(start, p.pieces@.take(0), p.name@));
            while j < p.pieces.len()
                invariant
                    j <= p.pieces@.len(),
                    named(m@) == owned(start, p.pieces@.take(j as int), p.name@),
                decreases p.pieces@.len() - j,
            {
                broadcast use vstd::std_specs::hash::group_hash_axioms;

                assert(p.pieces@.take(j + 1).drop_last() =~= p.pieces@.take(j as int));
                let ghost before = m@;
                m.insert(p.pieces[j], p.name.clone());
                assert(named(m@) =~= named(before).insert(p.pieces@[j as int], p.name@));
                j = j + 1;
            }
            assert(p.pieces@.take(j as int) =~= p.pieces@);
            assert(all.take(i + 1).drop_last() =~= all.take(i as int));
            i = i + 1;
        }
        assert(all.take(i as int) =~= all);
        m
    }
}

/// A piece belongs to some part exactly when a part lists it, and then to the
/// last one that does.
pub proof fn last_listing_part_owns_a_piece(parts: Seq<PartView>, i: usize)
    ensures
        match last_listing(parts, i) {
            Some(k) => owners(parts).contains_key(i) && owners(parts)[i] == parts[k].name,
            None => !owners(parts).contains_key(i),
        },
    decreases parts.len(),
{
    if parts.len() > 0 {
        last_listing_part_owns_a_piece(parts.drop_last(), i);
        lemma_owned(owners(parts.drop_last()), parts.last().pieces, parts.last().name, i);
        let k = last_listing(parts.drop_last(), i);
        if k is Some {
            lemma_last_listing(parts.drop_last(), i);
            assert(parts.drop_last()[k->0] == parts[k->0]);
        }
    }
}

/// The last part that lists the piece `i`.
pub open spec fn last_listing(parts: Seq<PartView>, i: usize) -> Option<int>
    decreases parts.len(),
{
    if parts.len() == 0 {
        None
    } else if parts.last().pieces.contains(i) {
        Some(parts.len() - 1)
    } else {
        last_listing(parts.drop_last(), i)
    }
}

proof fn lemma_last_listing(parts: Seq<PartView>, i: usize)
    ensures
        last_listing(parts, i) matches Some(k) ==> 0 <= k < parts.len(),
    decreases parts.len(),
{
    if parts.len() > 0 {
        lemma_last_listing(parts.drop_last(), i);
    }
}

proof fn lemma_owned(m: Map<usize, Seq<char>>, p: Seq<usize>, name: Seq<char>, i: usize)
    ensures
        p.contains(i) ==> owned(m, p, name).contains_key(i) && owned(m, p, name)[i] == name,
        !p.contains(i) ==> owned(m, p, name).contains_key(i) == m.contains_key(i) && owned(
            m,
            p,
            name,
        )[i] == m[i],
    decreases p.len(),
{
    if p.len() > 0 {
        lemma_owned(m, p.drop_last(), name, i);
        assert(p =~= p.drop_last().push(p.last()));
        if p.drop_last().contains(i) {
            let k = p.drop_last().index_of(i);
            assert(p[k] == i);
        }
        if p.last() != i && p.contains(i) {
            let k = p.index_of(i);
            assert(p.drop_last()[k] == i);
        }
    }
}

// -------------------------------------------------------------- numbers ---

/// What decimal spellings stand for: each with the bits of its number.
pub struct Decimals {
    pub entries: StringHashMap<u32>,
}

impl View for Decimals {
    type V = Map<Seq<char>, u32>;

    open spec fn view(&self) -> Map<Seq<char>, u32> {
        self.entries@
    }
}

/// What the table says of `w`.
pub open spec fn meaning(t: Map<Seq<char>, u32>, w: Seq<char>) -> Option<u32> {
    if t.contains_key(w) {
        Some(t[w])
    } else {
        None
    }
}

impl Decimals {
    pub fn new() -> (r: Decimals)
        ensures
            r@ == Map::<Seq<char>, u32>::empty(),
    {
        Decimals { entries: StringHashMap::new() }
    }

    pub fn insert(&mut self, w: String, bits: u32)
        ensures
            final(self)@ == old(self)@.insert(w@, bits),
    {
        self.entries.insert(w, bits);
    }

    pub fn get(&self, w: &[char]) -> (r: Option<u32>)
        ensures
            r == meaning(self@, w@),
    {
        match self.entries.get(string_of(w).as_str()) {
            Some(v) => Some(*v),
            None => None,
        }
    }
}

/// `&3f800000` -> the bits of 1.0. Anything else is a plain decimal; what is
/// neither reads as zero.
pub open spec fn num_bits(t: Map<Seq<char>, u32>, w: Seq<char>) -> u32 {
    match after_prefix(trimmed(w), "&"@) {
        Some(hex) => match number(hex, 16, u32::MAX as nat) {
            Some(v) => v as u32,
            None => 0,
        },
        None => match meaning(t, trimmed(w)) {
            Some(v) => v,
            None => 0,
        },
    }
}

fn read_num(w: &[char], t: &Decimals) -> (r: u32)
    ensures
        r == num_bits(t@, w@),
{
    let w = trim(w);
    match strip_prefix(w, "&") {
        Some(hex) => match read_number(hex, 16, u32::MAX as u64) {
            Some(v) => v as u32,
            None => 0,
        },
        None => match t.get(w) {
            Some(v) => v,
            None => 0,
        },
    }
}

pub fn num(tok: &str, t: &Decimals) -> (r: u32)
    ensures
        r == num_bits(t@, tok@),
{
    let c = chars_of(tok);
    read_num(c.as_slice(), t)
}

/// What stands between the first `(` of a line and the next `)`.
pub open spec fn inside(line: Seq<char>) -> Option<Seq<char>> {
    match first_of(line, '(') {
        None => None,
        Some(o) => match first_of(line.skip(o), ')') {
            None => None,
            Some(c) => Some(line.subrange(o + 1, o + c)),
        },
    }
}

pub fn between<'a>(line: &'a [char]) -> (r: Option<&'a [char]>)
    ensures
        crate::text::opt(r) == inside(line@),
{
    match find_char(line, '(') {
        None => None,
        Some(o) => {
            let rest = &line[o..line.len()];
            assert(rest@ =~= line@.skip(o as int));
            proof {
                lemma_first_of(rest@, ')');
                lemma_first_of(line@, '(');
            }
            match find_char(rest, ')') {
                None => None,
                Some(c) => {
                    assert(rest@[0] == '(');
                    Some(&line[o + 1..o + c])
                },
            }
        },
    }
}

/// The numbers inside `( ... )` on a line, ignoring any leading index column.
pub open spec fn tuple_bits(t: Map<Seq<char>, u32>, line: Seq<char>) -> Seq<u32> {
    match inside(line) {
        None => Seq::empty(),
        Some(s) => Seq::new(words(s).len(), |i: int| num_bits(t, words(s)[i])),
    }
}

fn read_tuple(line: &[char], t: &Decimals) -> (r: Vec<u32>)
    ensures
        r@ == tuple_bits(t@, line@),
{
    let mut r: Vec<u32> = Vec::new();
    match between(line) {
        None => {},
        Some(s) => {
            let w = split_words(s);
            let mut i: usize = 0;
            while i < w.len()
                invariant
                    i <= w@.len(),
                    parts(w@) == words(s@),
                    r@ =~= Seq::new(i as nat, |j: int| num_bits(t@, words(s@)[j])),
                decreases w@.len() - i,
            {
                assert(parts(w@)[i as int] == w@[i as int]@);
                r.push(read_num(w[i], t));
                i = i + 1;
            }
        },
    }
    r
}

pub fn tuple_on(line: &str, t: &Decimals) -> (r: Vec<u32>)
    ensures
        r@ == tuple_bits(t@, line@),
{
    let c = chars_of(line);
    read_tuple(c.as_slice(), t)
}

/// Every word that stands inside parentheses, line by line: the spellings that
/// a table of decimals has to cover for a text.
pub open spec fn spelled(ls: Seq<Seq<char>>) -> Seq<Seq<char>>
    decreases ls.len(),
{
    if ls.len() == 0 {
        Seq::empty()
    } else {
        spelled(ls.drop_last()) + (match inside(ls.last()) {
            None => Seq::empty(),
            Some(s) => words(s),
        })
    }
}

pub fn spellings(text: &str) -> (r: Vec<String>)
    ensures
        texts(r@) == spelled(lines(text@)),
{
    let c = chars_of(text);
    let ls = split_lines(c.as_slice());
    let mut r: Vec<String> = Vec::new();
    let mut i: usize = 0;
    let ghost all = lines(text@);
    assert(texts(r@) =~= spelled(all.take(0)));
    while i < ls.len()
        invariant
            i <= ls@.len(),
            parts(ls@) == all,
            texts(r@) == spelled(all.take(i as int)),
        decreases ls@.len() - i,
    {
        assert(parts(ls@)[i as int] == ls@[i as int]@);
        assert(all.take(i + 1).drop_last() =~= all.take(i as int));
        let ghost before = texts(r@);
        match between(ls[i]) {
            None => {
                assert(before + Seq::<Seq<char>>::empty() =~= before);
            },
            Some(s) => {
                let w = split_words(s);
                let mut j: usize = 0;
                while j < w.len()
                    invariant
                        j <= w@.len(),
                        parts(w@) == words(s@),
                        texts(r@) =~= before + words(s@).take(j as int),
                    decreases w@.len() - j,
                {
                    assert(parts(w@)[j as int] == w@[j as int]@);
                    let ghost so_far = texts(r@);
                    r.push(string_of(w[j]));
                    assert(texts(r@) =~= so_far.push(words(s@)[j as int]));
                    j = j + 1;
                }
                assert(words(s@).take(j as int) =~= words(s@));
            },
        }
        i = i + 1;
    }
    assert(all.take(i as int) =~= all);
    r
}

/// The text between the first two double quotes of a line.
pub open spec fn quoted_text(line: Seq<char>) -> Seq<char> {
    match piece(line, '"', 1) {
        Some(s) => s,
        None => Seq::empty(),
    }
}

pub(crate) fn read_quoted(line: &[char]) -> (r: String)
    ensures
        r@ == quoted_text(line@),
{
    match nth_piece(line, '"', 1) {
        Some(s) => string_of(s),
        None => String::new(),
    }
}

pub fn quoted(line: &str) -> (r: String)
    ensures
        r@ == quoted_text(line@),
{
    let c = chars_of(line);
    read_quoted(c.as_slice())
}

/// What follows the first colon of a line, trimmed.
pub open spec fn colon_text(line: Seq<char>) -> Seq<char> {
    match halves(line, ':') {
        Some(h) => trimmed(h.1),
        None => Seq::empty(),
    }
}

pub fn after_colon<'a>(line: &'a [char]) -> (r: &'a [char])
    ensures
        r@ == colon_text(line@),
{
    match split_once(line, ':') {
        Some((_, b)) => trim(b),
        None => {
            let r = &line[0..0];
            assert(r@ =~= Seq::<char>::empty());
            r
        },
    }
}

/// The words that are plain numbers, as numbers.
pub open spec fn indices(w: Seq<Seq<char>>) -> Seq<usize>
    decreases w.len(),
{
    if w.len() == 0 {
        Seq::empty()
    } else {
        match number(w.last(), 10, usize::MAX as nat) {
            Some(v) => indices(w.drop_last()).push(v as usize),
            None => indices(w.drop_last()),
        }
    }
}

fn read_indices(s: &[char]) -> (r: Vec<usize>)
    ensures
        r@ == indices(words(s@)),
{
    let w = split_words(s);
    let mut r: Vec<usize> = Vec::new();
    let mut i: usize = 0;
    let ghost all = words(s@);
    assert(r@ =~= indices(all.take(0)));
    while i < w.len()
        invariant
            i <= w@.len(),
            parts(w@) == all,
            r@ == indices(all.take(i as int)),
        decreases w@.len() - i,
    {
        assert(parts(w@)[i as int] == w@[i as int]@);
        assert(all.take(i + 1).drop_last() =~= all.take(i as int));
        match read_number(w[i], 10, usize::MAX as u64) {
            Some(v) => {
                r.push(v as usize);
            },
            None => {},
        }
        i = i + 1;
    }
    assert(all.take(i as int) =~= all);
    r
}

/// The whole part of a non-negative number, given by its bits. What lies below
/// zero, and what is no number, gives zero; what does not fit gives the largest
/// value.
pub open spec fn whole(bits: u32) -> u32 {
    let e = bits / 0x80_0000 % 0x100;
    let f = bits % 0x80_0000;
    if bits >= 0x8000_0000 || (e == 255 && f != 0) || e < 127 {
        0
    } else if e >= 159 {
        u32::MAX
    } else if e >= 150 {
        ((0x80_0000 + f) * vstd::arithmetic::power2::pow2((e - 150) as nat)) as u32
    } else {
        ((0x80_0000 + f) as nat / vstd::arithmetic::power2::pow2((150 - e) as nat)) as u32
    }
}

pub fn whole_of(bits: u32) -> (r: u32)
    ensures
        r == whole(bits),
{
    let e: u32 = bits / 0x80_0000 % 0x100;
    let f: u32 = bits % 0x80_0000;
    if bits >= 0x8000_0000 || (e == 255 && f != 0) || e < 127 {
        0
    } else if e >= 159 {
        u32::MAX
    } else if e >= 150 {
        let m: u32 = 0x80_0000 + f;
        let k: u32 = e - 150;
        proof {
            vstd::arithmetic::power2::lemma2_to64();
            vstd::arithmetic::power2::lemma_pow2_strictly_increases(k as nat, 9);
            assert(m * vstd::arithmetic::power2::pow2(k as nat) <= u32::MAX) by (nonlinear_arith)
                requires
                    m < 0x100_0000,
                    vstd::arithmetic::power2::pow2(k as nat) <= 256,
            ;
            vstd::bits::lemma_u32_shl_is_mul(m, k);
        }
        m << k
    } else {
        let m: u32 = 0x80_0000 + f;
        let k: u32 = 150 - e;
        proof {
            vstd::bits::lemma_u32_shr_is_div(m, k);
        }
        m >> k
    }
}

// -------------------------------------------------------------- reading ---

/// Where a reader stands after some lines. The format nests only two deep, so
/// a few flags do for the block structure.
#[verifier::ext_equal]
pub struct ReaderView {
    pub model: ModelView,
    pub piece: Option<PieceView>,
    pub part: Option<PartView>,
    pub locator: Option<LocatorView>,
    pub tag: Seq<char>,
    pub in_stream: bool,
    pub in_tris: bool,
}

impl ReaderView {
    pub open spec fn start() -> ReaderView {
        ReaderView {
            model: ModelView::blank(),
            piece: None,
            part: None,
            locator: None,
            tag: Seq::empty(),
            in_stream: false,
            in_tris: false,
        }
    }

    /// A closing brace ends the innermost open block.
    pub open spec fn closed(self) -> ReaderView {
        if self.in_stream {
            ReaderView { in_stream: false, tag: Seq::empty(), ..self }
        } else if self.in_tris {
            ReaderView { in_tris: false, ..self }
        } else if let Some(p) = self.piece {
            ReaderView {
                model: ModelView { pieces: self.model.pieces.push(p), ..self.model },
                piece: None,
                ..self
            }
        } else if let Some(p) = self.part {
            ReaderView {
                model: ModelView { parts: self.model.parts.push(p), ..self.model },
                part: None,
                ..self
            }
        } else if let Some(l) = self.locator {
            ReaderView {
                model: ModelView { locators: self.model.locators.push(l), ..self.model },
                locator: None,
                ..self
            }
        } else {
            self
        }
    }

    /// The reader after one trimmed line.
    pub open spec fn after(self, line: Seq<char>, t: Map<Seq<char>, u32>) -> ReaderView {
        if line.len() == 0 || "Material {"@.is_prefix_of(line) || line == "Material"@ {
            self
        } else if "Alias:"@.is_prefix_of(line) && self.piece is None && self.part is None {
            ReaderView {
                model: ModelView {
                    materials: self.model.materials.push(quoted_text(line)),
                    ..self.model
                },
                ..self
            }
        } else if "Piece {"@.is_prefix_of(line) {
            ReaderView { piece: Some(PieceView::blank()), ..self }
        } else if "Part {"@.is_prefix_of(line) {
            ReaderView { part: Some(PartView::blank()), ..self }
        } else if "Locator {"@.is_prefix_of(line) {
            ReaderView { locator: Some(LocatorView::blank()), ..self }
        } else if "Stream {"@.is_prefix_of(line) {
            ReaderView { in_stream: true, tag: Seq::empty(), ..self }
        } else if "Triangles"@.is_prefix_of(line) {
            ReaderView { in_tris: true, ..self }
        } else if line == "}"@ {
            self.closed()
        } else if let Some(l) = self.locator {
            ReaderView { locator: Some(l.after(line, t)), ..self }
        } else if let Some(p) = self.part {
            ReaderView { part: Some(p.after(line)), ..self }
        } else if let Some(p) = self.piece {
            if self.in_tris {
                ReaderView { piece: Some(p.with_triangle(tuple_bits(t, line))), ..self }
            } else if self.in_stream {
                if "Tag:"@.is_prefix_of(line) {
                    ReaderView { tag: quoted_text(line), ..self }
                } else if "Format:"@.is_prefix_of(line) || "Alias"@.is_prefix_of(line) {
                    self
                } else {
                    ReaderView {
                        piece: Some(p.with_value(self.tag, tuple_bits(t, line))),
                        ..self
                    }
                }
            } else if "Material:"@.is_prefix_of(line) {
                ReaderView { piece: Some(p.with_material(colon_text(line))), ..self }
            } else {
                self
            }
        } else {
            self
        }
    }
}

impl LocatorView {
    /// A locator after one line of its block.
    pub open spec fn after(self, line: Seq<char>, t: Map<Seq<char>, u32>) -> LocatorView {
        let v = tuple_bits(t, line);
        if "Name:"@.is_prefix_of(line) {
            LocatorView { name: quoted_text(line), ..self }
        } else if "Position:"@.is_prefix_of(line) {
            if v.len() >= 3 {
                LocatorView { position: (v[0], v[1], v[2]), ..self }
            } else {
                self
            }
        } else if "Rotation:"@.is_prefix_of(line) {
            if v.len() >= 4 {
                LocatorView { rotation: (v[0], v[1], v[2], v[3]), ..self }
            } else {
                self
            }
        } else if "Scale:"@.is_prefix_of(line) && v.len() >= 3 {
            LocatorView { scale: (v[0], v[1], v[2]), ..self }
        } else {
            self
        }
    }
}

impl PartView {
    /// A part after one line of its block.
    pub open spec fn after(self, line: Seq<char>) -> PartView {
        if "Name:"@.is_prefix_of(line) {
            PartView { name: quoted_text(line), ..self }
        } else if "Pieces:"@.is_prefix_of(line) {
            PartView { pieces: indices(words(colon_text(line))), ..self }
        } else if "Locators:"@.is_prefix_of(line) {
            PartView { locators: indices(words(colon_text(line))), ..self }
        } else {
            self
        }
    }
}

impl PieceView {
    pub open spec fn with_triangle(self, v: Seq<u32>) -> PieceView {
        if v.len() >= 3 {
            PieceView { tris: self.tris.push((whole(v[0]), whole(v[1]), whole(v[2]))), ..self }
        } else {
            self
        }
    }

    /// One more row of the stream named `tag`.
    pub open spec fn with_value(self, tag: Seq<char>, v: Seq<u32>) -> PieceView {
        if tag == "_POSITION"@ && v.len() >= 3 {
            PieceView { positions: self.positions.push((v[0], v[1], v[2])), ..self }
        } else if tag == "_NORMAL"@ && v.len() >= 3 {
            PieceView { normals: self.normals.push((v[0], v[1], v[2])), ..self }
        } else if tag == "_UV0"@ && v.len() >= 2 {
            PieceView { uv0: self.uv0.push((v[0], v[1])), ..self }
        } else if tag == "_UV1"@ && v.len() >= 2 {
            PieceView { uv1: self.uv1.push((v[0], v[1])), ..self }
        } else if tag == "_RGBA"@ && v.len() >= 4 {
            PieceView { rgba: self.rgba.push(Colour::Floats(v[0], v[1], v[2], v[3])), ..self }
        } else if tag == "_RGB"@ && v.len() >= 3 {
            PieceView { rgba: self.rgba.push(Colour::Floats(v[0], v[1], v[2], ONE)), ..self }
        } else {
            self
        }
    }

    pub open spec fn with_material(self, s: Seq<char>) -> PieceView {
        PieceView {
            material: match number(s, 10, usize::MAX as nat) {
                Some(v) => v as usize,
                None => 0,
            },
            ..self
        }
    }
}

/// The reader after the lines `ls`.
pub open spec fn after_lines(ls: Seq<Seq<char>>, t: Map<Seq<char>, u32>) -> ReaderView
    decreases ls.len(),
{
    if ls.len() == 0 {
        ReaderView::start()
    } else {
        after_lines(ls.drop_last(), t).after(trimmed(ls.last()), t)
    }
}

/// The model that a text describes.
pub open spec fn model_in(text: Seq<char>, t: Map<Seq<char>, u32>) -> ModelView {
    after_lines(lines(text), t).model
}

struct Reader {
    model: Model,
    piece: Option<Piece>,
    part: Option<Part>,
    locator: Option<Locator>,
    tag: String,
    in_stream: bool,
    in_tris: bool,
}

impl View for Reader {
    type V = ReaderView;

    closed spec fn view(&self) -> ReaderView {
        ReaderView {
            model: self.model@,
            piece: match self.piece {
                Some(p) => Some(p@),
                None => None,
            },
            part: match self.part {
                Some(p) => Some(p@),
                None => None,
            },
            locator: match self.locator {
                Some(l) => Some(l@),
                None => None,
            },
            tag: self.tag@,
            in_stream: self.in_stream,
            in_tris: self.in_tris,
        }
    }
}

impl Locator {
    fn read(&mut self, line: &[char], t: &Decimals)
        ensures
            final(self)@ == old(self)@.after(line@, t@),
    {
        let v = read_tuple(line, t);
        if begins(line, "Name:") {
            self.name = read_quoted(line);
        } else if begins(line, "Position:") {
            if v.len() >= 3 {
                self.position = (v[0], v[1], v[2]);
            }
        } else if begins(line, "Rotation:") {
            if v.len() >= 4 {
                self.rotation = (v[0], v[1], v[2], v[3]);
            }
        } else if begins(line, "Scale:") {
            if v.len() >= 3 {
                self.scale = (v[0], v[1], v[2]);
            }
        }
    }
}

impl Part {
    fn read(&mut self, line: &[char])
        ensures
            final(self)@ == old(self)@.after(line@),
    {
        if begins(line, "Name:") {
            self.name = read_quoted(line);
        } else if begins(line, "Pieces:") {
            self.pieces = read_indices(after_colon(line));
        } else if begins(line, "Locators:") {
            self.locators = read_indices(after_colon(line));
        }
    }
}

impl Piece {
    fn add_triangle(&mut self, v: &Vec<u32>)
        ensures
            final(self)@ == old(self)@.with_triangle(v@),
    {
        if v.len() >= 3 {
            self.tris.push((whole_of(v[0]), whole_of(v[1]), whole_of(v[2])));
        }
    }

    fn add_value(&mut self, tag: &str, v: &Vec<u32>)
        ensures
            final(self)@ == old(self)@.with_value(tag@, v@),
    {
        if same_str(tag, "_POSITION") && v.len() >= 3 {
            self.positions.push((v[0], v[1], v[2]));
        } else if same_str(tag, "_NORMAL") && v.len() >= 3 {
            self.normals.push((v[0], v[1], v[2]));
        } else if same_str(tag, "_UV0") && v.len() >= 2 {
            self.uv0.push((v[0], v[1]));
        } else if same_str(tag, "_UV1") && v.len() >= 2 {
            self.uv1.push((v[0], v[1]));
        } else if same_str(tag, "_RGBA") && v.len() >= 4 {
            self.rgba.push(Colour::Floats(v[0], v[1], v[2], v[3]));
        } else if same_str(tag, "_RGB") && v.len() >= 3 {
            self.rgba.push(Colour::Floats(v[0], v[1], v[2], ONE));
        }
    }

    fn set_material(&mut self, s: &[char])
        ensures
            final(self)@ == old(self)@.with_material(s@),
    {
        self.material = match read_number(s, 10, usize::MAX as u64) {
            Some(v) => v as usize,
            None => 0,
        };
    }
}

impl Reader {
    fn new() -> (r: Reader)
        ensures
            r@ == ReaderView::start(),
    {
        let r = Reader {
            model: Model::new(),
            piece: None,
            part: None,
            locator: None,
            tag: String::new(),
            in_stream: false,
            in_tris: false,
        };
        assert(r@ =~= ReaderView::start());
        r
    }

    fn close(&mut self)
        ensures
            final(self)@ == old(self)@.closed(),
    {
        if self.in_stream {
            self.in_stream = false;
            self.tag = String::new();
        } else if self.in_tris {
            self.in_tris = false;
        } else if let Some(p) = self.piece.take() {
            self.model.pieces.push(p);
        } else if let Some(p) = self.part.take() {
            self.model.parts.push(p);
        } else if let Some(l) = self.locator.take() {
            self.model.locators.push(l);
        }
        assert(self@ =~~= old(self)@.closed());
    }

    fn read(&mut self, line: &[char], t: &Decimals)
        ensures
            final(self)@ == old(self)@.after(line@, t@),
    {
        if line.len() == 0 || begins(line, "Material {") || equals(line, "Material") {
        } else if begins(line, "Alias:") && self.piece.is_none() && self.part.is_none() {
            self.model.materials.push(read_quoted(line));
        } else if begins(line, "Piece {") {
            self.piece = Some(Piece::new());
        } else if begins(line, "Part {") {
            self.part = Some(Part::new());
        } else if begins(line, "Locator {") {
            self.locator = Some(Locator::new());
        } else if begins(line, "Stream {") {
            self.in_stream = true;
            self.tag = String::new();
        } else if begins(line, "Triangles") {
            self.in_tris = true;
        } else if equals(line, "}") {
            self.close();
        } else if let Some(l) = &mut self.locator {
            l.read(line, t);
        } else if let Some(p) = &mut self.part {
            p.read(line);
        } else if let Some(p) = &mut self.piece {
            if self.in_tris {
                let v = read_tuple(line, t);
                p.add_triangle(&v);
            } else if self.in_stream {
                if begins(line, "Tag:") {
                    self.tag = read_quoted(line);
                } else if begins(line, "Format:") || begins(line, "Alias") {
                } else {
                    let v = read_tuple(line, t);
                    p.add_value(self.tag.as_str(), &v);
                }
            } else if begins(line, "Material:") {
                p.set_material(after_colon(line));
            }
        }
        assert(self@ =~~= old(self)@.after(line@, t@));
    }
}

pub fn parse(text: &str, t: &Decimals) -> (r: Model)
    ensures
        r@ == model_in(text@, t@),
{
    let c = chars_of(text);
    let ls = split_lines(c.as_slice());
    let mut m = Reader::new();
    let mut i: usize = 0;
    let ghost all = lines(text@);
    assert(all.take(0) =~= Seq::<Seq<char>>::empty());
    while i < ls.len()
        invariant
            i <= ls@.len(),
            parts(ls@) == all,
            m@ == after_lines(all.take(i as int), t@),
        decreases ls@.len() - i,
    {
        assert(parts(ls@)[i as int] == ls@[i as int]@);
        assert(all.take(i + 1).drop_last() =~= all.take(i as int));
        m.read(trim(ls[i]), t);
        i = i + 1;
    }
    assert(all.take(i as int) =~= all);
    m.model
}

} // verus!
