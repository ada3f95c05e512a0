//! Reading `.pmg` geometry directly.
//!
//! Three container versions are in circulation. 0x14 and 0x15 differ only in
//! header length; 0x13 keeps its vertex attributes in two pools rather than
//! one.
//!
//! What is *not* here is material names: a piece stores an index, and the names
//! live in the `.pmd`. Pieces come out with placeholder aliases, so a model read
//! this way has geometry and UVs but no texture paths.

use crate::bytes::{
    at, count_at, i32_at, int_at, le16, long_at, nat_at, readable, u16_at, u64_at, word, word_at,
};
use crate::pim::{
    locator_views, part_views, piece_views, Colour, Locator, LocatorView, Model, ModelView, Part,
    PartView, Piece, PieceView, ONE,
};
use crate::text::{cat, decimal, digits, texts, write_hex, write_padded, zero_padded};
use vstd::prelude::*;

verus! {

// --------------------------------------------------------------- tokens ---

/// The character of a token digit from 1 to 37: 0-9, then a-z, then underscore.
pub open spec fn token_char(d: int) -> char {
    if d <= 10 {
        (('0' as u32 + (d - 1)) as u32) as char
    } else if d <= 36 {
        (('a' as u32 + (d - 11)) as u32) as char
    } else {
        '_'
    }
}

/// The base-38 digits of a token, least significant first, up to the first zero
/// and `n` at most.
pub open spec fn token_front(t: nat, n: nat) -> Seq<char>
    decreases n,
{
    if n == 0 || t % 38 == 0 {
        Seq::empty()
    } else {
        seq![token_char((t % 38) as int)] + token_front(t / 38, (n - 1) as nat)
    }
}

/// The name packed into a token. Nothing longer than twelve characters fits.
pub open spec fn token_text(t: nat) -> Seq<char> {
    token_front(t, 12)
}

fn token_digit(d: u64) -> (r: char)
    requires
        1 <= d < 38,
    ensures
        r == token_char(d as int),
{
    if d <= 10 {
        let n: u8 = 47 + d as u8;
        n as char
    } else if d <= 36 {
        let n: u8 = 86 + d as u8;
        n as char
    } else {
        '_'
    }
}

/// Short names are packed into a 64-bit "token": base 38, least significant
/// digit first. Nothing longer than twelve characters fits.
///
/// Token 0x422e5ac75 has base-38 digits 13, 18, 29, 37, 7, 34, 5 and names the
/// part "chs_6x4".
pub fn token_to_string(t: u64) -> (r: String)
    ensures
        r@ == token_text(t as nat),
        r@.len() <= 12,
        packable(r@),
{
    let mut t: u64 = t;
    let ghost whole = t as nat;
    let mut s = String::new();
    let mut left: u64 = 12;
    while left > 0 && t % 38 != 0
        invariant
            left <= 12,
            s@ + token_front(t as nat, left as nat) == token_text(whole),
        decreases left,
    {
        let ghost before = s@;
        let ghost rest = token_front((t / 38) as nat, (left - 1) as nat);
        s.push(token_digit(t % 38));
        assert(s@ + rest =~= before + (seq![token_char((t % 38) as int)] + rest));
        t = t / 38;
        left = left - 1;
    }
    assert(s@ + Seq::<char>::empty() =~= s@);
    proof {
        lemma_front(whole, 12);
    }
    s
}

/// The digit of a character that names are made of.
pub open spec fn token_value(c: char) -> Option<nat> {
    if '0' <= c && c <= '9' {
        Some((c as u32 - '0' as u32 + 1) as nat)
    } else if 'a' <= c && c <= 'z' {
        Some((c as u32 - 'a' as u32 + 11) as nat)
    } else if c == '_' {
        Some(37)
    } else {
        None
    }
}

/// Whether a name holds token characters only.
pub open spec fn packable(s: Seq<char>) -> bool {
    forall|i: int| 0 <= i < s.len() ==> token_value(#[trigger] s[i]) is Some
}

/// The token of a name.
pub open spec fn token_of(s: Seq<char>) -> nat
    decreases s.len(),
{
    if s.len() == 0 {
        0
    } else {
        token_value(s[0])->0 + 38 * token_of(s.skip(1))
    }
}

/// 38 to the power `n`.
pub open spec fn token_limit(n: nat) -> nat
    decreases n,
{
    if n == 0 {
        1
    } else {
        38 * token_limit((n - 1) as nat)
    }
}

/// Reading a token gives back the name that was packed into it.
pub proof fn token_gives_back_the_name(s: Seq<char>)
    requires
        packable(s),
        s.len() <= 12,
    ensures
        token_text(token_of(s)) == s,
{
    lemma_given_back(s, 12);
}

proof fn lemma_given_back(s: Seq<char>, n: nat)
    requires
        packable(s),
        s.len() <= n,
    ensures
        token_front(token_of(s), n) == s,
    decreases s.len(),
{
    if s.len() > 0 {
        let rest = s.skip(1);
        assert forall|i: int| 0 <= i < rest.len() implies token_value(#[trigger] rest[i]) is Some by {
            assert(token_value(s[i + 1]) is Some);
        }
        lemma_given_back(rest, (n - 1) as nat);
        assert(token_value(s[0]) is Some);
        let d = token_value(s[0])->0;
        assert(1 <= d < 38);
        let t = token_of(s);
        assert(t % 38 == d);
        assert(t / 38 == token_of(rest));
        assert(token_char(d as int) == s[0]);
        assert(seq![s[0]] + rest =~= s);
    }
}

/// Every name of up to twelve token characters fits a 64-bit token.
pub proof fn twelve_characters_fit(s: Seq<char>)
    requires
        packable(s),
        s.len() <= 12,
    ensures
        token_of(s) <= u64::MAX,
{
    lemma_token_below(s);
    lemma_limit_grows(s.len(), 12);
    lemma_limit_12();
}

/// Nothing longer than twelve characters comes out of a token, and nothing but
/// token characters.
pub proof fn token_names_are_short(t: u64)
    ensures
        token_text(t as nat).len() <= 12,
        packable(token_text(t as nat)),
{
    lemma_front(t as nat, 12);
}

proof fn lemma_limit_12()
    ensures
        token_limit(12) <= u64::MAX,
{
    reveal_with_fuel(token_limit, 13);
}

proof fn lemma_limit_grows(a: nat, b: nat)
    requires
        a <= b,
    ensures
        token_limit(a) <= token_limit(b),
    decreases b,
{
    if a < b {
        lemma_limit_grows(a, (b - 1) as nat);
    }
}

proof fn lemma_token_below(s: Seq<char>)
    requires
        packable(s),
    ensures
        token_of(s) < token_limit(s.len()),
    decreases s.len(),
{
    if s.len() > 0 {
        let rest = s.skip(1);
        assert forall|i: int| 0 <= i < rest.len() implies token_value(#[trigger] rest[i]) is Some by {
            assert(token_value(s[i + 1]) is Some);
        }
        lemma_token_below(rest);
        assert(token_value(s[0]) is Some);
    }
}

proof fn lemma_front(t: nat, n: nat)
    ensures
        token_front(t, n).len() <= n,
        packable(token_front(t, n)),
    decreases n,
{
    if n > 0 && t % 38 != 0 {
        lemma_front(t / 38, (n - 1) as nat);
        let rest = token_front(t / 38, (n - 1) as nat);
        let all = token_front(t, n);
        assert(token_value(token_char((t % 38) as int)) is Some);
        assert forall|i: int| 0 <= i < all.len() implies token_value(#[trigger] all[i]) is Some by {
            if i > 0 {
                assert(all[i] == rest[i - 1]);
            }
        }
    }
}

// --------------------------------------------------------------- layout ---

#[derive(Clone, Copy, Debug, PartialEq, Eq, Structural)]
pub enum PmgError {
    NotPmg,
    UnsupportedVersion(u8),
}

impl PmgError {
    pub open spec fn text(self) -> Seq<char> {
        match self {
            PmgError::NotPmg => "not a .pmg"@,
            PmgError::UnsupportedVersion(v) => "unsupported .pmg version 0x"@ + zero_padded(
                digits(v as nat, 16),
                2,
            ),
        }
    }

    pub fn message(&self) -> (r: String)
        ensures
            r@ == self.text(),
    {
        match self {
            PmgError::NotPmg => "not a .pmg".to_owned(),
            PmgError::UnsupportedVersion(v) => {
                cat("unsupported .pmg version 0x", write_hex(*v as u64, 2).as_str())
            },
        }
    }
}

/// Where a file keeps its tables.
#[derive(Clone, Copy, PartialEq, Eq, Structural)]
pub struct Layout {
    pub piece_count: u32,
    pub part_count: u32,
    pub locator_count: u32,
    pub parts_offset: u32,
    pub locators_offset: u32,
    pub pieces_offset: u32,
    /// 0x13 splits its vertex attributes across two strides
    pub old: bool,
}

/// The layout of a file whose locator count stands at `count` and whose three
/// table offsets stand at `tables`.
pub open spec fn layout_at(b: Seq<u8>, count: int, tables: int, old: bool) -> Layout {
    Layout {
        piece_count: count_at(b, 4) as u32,
        part_count: count_at(b, 8) as u32,
        locator_count: count_at(b, count) as u32,
        parts_offset: count_at(b, tables) as u32,
        locators_offset: count_at(b, tables + 4) as u32,
        pieces_offset: count_at(b, tables + 8) as u32,
        old,
    }
}

/// The layout of each version: 0x14 is 0x15 with an 8-byte hash removed.
pub open spec fn layout(b: Seq<u8>) -> Result<Layout, PmgError> {
    if b.len() < 116 || b.subrange(1, 4) != seq![0x67u8, 0x6du8, 0x50u8] {
        Err(PmgError::NotPmg)
    } else if b[0] == 0x15 {
        Ok(layout_at(b, 20, 76, false))
    } else if b[0] == 0x14 {
        Ok(layout_at(b, 20, 68, false))
    } else if b[0] == 0x13 {
        Ok(layout_at(b, 16, 64, true))
    } else {
        Err(PmgError::UnsupportedVersion(b[0]))
    }
}

fn read_layout_at(b: &[u8], count: u64, tables: u64, old: bool) -> (r: Layout)
    requires
        tables <= 100,
    ensures
        r == layout_at(b@, count as int, tables as int, old),
{
    Layout {
        piece_count: nat_at(b, 4),
        part_count: nat_at(b, 8),
        locator_count: nat_at(b, count),
        parts_offset: nat_at(b, tables),
        locators_offset: nat_at(b, tables + 4),
        pieces_offset: nat_at(b, tables + 8),
        old,
    }
}

fn read_layout(b: &[u8]) -> (r: Result<Layout, PmgError>)
    ensures
        r == layout(b@),
{
    if b.len() < 116 || b[1] != 0x67 || b[2] != 0x6d || b[3] != 0x50 {
        proof {
            if b@.len() >= 116 {
                let s = b@.subrange(1, 4);
                assert(s[0] == b@[1] && s[1] == b@[2] && s[2] == b@[3]);
            }
        }
        return Err(PmgError::NotPmg);
    }
    assert(b@.subrange(1, 4) =~= seq![0x67u8, 0x6du8, 0x50u8]);
    if b[0] == 0x15 {
        Ok(read_layout_at(b, 20, 76, false))
    } else if b[0] == 0x14 {
        Ok(read_layout_at(b, 20, 68, false))
    } else if b[0] == 0x13 {
        Ok(read_layout_at(b, 16, 64, true))
    } else {
        Err(PmgError::UnsupportedVersion(b[0]))
    }
}

// ---------------------------------------------------- parts and locators ---

/// The numbers from `first`, `n` of them.
pub open spec fn span(first: nat, n: nat) -> Seq<usize> {
    Seq::new(n, |i: int| (first + i) as usize)
}

fn span_of(first: u32, n: u32) -> (r: Vec<usize>)
    requires
        first < 0x8000_0000,
        n < 0x8000_0000,
    ensures
        r@ == span(first as nat, n as nat),
{
    let mut r: Vec<usize> = Vec::new();
    let mut i: u32 = 0;
    while i < n
        invariant
            i <= n,
            first < 0x8000_0000,
            n < 0x8000_0000,
            r@ =~= span(first as nat, i as nat),
        decreases n - i,
    {
        r.push((first + i) as usize);
        i = i + 1;
    }
    r
}

/// The part record at `o`.
pub open spec fn part_at(b: Seq<u8>, o: int) -> PartView {
    PartView {
        name: token_text(long_at(b, o) as nat),
        pieces: span(count_at(b, o + 12), count_at(b, o + 8)),
        locators: span(count_at(b, o + 20), count_at(b, o + 16)),
    }
}

fn read_part(b: &[u8], o: u64) -> (r: Part)
    requires
        o < 0x1000_0000_0000,
    ensures
        r@ == part_at(b@, o as int),
{
    let n: u32 = nat_at(b, o + 8);
    let first: u32 = nat_at(b, o + 12);
    let ln: u32 = nat_at(b, o + 16);
    let lfirst: u32 = nat_at(b, o + 20);
    Part {
        name: token_to_string(u64_at(b, o)),
        pieces: span_of(first, n),
        locators: span_of(lfirst, ln),
    }
}

/// A scale nearer to zero than 1e-9 means that none is given.
pub open spec fn scale_or_one(s: u32) -> u32 {
    if s % 0x8000_0000 < 0x3089_705f {
        ONE
    } else {
        s
    }
}

/// The bits of the number at `o`; zero where the bytes end before.
pub open spec fn bits(b: Seq<u8>, o: int) -> u32 {
    word(b, o, 0)
}

pub open spec fn bits3(b: Seq<u8>, o: int) -> (u32, u32, u32) {
    (bits(b, o), bits(b, o + 4), bits(b, o + 8))
}

/// The locator record at `o`: one number of uniform scale here, not three.
pub open spec fn locator_at(b: Seq<u8>, o: int) -> LocatorView {
    let s = scale_or_one(bits(b, o + 20));
    LocatorView {
        name: token_text(long_at(b, o) as nat),
        position: bits3(b, o + 8),
        rotation: (bits(b, o + 24), bits(b, o + 28), bits(b, o + 32), bits(b, o + 36)),
        scale: (s, s, s),
    }
}

fn read_locator(b: &[u8], o: u64) -> (r: Locator)
    requires
        o < 0x1000_0000_0000,
    ensures
        r@ == locator_at(b@, o as int),
{
    let s: u32 = word_at(b, o + 20, 0);
    let s: u32 = if s % 0x8000_0000 < 0x3089_705f {
        ONE
    } else {
        s
    };
    Locator {
        name: token_to_string(u64_at(b, o)),
        position: (word_at(b, o + 8, 0), word_at(b, o + 12, 0), word_at(b, o + 16, 0)),
        rotation: (
            word_at(b, o + 24, 0),
            word_at(b, o + 28, 0),
            word_at(b, o + 32, 0),
            word_at(b, o + 36, 0),
        ),
        scale: (s, s, s),
    }
}

// --------------------------------------------------------------- pieces ---

/// What a piece record says.
#[derive(Clone, Copy, PartialEq, Eq, Structural)]
pub struct Header {
    pub edges: u32,
    pub verts: u32,
    pub uv_channels: u32,
    pub material: u32,
    pub positions: i32,
    pub normals: i32,
    pub uvs: i32,
    pub rgba: i32,
    pub triangles: i32,
    /// the distance from one position to the next
    pub stat: u64,
    /// the distance from one colour or UV to the next
    pub dynm: u64,
}

/// The size of an attribute that is there unless its offset is -1.
pub open spec fn present(offset: int, size: int) -> int {
    if offset != -1 {
        size
    } else {
        0
    }
}

/// The piece record at `o`. The strides are sums of the attributes actually
/// present. 0x13 counts the position-side attributes separately from the
/// colour/UV side, unless the piece has no bones, in which case the two pools
/// are one.
pub open spec fn header_at(b: Seq<u8>, o: int, old: bool) -> Header {
    let first = present(int_at(b, o + 64), 12) + present(int_at(b, o + 68), 12) + present(
        int_at(b, o + 84),
        16,
    );
    let second = present(int_at(b, o + 72), 8 * (count_at(b, o + 12) as int)) + present(
        int_at(b, o + 76),
        4,
    ) + present(int_at(b, o + 80), 4);
    let apart = old && int_at(b, o + 16) != 0;
    let both = first + second + (if old {
        0
    } else {
        present(int_at(b, o + 88), 8)
    });
    Header {
        edges: count_at(b, o) as u32,
        verts: count_at(b, o + 4) as u32,
        uv_channels: count_at(b, o + 12) as u32,
        material: count_at(
            b,
            if old {
                o + 20
            } else {
                o + 16
            },
        ) as u32,
        positions: int_at(b, o + 64) as i32,
        normals: int_at(b, o + 68) as i32,
        uvs: int_at(b, o + 72) as i32,
        rgba: int_at(b, o + 76) as i32,
        triangles: int_at(
            b,
            if old {
                o + 88
            } else {
                o + 96
            },
        ) as i32,
        stat: (if apart {
            first
        } else {
            both
        }) as u64,
        dynm: (if apart {
            second
        } else {
            both
        }) as u64,
    }
}

fn read_header(b: &[u8], o: u64, old: bool) -> (r: Header)
    requires
        o < 0x1000_0000_0000,
    ensures
        r == header_at(b@, o as int, old),
        r.stat < 0x10_0000_0000,
        r.dynm < 0x10_0000_0000,
        r.verts < 0x8000_0000,
        r.edges < 0x8000_0000,
        r.material < 0x8000_0000,
{
    let edges: u32 = nat_at(b, o);
    let verts: u32 = nat_at(b, o + 4);
    let uv_channels: u32 = nat_at(b, o + 12);
    let material: u32 = if old {
        nat_at(b, o + 20)
    } else {
        nat_at(b, o + 16)
    };
    let positions: i32 = i32_at(b, o + 64);
    let normals: i32 = i32_at(b, o + 68);
    let uvs: i32 = i32_at(b, o + 72);
    let rgba: i32 = i32_at(b, o + 76);
    let factors: i32 = i32_at(b, o + 80);
    let tangents: i32 = i32_at(b, o + 84);
    // 0x13 lists its triangle offset next; the others put two bone streams first
    let triangles: i32 = if old {
        i32_at(b, o + 88)
    } else {
        i32_at(b, o + 96)
    };
    let mut stat: u64 = 0;
    let mut dynm: u64 = 0;
    if positions != -1 {
        stat = stat + 12;
    }
    if normals != -1 {
        stat = stat + 12;
    }
    if tangents != -1 {
        stat = stat + 16;
    }
    if uvs != -1 {
        dynm = dynm + 8 * (uv_channels as u64);
    }
    if rgba != -1 {
        dynm = dynm + 4;
    }
    if factors != -1 {
        dynm = dynm + 4;
    }
    if old {
        if i32_at(b, o + 16) == 0 {
            stat = stat + dynm;
            dynm = stat;
        }
    } else {
        if i32_at(b, o + 88) != -1 {
            stat = stat + 8;
        }
        stat = stat + dynm;
        dynm = stat;
    }
    Header {
        edges,
        verts,
        uv_channels,
        material,
        positions,
        normals,
        uvs,
        rgba,
        triangles,
        stat,
        dynm,
    }
}

/// `n` rows of three numbers from `o` on, `stride` apart; none where `o` is -1.
pub open spec fn rows3(b: Seq<u8>, o: int, stride: int, n: nat) -> Seq<(u32, u32, u32)> {
    if o == -1 {
        Seq::empty()
    } else {
        Seq::new(n, |v: int| bits3(b, o + stride * v))
    }
}

pub open spec fn rows2(b: Seq<u8>, o: int, stride: int, skip: int, n: nat) -> Seq<(u32, u32)> {
    if o == -1 {
        Seq::empty()
    } else {
        Seq::new(
            n,
            |v: int| (bits(b, o + stride * v + skip), bits(b, o + stride * v + skip + 4)),
        )
    }
}

/// The colours of `n` vertices: those that lie inside the file.
pub open spec fn colours(b: Seq<u8>, o: int, stride: int, n: nat) -> Seq<Colour>
    decreases n,
{
    if o == -1 || n == 0 {
        Seq::empty()
    } else {
        let rest = colours(b, o, stride, (n - 1) as nat);
        let c = o + stride * (n - 1);
        if readable(b, c, 4) {
            rest.push(Colour::Bytes(b[c], b[c + 1], b[c + 2], b[c + 3]))
        } else {
            rest
        }
    }
}

/// How many of `n` triangles at `o` lie inside the file.
pub open spec fn triangle_count(b: Seq<u8>, o: int, n: nat) -> nat {
    if o < 0 || o > b.len() {
        0
    } else if (b.len() - o) / 6 < n {
        ((b.len() - o) / 6) as nat
    } else {
        n
    }
}

pub open spec fn triangle_at(b: Seq<u8>, o: int) -> (u32, u32, u32) {
    (le16(b, o) as u32, le16(b, o + 2) as u32, le16(b, o + 4) as u32)
}

/// The piece that a record describes.
pub open spec fn piece_of(b: Seq<u8>, h: Header) -> PieceView {
    PieceView {
        material: h.material as usize,
        positions: rows3(b, h.positions as int, h.stat as int, h.verts as nat),
        normals: rows3(b, h.normals as int, h.stat as int, h.verts as nat),
        uv0: rows2(b, h.uvs as int, h.dynm as int, 0, h.verts as nat),
        uv1: if h.uv_channels > 1 {
            rows2(b, h.uvs as int, h.dynm as int, 8, h.verts as nat)
        } else {
            Seq::empty()
        },
        rgba: colours(b, h.rgba as int, h.dynm as int, h.verts as nat),
        tris: Seq::new(
            triangle_count(b, h.triangles as int, (h.edges / 3) as nat),
            |t: int| triangle_at(b, h.triangles + 6 * t),
        ),
    }
}

fn bits_at(b: &[u8], o: i128) -> (r: u32)
    ensures
        r == bits(b@, o as int),
{
    if o < 0 || o > b.len() as i128 {
        0
    } else {
        word_at(b, o as u64, 0)
    }
}

fn bits3_at(b: &[u8], o: i128) -> (r: (u32, u32, u32))
    requires
        -0x1_0000_0000 <= o < 0x1000_0000_0000_0000_0000,
    ensures
        r == bits3(b@, o as int),
{
    (bits_at(b, o), bits_at(b, o + 4), bits_at(b, o + 8))
}

/// The place of row `v`.
fn row(o: i32, stride: u64, v: u32) -> (r: i128)
    requires
        stride < 0x10_0000_0000,
    ensures
        r == o + stride * v,
        -0x1_0000_0000 <= r < 0x800_0000_0000_0000_0000,
{
    assert(0 <= stride * v <= 0x10_0000_0000 * 0x1_0000_0000) by (nonlinear_arith)
        requires
            stride < 0x10_0000_0000,
            v < 0x1_0000_0000,
    ;
    o as i128 + stride as i128 * v as i128
}

fn read_vertices(b: &[u8], h: &Header, p: &mut Piece)
    requires
        h.stat < 0x10_0000_0000,
        h.dynm < 0x10_0000_0000,
        old(p)@ == (PieceView { material: h.material as usize, ..PieceView::blank() }),
    ensures
        final(p)@ == (PieceView { tris: Seq::empty(), ..piece_of(b@, *h) }),
{
    let mut v: u32 = 0;
    let n: usize = b.len();
    while v < h.verts
        invariant
            v <= h.verts,
            n == b@.len(),
            h.stat < 0x10_0000_0000,
            h.dynm < 0x10_0000_0000,
            p.material == h.material as usize,
            p.tris@ =~= Seq::empty(),
            p.positions@ =~= rows3(b@, h.positions as int, h.stat as int, v as nat),
            p.normals@ =~= rows3(b@, h.normals as int, h.stat as int, v as nat),
            p.uv0@ =~= rows2(b@, h.uvs as int, h.dynm as int, 0, v as nat),
            p.uv1@ =~= (if h.uv_channels > 1 {
                rows2(b@, h.uvs as int, h.dynm as int, 8, v as nat)
            } else {
                Seq::empty()
            }),
            p.rgba@ =~= colours(b@, h.rgba as int, h.dynm as int, v as nat),
        decreases h.verts - v,
    {
        if h.positions != -1 {
            p.positions.push(bits3_at(b, row(h.positions, h.stat, v)));
        }
        if h.normals != -1 {
            p.normals.push(bits3_at(b, row(h.normals, h.stat, v)));
        }
        if h.uvs != -1 {
            let base: i128 = row(h.uvs, h.dynm, v);
            p.uv0.push((bits_at(b, base), bits_at(b, base + 4)));
            if h.uv_channels > 1 {
                p.uv1.push((bits_at(b, base + 8), bits_at(b, base + 12)));
            }
        }
        if h.rgba != -1 {
            let c: i128 = row(h.rgba, h.dynm, v);
            if 0 <= c && c + 4 <= n as i128 {
                let c: usize = c as usize;
                p.rgba.push(Colour::Bytes(b[c], b[c + 1], b[c + 2], b[c + 3]));
            }
        }
        v = v + 1;
    }
}

fn read_piece(b: &[u8], h: &Header) -> (r: Piece)
    requires
        h.stat < 0x10_0000_0000,
        h.dynm < 0x10_0000_0000,
        h.edges < 0x8000_0000,
    ensures
        r@ == piece_of(b@, *h),
{
    let mut p = Piece::new();
    p.material = h.material as usize;
    read_vertices(b, h, &mut p);
    let ghost shown = p@;
    let n: usize = b.len();
    let mut t: u32 = 0;
    let o: i128 = h.triangles as i128;
    while t < h.edges / 3 && 0 <= o && o + 6 * (t as i128) + 6 <= n as i128
        invariant
            t <= h.edges / 3,
            h.edges < 0x8000_0000,
            n == b@.len(),
            o == h.triangles,
            t > 0 ==> 0 <= o && o + 6 * t <= n,
            p@ == (PieceView { tris: p.tris@, ..shown }),
            p.tris@ =~= Seq::new(t as nat, |t: int| triangle_at(b@, h.triangles + 6 * t)),
        decreases h.edges / 3 - t,
    {
        let at: usize = (o + 6 * (t as i128)) as usize;
        p.tris.push((u16_at(b, at) as u32, u16_at(b, at + 2) as u32, u16_at(b, at + 4) as u32));
        t = t + 1;
    }
    assert(t == triangle_count(b@, h.triangles as int, (h.edges / 3) as nat));
    p
}

/// How far apart piece records are.
pub open spec fn piece_stride(old: bool) -> int {
    if old {
        104
    } else {
        100
    }
}

/// The largest material index in use.
pub open spec fn most_material(p: Seq<PieceView>) -> usize
    decreases p.len(),
{
    if p.len() == 0 {
        0
    } else if p.last().material > most_material(p.drop_last()) {
        p.last().material
    } else {
        most_material(p.drop_last())
    }
}

/// The placeholder alias of a material.
pub open spec fn placeholder(i: int) -> Seq<char> {
    "mat_"@ + zero_padded(decimal(i as nat), 4)
}

/// The model that a file of a known layout holds.
pub open spec fn model_of(b: Seq<u8>, lay: Layout) -> ModelView {
    let pieces = Seq::new(
        lay.piece_count as nat,
        |i: int|
            piece_of(b, header_at(b, lay.pieces_offset + i * piece_stride(lay.old), lay.old)),
    );
    ModelView {
        materials: Seq::new((most_material(pieces) + 1) as nat, |i: int| placeholder(i)),
        pieces,
        parts: Seq::new(lay.part_count as nat, |i: int| part_at(b, lay.parts_offset + i * 24)),
        locators: Seq::new(
            lay.locator_count as nat,
            |i: int| locator_at(b, lay.locators_offset + i * 44),
        ),
    }
}

fn read_parts(b: &[u8], lay: &Layout) -> (r: Vec<Part>)
    ensures
        part_views(r@) == Seq::new(
            lay.part_count as nat,
            |i: int| part_at(b@, lay.parts_offset + i * 24),
        ),
{
    let mut r: Vec<Part> = Vec::new();
    let mut i: u32 = 0;
    while i < lay.part_count
        invariant
            i <= lay.part_count,
            part_views(r@) =~= Seq::new(i as nat, |i: int| part_at(b@, lay.parts_offset + i * 24)),
        decreases lay.part_count - i,
    {
        let ghost before = part_views(r@);
        r.push(read_part(b, lay.parts_offset as u64 + i as u64 * 24));
        assert(part_views(r@) =~= before.push(part_at(b@, lay.parts_offset + i * 24)));
        i = i + 1;
    }
    r
}

fn read_locators(b: &[u8], lay: &Layout) -> (r: Vec<Locator>)
    ensures
        locator_views(r@) == Seq::new(
            lay.locator_count as nat,
            |i: int| locator_at(b@, lay.locators_offset + i * 44),
        ),
{
    let mut r: Vec<Locator> = Vec::new();
    let mut i: u32 = 0;
    while i < lay.locator_count
        invariant
            i <= lay.locator_count,
            locator_views(r@) =~= Seq::new(
                i as nat,
                |i: int| locator_at(b@, lay.locators_offset + i * 44),
            ),
        decreases lay.locator_count - i,
    {
        let ghost before = locator_views(r@);
        r.push(read_locator(b, lay.locators_offset as u64 + i as u64 * 44));
        assert(locator_views(r@) =~= before.push(locator_at(b@, lay.locators_offset + i * 44)));
        i = i + 1;
    }
    r
}

fn read_pieces(b: &[u8], lay: &Layout) -> (r: Vec<Piece>)
    ensures
        piece_views(r@) == model_of(b@, *lay).pieces,
        forall|i: int| 0 <= i < r@.len() ==> (#[trigger] r@[i]).material < 0x8000_0000,
{
    let mut r: Vec<Piece> = Vec::new();
    let mut i: u32 = 0;
    let stride: u64 = if lay.old {
        104
    } else {
        100
    };
    let ghost all = model_of(b@, *lay).pieces;
    while i < lay.piece_count
        invariant
            i <= lay.piece_count,
            stride == piece_stride(lay.old),
            all == model_of(b@, *lay).pieces,
            piece_views(r@) =~= all.take(i as int),
            forall|i: int| 0 <= i < r@.len() ==> (#[trigger] r@[i]).material < 0x8000_0000,
        decreases lay.piece_count - i,
    {
        let ghost before = piece_views(r@);
        assert(0 <= i * stride <= 0x1_0000_0000 * 104) by (nonlinear_arith)
            requires
                i < 0x1_0000_0000,
                stride <= 104,
        ;
        let h = read_header(b, lay.pieces_offset as u64 + i as u64 * stride, lay.old);
        let p = read_piece(b, &h);
        r.push(p);
        assert(piece_views(r@) =~= before.push(all[i as int]));
        i = i + 1;
    }
    r
}

fn read_materials(pieces: &Vec<Piece>) -> (r: Vec<String>)
    requires
        forall|i: int| 0 <= i < pieces@.len() ==> (#[trigger] pieces@[i]).material < 0x8000_0000,
    ensures
        texts(r@) == Seq::new(
            (most_material(piece_views(pieces@)) + 1) as nat,
            |i: int| placeholder(i),
        ),
{
    let mut most: usize = 0;
    let mut i: usize = 0;
    let ghost all = piece_views(pieces@);
    while i < pieces.len()
        invariant
            i <= pieces@.len(),
            all == piece_views(pieces@),
            most == most_material(all.take(i as int)),
            most < 0x8000_0000,
            forall|i: int| 0 <= i < pieces@.len() ==> (#[trigger] pieces@[i]).material < 0x8000_0000,
        decreases pieces@.len() - i,
    {
        assert(all.take(i + 1).drop_last() =~= all.take(i as int));
        if pieces[i].material > most {
            most = pieces[i].material;
        }
        i = i + 1;
    }
    assert(all.take(i as int) =~= all);
    let mut r: Vec<String> = Vec::new();
    let mut i: usize = 0;
    while i < most + 1
        invariant
            i <= most + 1,
            most < 0x8000_0000,
            texts(r@) =~= Seq::new(i as nat, |i: int| placeholder(i)),
        decreases most + 1 - i,
    {
        let ghost before = texts(r@);
        r.push(cat("mat_", write_padded(i as u64, 4).as_str()));
        assert(texts(r@) =~= before.push(placeholder(i as int)));
        i = i + 1;
    }
    r
}

pub fn parse_bytes(b: &[u8]) -> (r: Result<Model, PmgError>)
    ensures
        match r {
            Ok(m) => layout(b@) is Ok && m@ == model_of(b@, layout(b@)->Ok_0),
            Err(e) => layout(b@) == Err::<Layout, PmgError>(e),
        },
{
    let lay = match read_layout(b) {
        Ok(lay) => lay,
        Err(e) => {
            return Err(e);
        },
    };
    let parts = read_parts(b, &lay);
    let locators = read_locators(b, &lay);
    let pieces = read_pieces(b, &lay);
    // Material names live in the .pmd; a piece only carries an index.
    let materials = read_materials(&pieces);
    let m = Model { materials, pieces, parts, locators };
    assert(m@ =~= model_of(b@, lay));
    Ok(m)
}

} // verus!
