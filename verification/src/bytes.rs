//! Numbers read out of byte strings.

use crate::cityhash::{fetch32, fetch64};
use vstd::prelude::*;

verus! {

pub use crate::cityhash::{le32, le64};

/// The little-endian 16-bit number that starts at byte `i`.
pub open spec fn le16(b: Seq<u8>, i: int) -> u16 {
    (b[i] + 0x100 * b[i + 1]) as u16
}

/// Whether `n` bytes can be read at `o`.
pub open spec fn readable(b: Seq<u8>, o: int, n: int) -> bool {
    0 <= o && o + n <= b.len()
}

/// The 32 bits at `o`, or `missing` where the bytes end before.
pub open spec fn word(b: Seq<u8>, o: int, missing: u32) -> u32 {
    if readable(b, o, 4) {
        le32(b, o)
    } else {
        missing
    }
}

/// 32 bits as a signed number.
pub open spec fn signed(u: u32) -> int {
    if u < 0x8000_0000 {
        u as int
    } else {
        u - 0x1_0000_0000
    }
}

/// The signed number at `o`; -1 where the bytes end before.
pub open spec fn int_at(b: Seq<u8>, o: int) -> int {
    if readable(b, o, 4) {
        signed(le32(b, o))
    } else {
        -1
    }
}

/// The number at `o` as a count or an offset: negative values mean zero.
pub open spec fn count_at(b: Seq<u8>, o: int) -> nat {
    if int_at(b, o) > 0 {
        int_at(b, o) as nat
    } else {
        0
    }
}

/// Whether the bytes `p` stand at `o`.
pub open spec fn stands_at(b: Seq<u8>, o: int, p: Seq<u8>) -> bool {
    &&& readable(b, o, p.len() as int)
    &&& b.subrange(o, o + p.len()) == p
}

pub fn u16_at(b: &[u8], o: usize) -> (r: u16)
    requires
        o + 2 <= b.len(),
    ensures
        r == le16(b@, o as int),
{
    b[o] as u16 + 0x100 * (b[o + 1] as u16)
}

pub fn can_read(b: &[u8], o: u64, n: u64) -> (r: bool)
    ensures
        r == readable(b@, o as int, n as int),
        r ==> o + n <= usize::MAX,
{
    let len: u64 = b.len() as u64;
    o <= len && n <= len - o
}

pub fn word_at(b: &[u8], o: u64, missing: u32) -> (r: u32)
    ensures
        r == word(b@, o as int, missing),
{
    if can_read(b, o, 4) {
        fetch32(b, o as usize)
    } else {
        missing
    }
}

pub fn i32_at(b: &[u8], o: u64) -> (r: i32)
    ensures
        r == int_at(b@, o as int),
{
    if !can_read(b, o, 4) {
        return -1;
    }
    let u: u32 = fetch32(b, o as usize);
    if u < 0x8000_0000 {
        u as i32
    } else {
        -((0xffff_ffff - u) as i32) - 1
    }
}

pub fn nat_at(b: &[u8], o: u64) -> (r: u32)
    ensures
        r == count_at(b@, o as int),
        r < 0x8000_0000,
{
    let v: i32 = i32_at(b, o);
    if v > 0 {
        v as u32
    } else {
        0
    }
}

/// The 64 bits at `o`, or zero where the bytes end before.
pub open spec fn long_at(b: Seq<u8>, o: int) -> u64 {
    if readable(b, o, 8) {
        le64(b, o)
    } else {
        0
    }
}

pub fn u64_at(b: &[u8], o: u64) -> (r: u64)
    ensures
        r == long_at(b@, o as int),
{
    if can_read(b, o, 8) {
        fetch64(b, o as usize)
    } else {
        0
    }
}

pub fn at(b: &[u8], o: usize, p: &[u8]) -> (r: bool)
    ensures
        r == stands_at(b@, o as int, p@),
{
    if !can_read(b, o as u64, p.len() as u64) {
        return false;
    }
    let n: usize = b.len();
    let mut i: usize = 0;
    while i < p.len()
        invariant
            i <= p@.len(),
            readable(b@, o as int, p@.len() as int),
            n == b@.len(),
            forall|j: int| 0 <= j < i ==> b@[o + j] == p@[j],
        decreases p@.len() - i,
    {
        if b[o + i] != p[i] {
            assert(b@.subrange(o as int, o + p@.len())[i as int] != p@[i as int]);
            return false;
        }
        i = i + 1;
    }
    assert(b@.subrange(o as int, o + p@.len()) =~= p@);
    true
}

/// A copy of the bytes.
pub fn copy(b: &[u8]) -> (r: Vec<u8>)
    ensures
        r@ == b@,
{
    let mut r: Vec<u8> = Vec::new();
    r.extend_from_slice(b);
    assert(r@ =~= b@);
    r
}

// ------------------------------------------------------ numbers as bytes ---

/// The four low bytes of a number, least significant first; a negative number
/// in two's complement.
#[verifier::opaque]
pub open spec fn le4(x: int) -> Seq<u8> {
    seq![
        (x % 256) as u8,
        (x / 256 % 256) as u8,
        (x / 65536 % 256) as u8,
        (x / 16777216 % 256) as u8,
    ]
}

/// The eight low bytes of a number, least significant first.
pub open spec fn le8(x: int) -> Seq<u8> {
    le4(x) + le4(x / 4294967296)
}

pub broadcast proof fn lemma_le4_len(x: int)
    ensures
        #[trigger] le4(x).len() == 4,
{
    reveal(le4);
}

/// Only the value modulo 4294967296 counts.
pub proof fn lemma_le4_wraps(x: int, k: int)
    ensures
        le4(x + 4294967296 * k) == le4(x),
{
    reveal(le4);
    let y = x + 4294967296 * k;
    assert(y / 256 == x / 256 + 16777216 * k);
    assert(y / 65536 == x / 65536 + 65536 * k);
    assert(y / 16777216 == x / 16777216 + 256 * k);
    assert(le4(y) =~= le4(x));
}

/// Four bytes, read back, give the number.
pub proof fn lemma_le4_reads_back(b: Seq<u8>, x: int)
    requires
        0 <= x < 4294967296,
        b.len() >= 4,
        b.take(4) == le4(x),
    ensures
        le32(b, 0) == x,
{
    reveal(le4);
    assert(b[0] == b.take(4)[0] && b[1] == b.take(4)[1] && b[2] == b.take(4)[2] && b[3] == b.take(
        4,
    )[3]);
}

/// Four bytes that stand somewhere, read back, give the number.
pub proof fn lemma_le4_at(b: Seq<u8>, o: int, x: int)
    requires
        stands_at(b, o, le4(x)),
        -0x8000_0000 <= x < 0x1_0000_0000,
    ensures
        readable(b, o, 4),
        x >= 0 ==> le32(b, o) == x,
        x < 0x8000_0000 ==> int_at(b, o) == x,
{
    lemma_le4_len(x);
    let y = if x >= 0 {
        x
    } else {
        x + 0x1_0000_0000
    };
    if x < 0 {
        lemma_le4_wraps(x, 1);
    }
    let s = b.subrange(o, o + 4);
    assert(s.take(4) =~= s);
    lemma_le4_reads_back(s, y);
    assert(s[0] == b[o] && s[1] == b[o + 1] && s[2] == b[o + 2] && s[3] == b[o + 3]);
}

/// Eight bytes that stand somewhere, read back, give the number.
pub proof fn lemma_le8_at(b: Seq<u8>, o: int, x: int)
    requires
        stands_at(b, o, le8(x)),
        0 <= x <= u64::MAX,
    ensures
        long_at(b, o) == x,
{
    let hi = x / 4294967296;
    let lo = x % 4294967296;
    lemma_le4_wraps(lo, hi);
    assert(x == lo + 4294967296 * hi);
    lemma_le4_len(x);
    lemma_le4_len(hi);
    lemma_stands_apart(b, o, le4(x), le4(hi));
    lemma_le4_at(b, o, lo);
    assert(0 <= hi < 4294967296);
    lemma_le4_at(b, o + 4, hi);
}

/// Bytes that stand somewhere one after the other, each for itself.
pub proof fn lemma_stands_apart(b: Seq<u8>, o: int, x: Seq<u8>, y: Seq<u8>)
    requires
        stands_at(b, o, x + y),
    ensures
        stands_at(b, o, x),
        stands_at(b, o + x.len(), y),
{
    let all = b.subrange(o, o + (x + y).len());
    assert(b.subrange(o, o + x.len()) =~= x) by {
        assert forall|i: int| 0 <= i < x.len() implies b[o + i] == x[i] by {
            assert(all[i] == (x + y)[i]);
        }
    }
    assert(b.subrange(o + x.len(), o + x.len() + y.len()) =~= y) by {
        assert forall|i: int| 0 <= i < y.len() implies b[o + x.len() + i] == y[i] by {
            assert(all[x.len() + i] == (x + y)[x.len() + i]);
        }
    }
}

pub fn push4(out: &mut Vec<u8>, x: u64)
    ensures
        final(out)@ == old(out)@ + le4(x as int),
{
    out.push((x % 256) as u8);
    out.push((x / 256 % 256) as u8);
    out.push((x / 65536 % 256) as u8);
    out.push((x / 16777216 % 256) as u8);
    reveal(le4);
    assert(out@ =~= old(out)@ + le4(x as int));
}

pub fn push8(out: &mut Vec<u8>, x: u64)
    ensures
        final(out)@ == old(out)@ + le8(x as int),
{
    push4(out, x);
    push4(out, x / 4294967296);
    assert(out@ =~= old(out)@ + le8(x as int));
}

pub fn push_i32(out: &mut Vec<u8>, x: i32)
    ensures
        final(out)@ == old(out)@ + le4(x as int),
{
    let u: u64 = if x >= 0 {
        x as u64
    } else {
        (x as i64 + 4294967296) as u64
    };
    proof {
        lemma_le4_wraps(x as int, 1);
    }
    push4(out, u);
}

pub fn push_i64(out: &mut Vec<u8>, x: i64)
    ensures
        final(out)@ == old(out)@ + le8(x as int),
{
    let u: u64 = if x >= 0 {
        x as u64
    } else {
        (x as i128 + 18446744073709551616) as u64
    };
    proof {
        if x < 0 {
            lemma_le4_wraps(x as int, 4294967296);
            lemma_le4_wraps(x as int / 4294967296, 1);
            assert(u as int / 4294967296 == x as int / 4294967296 + 4294967296);
        }
    }
    push8(out, u);
}

pub fn push_zeros(out: &mut Vec<u8>, n: usize)
    ensures
        final(out)@ == old(out)@ + zeros(n as nat),
{
    let mut i: usize = 0;
    while i < n
        invariant
            i <= n,
            out@ =~= old(out)@ + zeros(i as nat),
        decreases n - i,
    {
        out.push(0);
        i = i + 1;
    }
}

pub open spec fn zeros(n: nat) -> Seq<u8> {
    Seq::new(n, |i: int| 0u8)
}

/// Puts the four low bytes of `x` at `at`.
pub fn set4(out: &mut Vec<u8>, at: usize, x: u64)
    requires
        at + 4 <= old(out)@.len(),
    ensures
        final(out)@ == old(out)@.take(at as int) + le4(x as int) + old(out)@.skip(at + 4),
{
    reveal(le4);
    let n: usize = out.len();
    assert(at + 4 <= n);
    out.set(at, (x % 256) as u8);
    out.set(at + 1, (x / 256 % 256) as u8);
    out.set(at + 2, (x / 65536 % 256) as u8);
    out.set(at + 3, (x / 16777216 % 256) as u8);
    assert(out@ =~= old(out)@.take(at as int) + le4(x as int) + old(out)@.skip(at + 4));
}

} // verus!
