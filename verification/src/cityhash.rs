//! The hash that keys every entry of a HashFS archive by its path.
//!
//! It is a hybrid of two CityHash64 releases. Inputs of 64 bytes or fewer go
//! through the short branches of 1.0.x; longer ones use the main loop of 1.1.
//! Matching any single published release would make most paths unresolvable.

use vstd::prelude::*;

verus! {

pub const K0: u64 = 0xc3a5c85c97cb3127;

pub const K1: u64 = 0xb492b66fbe98f273;

pub const K2: u64 = 0x9ae16a3b2f90404f;

pub const K3: u64 = 0xc949d7c7509e6557;

pub const KMUL: u64 = 0x9ddfea08eb382d69;

/// The little-endian 32-bit number that starts at byte `i`.
pub open spec fn le32(s: Seq<u8>, i: int) -> u32 {
    (s[i] + 0x100 * s[i + 1] + 0x1_0000 * s[i + 2] + 0x100_0000 * s[i + 3]) as u32
}

/// The little-endian 64-bit number that starts at byte `i`.
pub open spec fn le64(s: Seq<u8>, i: int) -> u64 {
    (le32(s, i) + 0x1_0000_0000 * le32(s, i + 4)) as u64
}

/// Rotation to the right by `k` places, `1 <= k <= 63`.
pub open spec fn rot(v: u64, k: int) -> u64 {
    (v >> k) | (v << (64 - k))
}

pub open spec fn mix(v: u64) -> u64 {
    v ^ (v >> 47)
}

/// Folding 128 bits to 64.
pub open spec fn fold128(lo: u64, hi: u64) -> u64 {
    let a = mix((lo ^ hi).wrapping_mul(KMUL));
    let b = mix((hi ^ a).wrapping_mul(KMUL));
    b.wrapping_mul(KMUL)
}

pub open spec fn short_hash(s: Seq<u8>) -> u64 {
    let n = s.len() as int;
    if n > 8 {
        let b = le64(s, n - 8);
        fold128(le64(s, 0), rot(b.wrapping_add(n as u64), n)) ^ b
    } else if n >= 4 {
        fold128(
            (n as u64).wrapping_add((le32(s, 0) as u64) << 3u32),
            le32(s, n - 4) as u64,
        )
    } else if n > 0 {
        let y = (s[0] as u64).wrapping_add((s[n / 2] as u64) << 8u32);
        let z = (n as u64).wrapping_add((s[n - 1] as u64) << 2u32);
        mix(y.wrapping_mul(K2) ^ z.wrapping_mul(K3)).wrapping_mul(K2)
    } else {
        K2
    }
}

pub open spec fn medium_hash(s: Seq<u8>) -> u64 {
    let n = s.len() as int;
    let a = le64(s, 0).wrapping_mul(K1);
    let b = le64(s, 8);
    let c = le64(s, n - 8).wrapping_mul(K2);
    let d = le64(s, n - 16).wrapping_mul(K0);
    fold128(
        rot(a.wrapping_sub(b), 43).wrapping_add(rot(c, 30)).wrapping_add(d),
        a.wrapping_add(rot(b ^ K3, 20)).wrapping_sub(c).wrapping_add(n as u64),
    )
}

/// Two seeds stirred with four words.
pub open spec fn stir(w: u64, x: u64, y: u64, z: u64, a: u64, b: u64) -> (u64, u64) {
    let a1 = a.wrapping_add(w);
    let b1 = rot(b.wrapping_add(a1).wrapping_add(z), 21);
    let a2 = a1.wrapping_add(x).wrapping_add(y);
    let b2 = b1.wrapping_add(rot(a2, 44));
    (a2.wrapping_add(z), b2.wrapping_add(a1))
}

/// [`stir`] with the 32 bytes that start at `i`.
pub open spec fn stir_at(s: Seq<u8>, i: int, a: u64, b: u64) -> (u64, u64) {
    stir(le64(s, i), le64(s, i + 8), le64(s, i + 16), le64(s, i + 24), a, b)
}

/// One half of the 33..=64 byte branch: the pair drawn from the seed `a` and
/// three further words.
pub open spec fn half(a: u64, p: u64, q: u64, z: u64) -> (u64, u64) {
    let a1 = a.wrapping_add(p);
    let a2 = a1.wrapping_add(q);
    let c = rot(a, 37).wrapping_add(rot(a1, 7));
    (a2.wrapping_add(z), rot(a.wrapping_add(z), 52).wrapping_add(rot(a2, 31)).wrapping_add(c))
}

pub open spec fn long_hash(s: Seq<u8>) -> u64 {
    let n = s.len() as int;
    let a = le64(s, 0).wrapping_add(
        (n as u64).wrapping_add(le64(s, n - 16)).wrapping_mul(K0),
    );
    let v = half(a, le64(s, 8), le64(s, 16), le64(s, 24));
    let b = le64(s, 16).wrapping_add(le64(s, n - 32));
    let w = half(b, le64(s, n - 24), le64(s, n - 16), le64(s, n - 8));
    let r = mix(
        v.0.wrapping_add(w.1).wrapping_mul(K2).wrapping_add(w.0.wrapping_add(v.1).wrapping_mul(K0)),
    );
    mix(r.wrapping_mul(K0).wrapping_add(v.1)).wrapping_mul(K2)
}

/// What the main loop carries from one 64-byte block to the next.
pub struct Lanes {
    pub x: u64,
    pub y: u64,
    pub z: u64,
    pub v: (u64, u64),
    pub w: (u64, u64),
}

pub open spec fn first_lanes(s: Seq<u8>) -> Lanes {
    let n = s.len() as int;
    let x = le64(s, n - 40);
    let y = le64(s, n - 16).wrapping_add(le64(s, n - 56));
    let z = fold128(le64(s, n - 48).wrapping_add(n as u64), le64(s, n - 24));
    Lanes {
        x: x.wrapping_mul(K1).wrapping_add(le64(s, 0)),
        y,
        z,
        v: stir_at(s, n - 64, n as u64, z),
        w: stir_at(s, n - 32, y.wrapping_add(K1), x),
    }
}

/// The lanes after the block that starts at byte `i`.
pub open spec fn next_lanes(s: Seq<u8>, i: int, l: Lanes) -> Lanes {
    let x = rot(
        l.x.wrapping_add(l.y).wrapping_add(l.v.0).wrapping_add(le64(s, i + 8)),
        37,
    ).wrapping_mul(K1) ^ l.w.1;
    let y = rot(
        l.y.wrapping_add(l.v.1).wrapping_add(le64(s, i + 48)),
        42,
    ).wrapping_mul(K1).wrapping_add(l.v.0).wrapping_add(le64(s, i + 40));
    let z = rot(l.z.wrapping_add(l.w.0), 33).wrapping_mul(K1);
    Lanes {
        x: z,
        y,
        z: x,
        v: stir_at(s, i, l.v.1.wrapping_mul(K1), x.wrapping_add(l.w.0)),
        w: stir_at(s, i + 32, z.wrapping_add(l.w.1), y.wrapping_add(le64(s, i + 16))),
    }
}

/// The lanes after the first `blocks` blocks.
pub open spec fn lanes_after(s: Seq<u8>, blocks: nat) -> Lanes
    decreases blocks,
{
    if blocks == 0 {
        first_lanes(s)
    } else {
        next_lanes(s, 64 * (blocks - 1), lanes_after(s, (blocks - 1) as nat))
    }
}

pub open spec fn drain(l: Lanes) -> u64 {
    fold128(
        fold128(l.v.0, l.w.0).wrapping_add(mix(l.y).wrapping_mul(K1)).wrapping_add(l.z),
        fold128(l.v.1, l.w.1).wrapping_add(l.x),
    )
}

/// The archive hash of `s`. The main loop covers every whole block before the
/// last byte, so the tail of a longer input is read twice.
pub open spec fn city_hash(s: Seq<u8>) -> u64 {
    if s.len() <= 16 {
        short_hash(s)
    } else if s.len() <= 32 {
        medium_hash(s)
    } else if s.len() <= 64 {
        long_hash(s)
    } else {
        drain(lanes_after(s, ((s.len() - 1) / 64) as nat))
    }
}

pub fn fetch32(s: &[u8], i: usize) -> (r: u32)
    requires
        i + 4 <= s.len(),
    ensures
        r == le32(s@, i as int),
{
    s[i] as u32 + 0x100 * (s[i + 1] as u32) + 0x1_0000 * (s[i + 2] as u32) + 0x100_0000 * (s[i
        + 3] as u32)
}

pub fn fetch64(s: &[u8], i: usize) -> (r: u64)
    requires
        i + 8 <= s.len(),
    ensures
        r == le64(s@, i as int),
{
    fetch32(s, i) as u64 + 0x1_0000_0000 * (fetch32(s, i + 4) as u64)
}

pub fn rotate(val: u64, shift: u32) -> (r: u64)
    requires
        shift < 64,
    ensures
        r == (if shift == 0 {
            val
        } else {
            rot(val, shift as int)
        }),
{
    if shift == 0 {
        val
    } else {
        (val >> shift) | (val << (64 - shift))
    }
}

pub fn rotate_by_at_least_1(val: u64, shift: u32) -> (r: u64)
    requires
        1 <= shift < 64,
    ensures
        r == rot(val, shift as int),
{
    (val >> shift) | (val << (64 - shift))
}

pub fn shift_mix(val: u64) -> (r: u64)
    ensures
        r == mix(val),
{
    val ^ (val >> 47)
}

pub fn hash128_to_64(lo: u64, hi: u64) -> (r: u64)
    ensures
        r == fold128(lo, hi),
{
    let a: u64 = shift_mix((lo ^ hi).wrapping_mul(KMUL));
    let b: u64 = shift_mix((hi ^ a).wrapping_mul(KMUL));
    b.wrapping_mul(KMUL)
}

pub fn hash_len16(u: u64, v: u64) -> (r: u64)
    ensures
        r == fold128(u, v),
{
    hash128_to_64(u, v)
}

pub fn hash_len0to16(s: &[u8]) -> (r: u64)
    requires
        s@.len() <= 16,
    ensures
        r == short_hash(s@),
{
    let n: usize = s.len();
    if n > 8 {
        let a: u64 = fetch64(s, 0);
        let b: u64 = fetch64(s, n - 8);
        return hash_len16(a, rotate_by_at_least_1(b.wrapping_add(n as u64), n as u32)) ^ b;
    }
    if n >= 4 {
        let a: u64 = fetch32(s, 0) as u64;
        return hash_len16((n as u64).wrapping_add(a << 3u32), fetch32(s, n - 4) as u64);
    }
    if n > 0 {
        let y: u64 = (s[0] as u64).wrapping_add((s[n / 2] as u64) << 8u32);
        let z: u64 = (n as u64).wrapping_add((s[n - 1] as u64) << 2u32);
        return shift_mix(y.wrapping_mul(K2) ^ z.wrapping_mul(K3)).wrapping_mul(K2);
    }
    K2
}

pub fn hash_len17to32(s: &[u8]) -> (r: u64)
    requires
        17 <= s@.len() <= 32,
    ensures
        r == medium_hash(s@),
{
    let n: usize = s.len();
    let a: u64 = fetch64(s, 0).wrapping_mul(K1);
    let b: u64 = fetch64(s, 8);
    let c: u64 = fetch64(s, n - 8).wrapping_mul(K2);
    let d: u64 = fetch64(s, n - 16).wrapping_mul(K0);
    hash_len16(
        rotate(a.wrapping_sub(b), 43).wrapping_add(rotate(c, 30)).wrapping_add(d),
        a.wrapping_add(rotate(b ^ K3, 20)).wrapping_sub(c).wrapping_add(n as u64),
    )
}

pub fn weak_hash32_seeds(w: u64, x: u64, y: u64, z: u64, a: u64, b: u64) -> (r: (u64, u64))
    ensures
        r == stir(w, x, y, z, a, b),
{
    let c: u64 = a.wrapping_add(w);
    let b1: u64 = rotate(b.wrapping_add(c).wrapping_add(z), 21);
    let a2: u64 = c.wrapping_add(x).wrapping_add(y);
    let b2: u64 = b1.wrapping_add(rotate(a2, 44));
    (a2.wrapping_add(z), b2.wrapping_add(c))
}

pub fn weak_hash32(s: &[u8], i: usize, a: u64, b: u64) -> (r: (u64, u64))
    requires
        i + 32 <= s.len(),
    ensures
        r == stir_at(s@, i as int, a, b),
{
    weak_hash32_seeds(
        fetch64(s, i),
        fetch64(s, i + 8),
        fetch64(s, i + 16),
        fetch64(s, i + 24),
        a,
        b,
    )
}

fn half_of(a: u64, p: u64, q: u64, z: u64) -> (r: (u64, u64))
    ensures
        r == half(a, p, q, z),
{
    let a1: u64 = a.wrapping_add(p);
    let a2: u64 = a1.wrapping_add(q);
    let c: u64 = rotate(a, 37).wrapping_add(rotate(a1, 7));
    (
        a2.wrapping_add(z),
        rotate(a.wrapping_add(z), 52).wrapping_add(rotate(a2, 31)).wrapping_add(c),
    )
}

pub fn hash_len33to64(s: &[u8]) -> (r: u64)
    requires
        33 <= s@.len() <= 64,
    ensures
        r == long_hash(s@),
{
    let n: usize = s.len();
    let a: u64 = fetch64(s, 0).wrapping_add(
        (n as u64).wrapping_add(fetch64(s, n - 16)).wrapping_mul(K0),
    );
    let (vf, vs) = half_of(a, fetch64(s, 8), fetch64(s, 16), fetch64(s, 24));
    let b: u64 = fetch64(s, 16).wrapping_add(fetch64(s, n - 32));
    let (wf, ws) = half_of(b, fetch64(s, n - 24), fetch64(s, n - 16), fetch64(s, n - 8));
    let r: u64 = shift_mix(
        vf.wrapping_add(ws).wrapping_mul(K2).wrapping_add(wf.wrapping_add(vs).wrapping_mul(K0)),
    );
    shift_mix(r.wrapping_mul(K0).wrapping_add(vs)).wrapping_mul(K2)
}

/// CityHash64 as the archives use it.
pub fn city_hash64(data: &[u8]) -> (r: u64)
    ensures
        r == city_hash(data@),
{
    let n: usize = data.len();
    if n <= 32 {
        return if n <= 16 {
            hash_len0to16(data)
        } else {
            hash_len17to32(data)
        };
    }
    if n <= 64 {
        return hash_len33to64(data);
    }
    let s = data;
    let x0: u64 = fetch64(s, n - 40);
    let y0: u64 = fetch64(s, n - 16).wrapping_add(fetch64(s, n - 56));
    let z0: u64 = hash_len16(fetch64(s, n - 48).wrapping_add(n as u64), fetch64(s, n - 24));
    let mut l = Lanes {
        x: x0.wrapping_mul(K1).wrapping_add(fetch64(s, 0)),
        y: y0,
        z: z0,
        v: weak_hash32(s, n - 64, n as u64, z0),
        w: weak_hash32(s, n - 32, y0.wrapping_add(K1), x0),
    };
    let blocks: usize = (n - 1) / 64;
    let mut k: usize = 0;
    while k < blocks
        invariant
            k <= blocks,
            blocks == (n - 1) / 64,
            n == s@.len(),
            n > 64,
            l == lanes_after(s@, k as nat),
        decreases blocks - k,
    {
        let i: usize = 64 * k;
        let x: u64 = rotate(
            l.x.wrapping_add(l.y).wrapping_add(l.v.0).wrapping_add(fetch64(s, i + 8)),
            37,
        ).wrapping_mul(K1) ^ l.w.1;
        let y: u64 = rotate(
            l.y.wrapping_add(l.v.1).wrapping_add(fetch64(s, i + 48)),
            42,
        ).wrapping_mul(K1).wrapping_add(l.v.0).wrapping_add(fetch64(s, i + 40));
        let z: u64 = rotate(l.z.wrapping_add(l.w.0), 33).wrapping_mul(K1);
        l =
        Lanes {
            x: z,
            y,
            z: x,
            v: weak_hash32(s, i, l.v.1.wrapping_mul(K1), x.wrapping_add(l.w.0)),
            w: weak_hash32(
                s,
                i + 32,
                z.wrapping_add(l.w.1),
                y.wrapping_add(fetch64(s, i + 16)),
            ),
        };
        k = k + 1;
    }
    hash_len16(
        hash_len16(l.v.0, l.w.0).wrapping_add(shift_mix(l.y).wrapping_mul(K1)).wrapping_add(l.z),
        hash_len16(l.v.1, l.w.1).wrapping_add(l.x),
    )
}

} // verus!
