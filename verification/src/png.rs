//! A picture of one colour, to stand in for a texture that is not there.

use crate::packing::{gives_back, zlib_best, zlib_deflate_best};
use vstd::prelude::*;

verus! {

// ---------------------------------------------------------------- crc32 ---

/// `n` steps of dividing by the polynomial of CRC-32, bit by bit.
pub open spec fn divided(c: u32, n: nat) -> u32
    decreases n,
{
    if n == 0 {
        c
    } else {
        let p = divided(c, (n - 1) as nat);
        if p & 1 != 0 {
            0xedb8_8320 ^ (p >> 1)
        } else {
            p >> 1
        }
    }
}

/// The remainder of CRC-32 behind some bytes.
pub open spec fn remainder(d: Seq<u8>) -> u32
    decreases d.len(),
{
    if d.len() == 0 {
        0xffff_ffff
    } else {
        let c = remainder(d.drop_last());
        divided((c ^ d.last() as u32) & 0xff, 8) ^ (c >> 8)
    }
}

pub open spec fn crc(d: Seq<u8>) -> u32 {
    remainder(d) ^ 0xffff_ffff
}

fn crc_table() -> (r: Vec<u32>)
    ensures
        r@.len() == 256,
        forall|i: int| 0 <= i < 256 ==> #[trigger] r@[i] == divided(i as u32, 8),
{
    let mut r: Vec<u32> = Vec::new();
    let mut i: u32 = 0;
    while i < 256
        invariant
            i <= 256,
            r@.len() == i,
            forall|k: int| 0 <= k < i ==> #[trigger] r@[k] == divided(k as u32, 8),
        decreases 256 - i,
    {
        let mut c: u32 = i;
        let mut n: u32 = 0;
        while n < 8
            invariant
                n <= 8,
                c == divided(i, n as nat),
            decreases 8 - n,
        {
            c = if c & 1 != 0 {
                0xedb8_8320 ^ (c >> 1)
            } else {
                c >> 1
            };
            n = n + 1;
        }
        r.push(c);
        i = i + 1;
    }
    r
}

pub fn crc32(data: &[u8]) -> (r: u32)
    ensures
        r == crc(data@),
{
    let table = crc_table();
    let mut c: u32 = 0xffff_ffff;
    let mut i: usize = 0;
    assert(data@.take(0) =~= Seq::<u8>::empty());
    while i < data.len()
        invariant
            i <= data@.len(),
            table@.len() == 256,
            forall|k: int| 0 <= k < 256 ==> #[trigger] table@[k] == divided(k as u32, 8),
            c == remainder(data@.take(i as int)),
        decreases data@.len() - i,
    {
        assert(data@.take(i + 1).drop_last() =~= data@.take(i as int));
        let x: u32 = c ^ data[i] as u32;
        let k: u32 = x & 0xff;
        assert(x & 0xff < 256) by (bit_vector);
        c = table[k as usize] ^ (c >> 8);
        i = i + 1;
    }
    assert(data@.take(i as int) =~= data@);
    c ^ 0xffff_ffff
}

// ------------------------------------------------------------------ png ---

/// Four bytes of a number, most significant first.
pub open spec fn be4(x: u32) -> Seq<u8> {
    seq![
        (x / 0x100_0000) as u8,
        (x / 0x1_0000 % 0x100) as u8,
        (x / 0x100 % 0x100) as u8,
        (x % 0x100) as u8,
    ]
}

fn push_be4(out: &mut Vec<u8>, x: u32)
    ensures
        final(out)@ == old(out)@ + be4(x),
{
    let ghost was = out@;
    out.push((x / 0x100_0000) as u8);
    out.push((x / 0x1_0000 % 0x100) as u8);
    out.push((x / 0x100 % 0x100) as u8);
    out.push((x % 0x100) as u8);
    assert(out@ =~= was + be4(x));
}

/// One chunk of a PNG: its length, its tag and body, and their checksum.
pub open spec fn chunk(tag: Seq<u8>, body: Seq<u8>) -> Seq<u8> {
    be4(body.len() as u32) + tag + body + be4(crc(tag + body))
}

fn push_chunk(out: &mut Vec<u8>, tag: &[u8], body: &[u8])
    ensures
        final(out)@ == old(out)@ + chunk(tag@, body@),
{
    let ghost was = out@;
    push_be4(out, body.len() as u32);
    let mut c: Vec<u8> = Vec::new();
    c.extend_from_slice(tag);
    c.extend_from_slice(body);
    assert(c@ =~= tag@ + body@);
    out.extend_from_slice(c.as_slice());
    push_be4(out, crc32(c.as_slice()));
    assert(out@ =~= was + chunk(tag@, body@));
}

/// The bytes of a row of pixels, with the filter that leads it.
pub open spec fn row_len(size: nat) -> int {
    (4 * size + 1) as int
}

/// The pixels of a grey square, row by row; each row is led by its filter, which
/// is none.
pub open spec fn grey(v: u8, size: nat) -> Seq<u8> {
    Seq::new(
        (size * row_len(size)) as nat,
        |i: int|
            if i % row_len(size) == 0 {
                0
            } else if (i % row_len(size)) % 4 == 0 {
                255
            } else {
                v
            },
    )
}

pub open spec fn header(size: u32) -> Seq<u8> {
    be4(size) + be4(size) + seq![8u8, 6, 0, 0, 0]
}

pub open spec fn png_of(size: u32, packed: Seq<u8>) -> Seq<u8> {
    seq![0x89u8, 0x50, 0x4e, 0x47, 0x0d, 0x0a, 0x1a, 0x0a] + chunk(
        seq![0x49u8, 0x48, 0x44, 0x52],
        header(size),
    ) + chunk(seq![0x49u8, 0x44, 0x41, 0x54], packed) + chunk(
        seq![0x49u8, 0x45, 0x4e, 0x44],
        Seq::empty(),
    )
}

fn grey_rows(v: u8, size: u32) -> (r: Vec<u8>)
    requires
        size <= 0x7fff,
    ensures
        r@ == grey(v, size as nat),
{
    let width: u32 = 4 * size + 1;
    assert(size * width <= 0x7fff * 0x1_fffd) by (nonlinear_arith)
        requires
            size <= 0x7fff,
            width <= 0x1_fffd,
    ;
    let total: u32 = size * width;
    let mut r: Vec<u8> = Vec::new();
    let mut i: u32 = 0;
    let ghost want = grey(v, size as nat);
    while i < total
        invariant
            i <= total,
            width == 4 * size + 1,
            size <= 0x7fff,
            want == grey(v, size as nat),
            want.len() == total,
            r@ =~= want.take(i as int),
        decreases total - i,
    {
        let k: u32 = i % width;
        let b: u8 = if k == 0 {
            0
        } else if k % 4 == 0 {
            255
        } else {
            v
        };
        assert(b == want[i as int]);
        r.push(b);
        i = i + 1;
    }
    assert(want.take(total as int) =~= want);
    r
}

/// Wraps packed pixels up as the PNG of a square with four bytes a pixel.
pub fn wrap_png(size: u32, packed: &[u8]) -> (r: Vec<u8>)
    ensures
        r@ == png_of(size, packed@),
{
    let mut ihdr: Vec<u8> = Vec::new();
    push_be4(&mut ihdr, size);
    push_be4(&mut ihdr, size);
    ihdr.push(8);
    ihdr.push(6);
    ihdr.push(0);
    ihdr.push(0);
    ihdr.push(0);
    assert(ihdr@ =~= header(size));
    let mut out: Vec<u8> = vec![0x89u8, 0x50, 0x4e, 0x47, 0x0d, 0x0a, 0x1a, 0x0a];
    assert(out@ =~= seq![0x89u8, 0x50, 0x4e, 0x47, 0x0d, 0x0a, 0x1a, 0x0a]);
    let a: Vec<u8> = vec![0x49u8, 0x48, 0x44, 0x52];
    assert(a@ =~= seq![0x49u8, 0x48, 0x44, 0x52]);
    push_chunk(&mut out, a.as_slice(), ihdr.as_slice());
    let b: Vec<u8> = vec![0x49u8, 0x44, 0x41, 0x54];
    assert(b@ =~= seq![0x49u8, 0x44, 0x41, 0x54]);
    push_chunk(&mut out, b.as_slice(), packed);
    let c: Vec<u8> = vec![0x49u8, 0x45, 0x4e, 0x44];
    assert(c@ =~= seq![0x49u8, 0x45, 0x4e, 0x44]);
    let none: Vec<u8> = Vec::new();
    assert(none@ =~= Seq::<u8>::empty());
    push_chunk(&mut out, c.as_slice(), none.as_slice());
    out
}

/// Minimal flat-colour PNG: a square of `size` pixels of the grey `v`.
pub fn flat_png(v: u8, size: u32) -> (r: Vec<u8>)
    requires
        size <= 0x7fff,
    ensures
        r@ == png_of(
            size,
            match zlib_best(grey(v, size as nat)) {
                Some(p) => p,
                None => Seq::empty(),
            },
        ),
        gives_back(zlib_best(grey(v, size as nat)), grey(v, size as nat)),
{
    let raw = grey_rows(v, size);
    let packed = match zlib_deflate_best(raw.as_slice()) {
        Some(p) => p,
        None => Vec::new(),
    };
    wrap_png(size, packed.as_slice())
}

} // verus!
