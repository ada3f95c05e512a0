//! The two repairs made to DDS textures on their way out: a header that older
//! readers know, and an alpha channel that does not make solid parts
//! see-through. Neither touches the colour.

use crate::bytes::{le32, word_at};
use crate::harvest::{four, has_four};
use vstd::prelude::*;

verus! {

pub open spec fn is_dds(b: Seq<u8>) -> bool {
    four(b, 0, 0x44, 0x44, 0x53, 0x20)
}

// --------------------------------------------------------------- header ---

/// The four-letter code of the block format with a DXGI number. Formats that the
/// old header has no code for have none.
pub open spec fn legacy_code(dxgi: u32) -> Option<Seq<u8>> {
    if 70 <= dxgi <= 72 {
        Some(seq![0x44u8, 0x58, 0x54, 0x31])
    } else if 73 <= dxgi <= 75 {
        Some(seq![0x44u8, 0x58, 0x54, 0x33])
    } else if 76 <= dxgi <= 78 {
        Some(seq![0x44u8, 0x58, 0x54, 0x35])
    } else if 79 <= dxgi <= 80 {
        Some(seq![0x41u8, 0x54, 0x49, 0x31])
    } else if 82 <= dxgi <= 83 {
        Some(seq![0x41u8, 0x54, 0x49, 0x32])
    } else {
        None
    }
}

/// The image behind a DX10 header, under the old one: the extension of twenty
/// bytes is dropped and the code says what it said.
pub open spec fn under_old_header(b: Seq<u8>) -> Option<Seq<u8>> {
    if b.len() < 148 || !is_dds(b) || !four(b, 84, 0x44, 0x58, 0x31, 0x30) {
        None
    } else {
        match legacy_code(le32(b, 128)) {
            Some(c) => Some(b.take(84) + c + b.subrange(88, 128) + b.skip(148)),
            None => None,
        }
    }
}

fn code_of(dxgi: u32) -> (r: Option<(u8, u8, u8, u8)>)
    ensures
        match r {
            Some(c) => legacy_code(dxgi) == Some(seq![c.0, c.1, c.2, c.3]),
            None => legacy_code(dxgi) is None,
        },
{
    if 70 <= dxgi && dxgi <= 72 {
        Some((0x44, 0x58, 0x54, 0x31))
    } else if 73 <= dxgi && dxgi <= 75 {
        Some((0x44, 0x58, 0x54, 0x33))
    } else if 76 <= dxgi && dxgi <= 78 {
        Some((0x44, 0x58, 0x54, 0x35))
    } else if 79 <= dxgi && dxgi <= 80 {
        Some((0x41, 0x54, 0x49, 0x31))
    } else if 82 <= dxgi && dxgi <= 83 {
        Some((0x41, 0x54, 0x49, 0x32))
    } else {
        None
    }
}

/// Rewrites a DX10-header DDS as the equivalent legacy FourCC one. The block
/// data is identical; only the header differs. Formats with no legacy equivalent
/// are left alone.
pub fn dds_from_dx10(bytes: &[u8]) -> (r: Option<Vec<u8>>)
    ensures
        match r {
            Some(v) => under_old_header(bytes@) == Some(v@),
            None => under_old_header(bytes@) is None,
        },
{
    if bytes.len() < 148 || !has_four(bytes, 0, 0x44, 0x44, 0x53, 0x20) || !has_four(
        bytes,
        84,
        0x44,
        0x58,
        0x31,
        0x30,
    ) {
        return None;
    }
    match code_of(word_at(bytes, 128, 0)) {
        None => None,
        Some(c) => {
            let n: usize = bytes.len();
            let mut out: Vec<u8> = Vec::new();
            out.extend_from_slice(vstd::slice::slice_subrange(bytes, 0, 84));
            out.push(c.0);
            out.push(c.1);
            out.push(c.2);
            out.push(c.3);
            out.extend_from_slice(vstd::slice::slice_subrange(bytes, 88, 128));
            out.extend_from_slice(vstd::slice::slice_subrange(bytes, 148, n));
            assert(out@ =~= bytes@.take(84) + seq![c.0, c.1, c.2, c.3] + bytes@.subrange(88, 128)
                + bytes@.skip(148));
            Some(out)
        },
    }
}

/// What the old header describes is what stood behind the new one, and the image
/// needs no second rewriting.
pub proof fn blocks_stay_as_they_are(b: Seq<u8>)
    ensures
        under_old_header(b) matches Some(v) ==> v.len() == b.len() - 20 && v.skip(128) == b.skip(
            148,
        ) && is_dds(v) && under_old_header(v) is None,
{
    if let Some(v) = under_old_header(b) {
        let c = legacy_code(le32(b, 128))->0;
        assert(v.skip(128) =~= b.skip(148));
        assert(v[0] == b[0] && v[1] == b[1] && v[2] == b[2] && v[3] == b[3]);
        assert(v[84] == c[0] && v[85] == c[1] && v[86] == c[2] && v[87] == c[3]);
    }
}

// ---------------------------------------------------------------- alpha ---

/// How a DDS stores its alpha, as far as it can be overwritten: interpolated or
/// explicit in blocks of sixteen bytes, or as one byte of each pixel.
pub enum Alpha {
    Interpolated,
    Explicit,
    Byte(usize),
    Nowhere,
}

/// The byte of a pixel that holds the lowest bit of a mask.
pub open spec fn mask_byte(b: Seq<u8>) -> usize {
    if b[104] != 0 {
        0
    } else if b[105] != 0 {
        1
    } else if b[106] != 0 {
        2
    } else {
        3
    }
}

/// Where the alpha of an image is. BC1 has none worth the name; an uncompressed
/// image has one if its pixels have 32 bits and a mask says so.
pub open spec fn alpha_in(b: Seq<u8>) -> Alpha {
    if b.len() < 128 || !is_dds(b) {
        Alpha::Nowhere
    } else if four(b, 84, 0x44, 0x58, 0x54, 0x35) || four(b, 84, 0x44, 0x58, 0x54, 0x34) {
        Alpha::Interpolated
    } else if four(b, 84, 0x44, 0x58, 0x54, 0x33) || four(b, 84, 0x44, 0x58, 0x54, 0x32) {
        Alpha::Explicit
    } else if four(b, 84, 0x44, 0x58, 0x54, 0x31) {
        Alpha::Nowhere
    } else if le32(b, 88) == 32 && !(b[104] == 0 && b[105] == 0 && b[106] == 0 && b[107] == 0) {
        Alpha::Byte(mask_byte(b))
    } else {
        Alpha::Nowhere
    }
}

/// Whether byte `i` of the data lies in a unit of `n` bytes that is all there.
pub open spec fn in_whole(i: int, n: int, len: int) -> bool {
    128 <= i < len && 128 + n * ((i - 128) / n) + n <= len
}

/// Byte `i` of the image, opaque. Two equal end points of 255 with all indices
/// zero select 255 for every texel.
pub open spec fn opaque_byte(b: Seq<u8>, a: Alpha, i: int) -> u8 {
    match a {
        Alpha::Interpolated => if in_whole(i, 16, b.len() as int) && (i - 128) % 16 < 2 {
            0xff
        } else if in_whole(i, 16, b.len() as int) && (i - 128) % 16 < 8 {
            0
        } else {
            b[i]
        },
        Alpha::Explicit => if in_whole(i, 16, b.len() as int) && (i - 128) % 16 < 8 {
            0xff
        } else {
            b[i]
        },
        Alpha::Byte(k) => if in_whole(i, 4, b.len() as int) && (i - 128) % 4 == k {
            0xff
        } else {
            b[i]
        },
        Alpha::Nowhere => b[i],
    }
}

/// The image with its alpha forced opaque.
pub open spec fn made_opaque(b: Seq<u8>) -> Seq<u8> {
    Seq::new(b.len(), |i: int| opaque_byte(b, alpha_in(b), i))
}

fn find_alpha(b: &[u8]) -> (r: Alpha)
    ensures
        r == alpha_in(b@),
{
    if b.len() < 128 || !has_four(b, 0, 0x44, 0x44, 0x53, 0x20) {
        Alpha::Nowhere
    } else if has_four(b, 84, 0x44, 0x58, 0x54, 0x35) || has_four(b, 84, 0x44, 0x58, 0x54, 0x34) {
        Alpha::Interpolated
    } else if has_four(b, 84, 0x44, 0x58, 0x54, 0x33) || has_four(b, 84, 0x44, 0x58, 0x54, 0x32) {
        Alpha::Explicit
    } else if has_four(b, 84, 0x44, 0x58, 0x54, 0x31) {
        Alpha::Nowhere
    } else if word_at(b, 88, 0) == 32 {
        if b[104] != 0 {
            Alpha::Byte(0)
        } else if b[105] != 0 {
            Alpha::Byte(1)
        } else if b[106] != 0 {
            Alpha::Byte(2)
        } else if b[107] != 0 {
            Alpha::Byte(3)
        } else {
            Alpha::Nowhere
        }
    } else {
        Alpha::Nowhere
    }
}

/// Forces a DDS fully opaque, in place, without touching its colour; says
/// whether there was any alpha to force.
///
/// A reader decides that a texture is transparent from the file. For every
/// shader but the glass family that channel is a specular or reflection mask, so
/// honouring it turns solid bodywork see-through.
pub fn dds_force_opaque(bytes: &mut Vec<u8>) -> (r: bool)
    ensures
        r == !(alpha_in(old(bytes)@) is Nowhere),
        final(bytes)@ == made_opaque(old(bytes)@),
{
    let ghost was = bytes@;
    let a = find_alpha(bytes.as_slice());
    match a {
        Alpha::Nowhere => {
            assert(bytes@ =~= made_opaque(was));
            return false;
        },
        _ => {},
    }
    let n: usize = bytes.len();
    let unit: usize = match a {
        Alpha::Byte(_) => 4,
        _ => 16,
    };
    let mut i: usize = 128;
    while i < n
        invariant
            128 <= i <= n,
            n == was.len(),
            bytes@.len() == n,
            a == alpha_in(was),
            !(a is Nowhere),
            unit == (if a is Byte {
                4int
            } else {
                16
            }),
            forall|j: int| 0 <= j < i ==> bytes@[j] == opaque_byte(was, a, j),
            forall|j: int| i <= j < n ==> bytes@[j] == was[j],
        decreases n - i,
    {
        let k: usize = (i - 128) % unit;
        let start: usize = i - k;
        proof {
            if a is Byte {
                assert(start == 128 + 4 * ((i - 128) / 4));
                assert(k == (i - 128) % 4);
            } else {
                assert(start == 128 + 16 * ((i - 128) / 16));
                assert(k == (i - 128) % 16);
            }
        }
        if unit <= n - start {
            match a {
                Alpha::Interpolated => {
                    if k < 2 {
                        bytes.set(i, 0xff);
                    } else if k < 8 {
                        bytes.set(i, 0);
                    }
                },
                Alpha::Explicit => {
                    if k < 8 {
                        bytes.set(i, 0xff);
                    }
                },
                Alpha::Byte(s) => {
                    if k == s {
                        bytes.set(i, 0xff);
                    }
                },
                Alpha::Nowhere => {},
            }
        }
        i = i + 1;
    }
    assert(bytes@ =~= made_opaque(was));
    true
}

/// Forcing an image opaque keeps the header and its length, and doing it again
/// changes nothing.
pub proof fn opaque_images_stay_opaque(b: Seq<u8>)
    ensures
        made_opaque(b).len() == b.len(),
        b.len() >= 128 ==> made_opaque(b).take(128) == b.take(128),
        made_opaque(made_opaque(b)) == made_opaque(b),
{
    let r = made_opaque(b);
    if b.len() >= 128 {
        assert(r.take(128) =~= b.take(128));
        assert(forall|i: int| 0 <= i < 128 ==> r[i] == b[i]);
        assert(le32(r, 88) == le32(b, 88));
    } else {
        assert(r =~= b);
    }
    assert(alpha_in(r) == alpha_in(b));
    assert(made_opaque(r) =~= r);
}

/// Forcing a block-compressed image opaque leaves the colour half of each block
/// as it is.
pub proof fn colour_blocks_are_kept(b: Seq<u8>, i: int)
    requires
        128 <= i < b.len(),
        alpha_in(b) is Interpolated || alpha_in(b) is Explicit,
        (i - 128) % 16 >= 8,
    ensures
        made_opaque(b)[i] == b[i],
{
}

/// Images in the block formats that came with the new header have no old one, and
/// are left alone.
pub proof fn newer_blocks_are_left_alone(b: Seq<u8>)
    requires
        94 <= le32(b, 128) <= 99,
    ensures
        under_old_header(b) is None,
{
}

/// Forcing an uncompressed image opaque leaves the other bytes of each pixel as
/// they are.
pub proof fn colour_bytes_are_kept(b: Seq<u8>, i: int)
    requires
        128 <= i < b.len(),
        alpha_in(b) matches Alpha::Byte(k) && (i - 128) % 4 != k,
    ensures
        made_opaque(b)[i] == b[i],
{
}

} // verus!
