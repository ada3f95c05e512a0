//! Compressed data. What the compressor does is named here, not modelled.

use std::io::{Read, Write};
use vstd::prelude::*;

verus! {

/// What `flate2`'s zlib decoder makes of some bytes: the data, or the text of
/// the error.
pub uninterp spec fn zlib_inflated(b: Seq<u8>) -> Result<Seq<u8>, Seq<char>>;

/// What `flate2`'s decoder for bare deflate streams makes of some bytes: the
/// data, or the text of the error.
pub uninterp spec fn deflate_inflated(b: Seq<u8>) -> Result<Seq<u8>, Seq<char>>;

/// A result by its views.
pub open spec fn outcome(r: Result<Vec<u8>, String>) -> Result<Seq<u8>, Seq<char>> {
    match r {
        Ok(v) => Ok(v@),
        Err(e) => Err(e@),
    }
}

/// `flate2::read::ZlibDecoder`, read to its end: what comes out, or the text of
/// the error, depends on the bytes alone.
#[verifier::external_body]
pub(crate) fn zlib_inflate(b: &[u8]) -> (r: Result<Vec<u8>, String>)
    ensures
        outcome(r) == zlib_inflated(b@),
{
    let mut out: Vec<u8> = Vec::new();
    match flate2::read::ZlibDecoder::new(b).read_to_end(&mut out) {
        Ok(_) => Ok(out),
        Err(e) => Err(e.to_string()),
    }
}

/// `flate2::read::DeflateDecoder`, read to its end: what comes out, or the text
/// of the error, depends on the bytes alone.
#[verifier::external_body]
pub(crate) fn deflate_inflate(b: &[u8]) -> (r: Result<Vec<u8>, String>)
    ensures
        outcome(r) == deflate_inflated(b@),
{
    let mut out: Vec<u8> = Vec::new();
    match flate2::read::DeflateDecoder::new(b).read_to_end(&mut out) {
        Ok(_) => Ok(out),
        Err(e) => Err(e.to_string()),
    }
}

/// What `flate2`'s zlib encoder makes of some bytes at its fastest setting, if
/// it succeeds.
pub uninterp spec fn zlib_fast(b: Seq<u8>) -> Option<Seq<u8>>;

/// `flate2::write::ZlibEncoder` at `Compression::fast`, over bytes in memory:
/// what comes out depends on the bytes alone, and the zlib decoder gives the
/// bytes back.
#[verifier::external_body]
pub(crate) fn zlib_deflate_fast(b: &[u8]) -> (r: Option<Vec<u8>>)
    ensures
        opt_bytes(r) == zlib_fast(b@),
        gives_back(opt_bytes(r), b@),
{
    let mut e = flate2::write::ZlibEncoder::new(Vec::new(), flate2::Compression::fast());
    match e.write_all(b) {
        Ok(_) => e.finish().ok(),
        Err(_) => None,
    }
}

/// What `flate2`'s zlib encoder makes of some bytes at its best setting, if it
/// succeeds.
pub uninterp spec fn zlib_best(b: Seq<u8>) -> Option<Seq<u8>>;

/// `flate2::write::ZlibEncoder` at `Compression::best`, over bytes in memory:
/// what comes out depends on the bytes alone, and the zlib decoder gives the
/// bytes back.
#[verifier::external_body]
pub(crate) fn zlib_deflate_best(b: &[u8]) -> (r: Option<Vec<u8>>)
    ensures
        opt_bytes(r) == zlib_best(b@),
        gives_back(opt_bytes(r), b@),
{
    let mut e = flate2::write::ZlibEncoder::new(Vec::new(), flate2::Compression::best());
    match e.write_all(b) {
        Ok(_) => e.finish().ok(),
        Err(_) => None,
    }
}

/// Whether packed bytes, if there are any, unpack to `b`.
pub open spec fn gives_back(packed: Option<Seq<u8>>, b: Seq<u8>) -> bool {
    match packed {
        Some(z) => zlib_inflated(z) == Ok::<Seq<u8>, Seq<char>>(b),
        None => true,
    }
}

pub open spec fn opt_bytes(o: Option<Vec<u8>>) -> Option<Seq<u8>> {
    match o {
        Some(v) => Some(v@),
        None => None,
    }
}

} // verus!
