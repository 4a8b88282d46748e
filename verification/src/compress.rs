//! Compression at rest. Objects are stored zlib-compressed; the compressor
//! is an outside library, so its input/output relation is named here and the
//! store's contracts are stated over those names.
use vstd::prelude::*;
use flate2::Compression;
use flate2::read::ZlibDecoder;
use flate2::write::ZlibEncoder;
use std::io::Read;
use std::io::Write;

verus! {

/// The zlib stream produced for `data` at the default compression level.
/// Uninterpreted: the output is a function of the input bytes alone.
pub uninterp spec fn deflate_of(data: Seq<u8>) -> Seq<u8>;

/// The result of zlib decompression of `data`: the decoded bytes, or `None`
/// when `data` is not a valid zlib stream.
pub uninterp spec fn inflate_of(data: Seq<u8>) -> Option<Seq<u8>>;

/// Relies on flate2's `ZlibEncoder`: compression at a fixed level is a
/// function of the input bytes alone, and zlib is lossless, so decompressing
/// the output yields the input back. Writing into a `Vec` cannot fail.
#[verifier::external_body]
pub(crate) fn zlib_compress(data: &Vec<u8>) -> (r: Vec<u8>)
    ensures
        r@ == deflate_of(data@),
        inflate_of(r@) == Some(data@),
{
    let mut enc = ZlibEncoder::new(Vec::new(), Compression::default());
    enc.write_all(data).expect("writing to a Vec cannot fail");
    enc.finish().expect("writing to a Vec cannot fail")
}

/// Relies on flate2's `ZlibDecoder`: decoding is a function of the input
/// bytes alone; it yields the decoded bytes for a valid zlib stream and an
/// error for any other input.
#[verifier::external_body]
pub(crate) fn zlib_decompress(data: &Vec<u8>) -> (r: Option<Vec<u8>>)
    ensures
        match r {
            Some(out) => inflate_of(data@) == Some(out@),
            None => inflate_of(data@) is None,
        },
{
    let mut dec = ZlibDecoder::new(data.as_slice());
    let mut out = Vec::new();
    match dec.read_to_end(&mut out) {
        Ok(_) => Some(out),
        Err(_) => None,
    }
}

} // verus!
