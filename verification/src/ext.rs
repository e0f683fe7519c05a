//! The store's few calls into outside code, each behind a contract that
//! states no more than the callee's own source and documentation give.
use vstd::prelude::*;
use vstd::utf8::encode_utf8;
use vstd::utf8::valid_utf8;
use sha1::Digest;
use std::io::Read;
use std::io::Write;

verus! {

/// The 160-bit digest of a byte sequence, as twenty bytes.
pub uninterp spec fn sha1_of(data: Seq<u8>) -> Seq<u8>;

/// The zlib-compressed form of a byte sequence at the highest deflate
/// level.
pub uninterp spec fn deflate_of(data: Seq<u8>) -> Seq<u8>;

/// What decompressing a byte sequence yields: the decompressed bytes, or
/// nothing when the sequence is not a zlib stream.
pub uninterp spec fn inflate_of(data: Seq<u8>) -> Option<Seq<u8>>;

/// Relies on sha1::Sha1 (through the Digest trait): the SHA-1 digest is a
/// function of the input bytes alone and is twenty bytes long.
#[verifier::external_body]
pub(crate) fn sha1_digest(data: &[u8]) -> (r: Vec<u8>)
    ensures
        r@ == sha1_of(data@),
        r@.len() == 20,
{
    let digest = sha1::Sha1::digest(data);
    digest.to_vec()
}

/// Relies on flate2's ZlibEncoder: compression at a fixed level is a
/// function of the input bytes alone, and its ZlibDecoder recovers exactly
/// the bytes that were compressed.  Writing into a plain vector cannot
/// fail.
#[verifier::external_body]
pub(crate) fn zlib_compress(data: &[u8]) -> (r: Vec<u8>)
    ensures
        r@ == deflate_of(data@),
        inflate_of(r@) == Some(data@),
{
    let mut encoder = flate2::write::ZlibEncoder::new(Vec::new(), flate2::Compression::new(9));
    encoder.write_all(data).expect("writing into a vector cannot fail");
    encoder.finish().expect("writing into a vector cannot fail")
}

/// Relies on flate2's ZlibDecoder: decompression is a function of the
/// input bytes alone; a malformed stream is reported as an error.
#[verifier::external_body]
pub(crate) fn zlib_decompress(data: &[u8]) -> (r: Option<Vec<u8>>)
    ensures
        match r {
            Some(v) => inflate_of(data@) == Some(v@),
            None => inflate_of(data@) is None,
        },
{
    let mut decoder = flate2::read::ZlibDecoder::new(data);
    let mut out: Vec<u8> = Vec::new();
    match decoder.read_to_end(&mut out) {
        Ok(_) => Some(out),
        Err(_) => None,
    }
}

/// Relies on String::from_utf8: it succeeds exactly on valid UTF-8 input,
/// and the returned string's bytes are the input.
#[verifier::external_body]
pub(crate) fn string_from_utf8(bytes: Vec<u8>) -> (r: Option<String>)
    ensures
        match r {
            Some(s) => valid_utf8(bytes@) && encode_utf8(s@) == bytes@,
            None => !valid_utf8(bytes@),
        },
{
    match String::from_utf8(bytes) {
        Ok(s) => Some(s),
        Err(_) => None,
    }
}

} // verus!
