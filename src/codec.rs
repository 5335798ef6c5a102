//! The compressor and the digest that the store relies on.

use flate2::read::ZlibDecoder;
use flate2::write::ZlibEncoder;
use flate2::Compression;
use sha1::{Digest, Sha1};
use std::io::{Read, Write};
use vstd::prelude::*;

verus! {

/// What zlib inflation yields from `b`: the bytes the stream holds, or
/// nothing where `b` is no complete zlib stream.
pub uninterp spec fn inflated(b: Seq<u8>) -> Option<Seq<u8>>;

/// The SHA-1 digest of `b`.
pub uninterp spec fn sha1_of(b: Seq<u8>) -> Seq<u8>;

/// Relies on flate2's `ZlibDecoder` read to the end: the outcome depends
/// on the input bytes alone.
#[verifier::external_body]
pub(crate) fn zlib_decompress(bytes: &[u8]) -> (r: Option<Vec<u8>>)
    ensures
        match r {
            Some(v) => inflated(bytes@) == Some(v@),
            None => inflated(bytes@) is None,
        },
{
    let mut z = ZlibDecoder::new(bytes);
    let mut buf: Vec<u8> = Vec::new();
    match z.read_to_end(&mut buf) {
        Ok(_) => Some(buf),
        Err(_) => None,
    }
}

/// Relies on flate2's `ZlibEncoder` at the default level, writing into a
/// `Vec`: it succeeds (the `Vec` never refuses a write, and the default
/// parameters are valid), and the stream it writes inflates back to its input.
#[verifier::external_body]
pub(crate) fn zlib_compress(bytes: &[u8]) -> (r: Option<Vec<u8>>)
    ensures
        r is Some,
        r matches Some(v) ==> inflated(v@) == Some(bytes@),
{
    let mut e = ZlibEncoder::new(Vec::new(), Compression::default());
    if e.write_all(bytes).is_err() {
        return None;
    }
    e.finish().ok()
}

/// Relies on sha1's `Sha1::digest`: a twenty-byte digest of the input.
#[verifier::external_body]
pub(crate) fn sha1_digest(bytes: &[u8]) -> (r: Vec<u8>)
    ensures
        r@ == sha1_of(bytes@),
        r@.len() == 20,
{
    Sha1::digest(bytes).to_vec()
}

} // verus!
