//! The two computations the reader takes from outside crates: zlib
//! inflation (`flate2`) and SHA-1 (`sha1`).
use vstd::prelude::*;

use std::io::Read;

use sha1::Digest;

verus! {

/// What `flate2`'s `ZlibDecoder` yields for the zlib stream at the start of
/// `compressed` when at most `limit` bytes are read from it (`Read::take`):
/// the inflated bytes, or the text of the error it reports.
pub uninterp spec fn zlib_decompressed(compressed: Seq<u8>, limit: nat) -> Result<Seq<u8>, Seq<char>>;

/// `ZlibDecoder::new(compressed).take(limit).read_to_end(..)`: the inflated
/// bytes, never more than `limit` of them, or the error's text (`to_string`).
#[verifier::external_body]
pub(crate) fn zlib_inflate(compressed: &[u8], limit: u64) -> (r: Result<Vec<u8>, String>)
    ensures
        r matches Ok(v) ==> zlib_decompressed(compressed@, limit as nat) matches Ok(w) && w == v@
            && v@.len() <= limit,
        r matches Err(m) ==> zlib_decompressed(compressed@, limit as nat) matches Err(t) && t == m@,
{
    let mut out = Vec::new();
    match flate2::read::ZlibDecoder::new(compressed).take(limit).read_to_end(&mut out) {
        Ok(_) => Ok(out),
        Err(e) => Err(e.to_string()),
    }
}

/// The SHA-1 digest of a byte string, as the `sha1` crate computes it.
pub uninterp spec fn sha1_digest(data: Seq<u8>) -> Seq<u8>;

/// `Sha1::new()`, `update(head)`, `update(body)`, `finalize()`: the digest of
/// the two parts one after the other.
#[verifier::external_body]
pub(crate) fn sha1_of_parts(head: &[u8], body: &[u8]) -> (r: [u8; 20])
    ensures
        r@ == sha1_digest(head@ + body@),
{
    let mut h = sha1::Sha1::new();
    h.update(head);
    h.update(body);
    h.finalize().into()
}

} // verus!
