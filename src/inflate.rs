//! Decompression of zlib streams, backed by `flate2`.
use flate2::read::ZlibDecoder;
use std::io::Read;
use vstd::prelude::*;

verus! {

/// What a zlib stream inflates to, or `None` where it is not a valid stream.
pub uninterp spec fn zlib_inflated(data: Seq<u8>) -> Option<Seq<u8>>;

/// Relies on `flate2::read::ZlibDecoder` read to the end: it inflates the zlib
/// stream at the start of `data`, and fails where the stream is corrupt or cut
/// short; the outcome depends on the bytes alone.
#[verifier::external_body]
pub(crate) fn inflate(data: &[u8]) -> (r: Option<Vec<u8>>)
    ensures
        r is Some <==> zlib_inflated(data@) is Some,
        r is Some ==> r->0@ == zlib_inflated(data@)->0,
{
    let mut out = Vec::new();
    match ZlibDecoder::new(data).read_to_end(&mut out) {
        Ok(_) => Some(out),
        Err(_) => None,
    }
}

} // verus!
