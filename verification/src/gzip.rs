//! Decompression of an uploaded payload.
//!
//! The payload of one upload field is a gzip stream. Decompression is
//! delegated to the flate2 crate behind a trusted wrapper; everything
//! downstream works on the decompressed bytes and is verified.

use vstd::prelude::*;

verus! {

/// What gzip decompression yields on a byte stream: `None` when the
/// stream is not valid gzip (wrong magic bytes, truncation, checksum
/// mismatch), otherwise the decompressed bytes. The outcome is a
/// function of the input bytes alone.
pub uninterp spec fn gunzip(s: Seq<u8>) -> Option<Seq<u8>>;

/// Relies on flate2's `read::GzDecoder`: reading it to the end yields
/// the decompressed bytes of the gzip stream, or an error when the input
/// is not valid gzip; the outcome depends on the input bytes alone.
#[verifier::external_body]
pub fn gzip_decompress(data: &Vec<u8>) -> (r: Option<Vec<u8>>)
    ensures
        r is Some <==> gunzip(data@) is Some,
        r is Some ==> r.unwrap()@ == gunzip(data@).unwrap(),
{
    let mut out: Vec<u8> = Vec::new();
    let mut dec = flate2::read::GzDecoder::new(data.as_slice());
    match std::io::Read::read_to_end(&mut dec, &mut out) {
        Ok(_) => Some(out),
        Err(_) => None,
    }
}

} // verus!
