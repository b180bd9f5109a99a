use vstd::prelude::*;

use std::io::Read;
use std::io::Write;

verus! {

/// The compressed stream that the fixed-default-level compressor produces
/// for the given bytes. At a fixed level the compressor is a deterministic
/// function of its input.
pub uninterp spec fn zlib_of(data: Seq<u8>) -> Seq<u8>;

/// What decompression yields for the given stream: the original bytes for
/// a well-formed stream, nothing for a corrupt or truncated one.
pub uninterp spec fn inflate_of(data: Seq<u8>) -> Option<Seq<u8>>;

/// Relies on flate2's `ZlibEncoder`: compression at the fixed default
/// level is a deterministic function of the input, and `ZlibDecoder`
/// recovers exactly the input from its output. The sink is a `Vec`, whose
/// writes cannot fail.
#[verifier::external_body]
pub(crate) fn deflate(data: &[u8]) -> (r: Vec<u8>)
    ensures
        r@ == zlib_of(data@),
        inflate_of(r@) == Some(data@),
{
    let mut encoder = flate2::write::ZlibEncoder::new(Vec::new(), flate2::Compression::default());
    encoder.write_all(data).expect("writing to a Vec cannot fail");
    encoder.finish().expect("writing to a Vec cannot fail")
}

/// Relies on flate2's read-side `ZlibDecoder`: decompression is a
/// deterministic function of the input, yields the original bytes of a
/// well-formed stream, and rejects corrupt or truncated streams (bad
/// block header, checksum mismatch, early end of input) instead of
/// truncating silently. The empty stream in particular is truncated and
/// is rejected.
#[verifier::external_body]
pub(crate) fn inflate(data: &[u8]) -> (r: Result<Vec<u8>, ()>)
    ensures
        match r {
            Ok(d) => inflate_of(data@) == Some(d@),
            Err(_) => inflate_of(data@) is None,
        },
        data@.len() == 0 ==> r is Err,
{
    let mut z = flate2::read::ZlibDecoder::new(data);
    let mut out = Vec::new();
    match Read::read_to_end(&mut z, &mut out) {
        Ok(_) => Ok(out),
        Err(_) => Err(()),
    }
}

} // verus!
