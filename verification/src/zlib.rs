//! Zlib compression through the `flate2` crate.

use vstd::prelude::*;

verus! {

/// What a zlib decoder makes of `data`: the decompressed bytes, or `None`
/// where `data` is not a valid zlib stream.
pub uninterp spec fn zlib_inflate(data: Seq<u8>) -> Option<Seq<u8>>;

/// The zlib stream that `flate2` produces for `data` at the default level.
pub uninterp spec fn zlib_deflate(data: Seq<u8>) -> Seq<u8>;

/// Reads a whole zlib stream with `flate2::read::ZlibDecoder`. The claim:
/// the result depends on `data` alone, and is `Ok` with the decompressed
/// bytes exactly where `zlib_inflate` gives them.
#[verifier::external_body]
pub(crate) fn inflate(data: &[u8]) -> (r: Result<Vec<u8>, std::io::Error>)
    ensures
        match r {
            Ok(v) => zlib_inflate(data@) == Some(v@),
            Err(_) => zlib_inflate(data@) is None,
        },
{
    let mut decoder = flate2::read::ZlibDecoder::new(data);
    let mut out = Vec::new();
    std::io::Read::read_to_end(&mut decoder, &mut out).map(|_| out)
}

/// Compresses with `flate2::write::ZlibEncoder` at `Compression::default()`
/// into a `Vec`. The claim: the result is `Ok`, with the named stream
/// `zlib_deflate(data)`, and that stream decompresses to `data` (zlib is
/// lossless). Writing into a `Vec` cannot fail, and with the encoder's
/// write-then-finish sequence the compressor reports no error.
#[verifier::external_body]
pub(crate) fn deflate(data: &[u8]) -> (r: Result<Vec<u8>, std::io::Error>)
    ensures
        r is Ok,
        r matches Ok(v) ==> v@ == zlib_deflate(data@) && zlib_inflate(v@) == Some(data@),
{
    let mut encoder = flate2::write::ZlibEncoder::new(Vec::new(), flate2::Compression::default());
    match std::io::Write::write_all(&mut encoder, data) {
        Ok(()) => encoder.finish(),
        Err(e) => Err(e),
    }
}

} // verus!
