//! Compression and decompression in the zlib format.

use crate::bytes::bytes_eq;
use vstd::prelude::*;

verus! {

/// What `flate2` makes of `data` at its default level: the zlib stream, or
/// `None` where it gives none.
pub uninterp spec fn deflated(data: Seq<u8>) -> Option<Seq<u8>>;

/// What `flate2` makes of the zlib stream at the start of `input`: the
/// decompressed bytes and the number of bytes of `input` that the stream
/// occupies, or `None` where `input` does not start with a complete stream.
pub uninterp spec fn inflated(input: Seq<u8>) -> Option<(Seq<u8>, nat)>;

/// Feeds `data` to a `flate2::write::ZlibEncoder` over a `Vec` at
/// `Compression::default()` and finishes the stream.
/// Trusted: the outcome is `deflated(data)`, the bytes of the stream or
/// nothing where the encoder reports an error.
#[verifier::external_body]
pub(crate) fn zlib_compress(data: &[u8]) -> (out: Option<Vec<u8>>)
    ensures
        match out {
            Some(stream) => deflated(data@) == Some(stream@),
            None => deflated(data@) is None,
        },
{
    let mut encoder = flate2::write::ZlibEncoder::new(Vec::new(), flate2::Compression::default());
    match std::io::Write::write_all(&mut encoder, data) {
        Ok(()) => match encoder.finish() {
            Ok(stream) => Some(stream),
            Err(_) => None,
        },
        Err(_) => None,
    }
}

/// Reads a `flate2::read::ZlibDecoder` over `input` to its end and asks it
/// for `total_in`.
/// Trusted: the outcome is `inflated(input)`, the decompressed bytes with the
/// number of input bytes that the decompressor consumed.
#[verifier::external_body]
pub(crate) fn zlib_decompress(input: &[u8]) -> (out: Option<(Vec<u8>, u64)>)
    ensures
        match out {
            Some((bytes, consumed)) => inflated(input@) == Some((bytes@, consumed as nat)),
            None => inflated(input@) is None,
        },
{
    let mut decoder = flate2::read::ZlibDecoder::new(input);
    let mut bytes = Vec::new();
    match std::io::Read::read_to_end(&mut decoder, &mut bytes) {
        Ok(_) => Some((bytes, decoder.total_in())),
        Err(_) => None,
    }
}

/// Whether the zlib stream `stream` holds exactly the bytes `data`.
pub open spec fn holds(stream: Seq<u8>, data: Seq<u8>) -> bool {
    match inflated(stream) {
        Some((bytes, _)) => bytes == data,
        None => false,
    }
}

/// The zlib stream for `data` that is kept: the stream that compression
/// gives, where it gives one and the stream holds `data`.
pub open spec fn checked(data: Seq<u8>) -> Option<Seq<u8>> {
    match deflated(data) {
        Some(stream) => if holds(stream, data) {
            Some(stream)
        } else {
            None
        },
        None => None,
    }
}

/// Decompresses `stream` and tells whether it holds exactly the bytes
/// `data`.
pub fn round_trips(stream: &[u8], data: &[u8]) -> (r: bool)
    ensures
        r == holds(stream@, data@),
{
    match zlib_decompress(stream) {
        Some((bytes, _)) => bytes_eq(bytes.as_slice(), data),
        None => false,
    }
}

/// Compresses `data` and makes sure that what comes out holds `data`:
/// nothing where compression fails or its result does not decompress to
/// `data`.
pub fn compress_checked(data: &[u8]) -> (out: Option<Vec<u8>>)
    ensures
        match out {
            Some(stream) => checked(data@) == Some(stream@),
            None => checked(data@) is None,
        },
{
    keep_checked(zlib_compress(data), data)
}

/// Judges what compression gave for `data`: the stream is kept where there
/// is one and decompressing it gives `data` back, and nothing is kept
/// otherwise.
pub fn keep_checked(compressed: Option<Vec<u8>>, data: &[u8]) -> (out: Option<Vec<u8>>)
    ensures
        out == match compressed {
            Some(stream) => if holds(stream@, data@) {
                Some(stream)
            } else {
                None
            },
            None => None,
        },
{
    match compressed {
        Some(stream) => if round_trips(stream.as_slice(), data) {
            Some(stream)
        } else {
            None
        },
        None => None,
    }
}

} // verus!
