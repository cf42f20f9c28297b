//! The LZMA codec, as far as this crate is concerned: two calls into outside
//! crates whose contracts are taken on trust.

use vstd::prelude::*;

verus! {

#[verifier::external_type_specification]
#[verifier::external_body]
pub struct ExLzmaError(lzma_rs::error::Error);

/// What `lzma_rs` unpacks from `stream` (five property bytes and the range
/// coded payload, with no length field) when told to produce `size` bytes:
/// `None` where it reports an error.
pub uninterp spec fn lzma_unpacked(stream: Seq<u8>, size: u32) -> Option<Seq<u8>>;

/// Calls `lzma_rs::lzma_decompress_with_options` on `stream` with the unpacked
/// size given from outside the stream and every other option at its default.
///
/// Trusted: the decoder is a function of the stream and the size alone, so the
/// bytes it hands back on success are `lzma_unpacked(stream, size)`, and it
/// fails exactly where that is `None`. Nothing is claimed about how many bytes
/// come back.
#[verifier::external_body]
pub(crate) fn lzma_unpack(stream: &[u8], size: u32) -> (r: Result<Vec<u8>, lzma_rs::error::Error>)
    ensures
        r matches Ok(v) ==> lzma_unpacked(stream@, size) == Some(v@),
        r is Err ==> lzma_unpacked(stream@, size) is None,
{
    let mut input = std::io::Cursor::new(stream);
    let mut output: Vec<u8> = Vec::new();
    let options = lzma_rs::decompress::Options {
        unpacked_size: lzma_rs::decompress::UnpackedSize::UseProvided(Some(size as u64)),
        ..Default::default()
    };
    match lzma_rs::lzma_decompress_with_options(&mut input, &mut output, &options) {
        Ok(()) => Ok(output),
        Err(e) => Err(e),
    }
}

/// Calls `gmod_lzma::compress` on `data` at the given level.
///
/// Trusted: what comes back on success begins with five property bytes and
/// the length of `data` as a little-endian `u64`, so it has at least 13
/// bytes. Nothing is claimed of the stream behind them, nor of when the call
/// fails: the encoder is handed the number of processors of the machine it
/// runs on, so its result is not stated to be a function of `data` and
/// `level`.
#[verifier::external_body]
pub(crate) fn lzma_pack(data: &[u8], level: i32) -> (r: Result<Vec<u8>, u64>)
    ensures
        r matches Ok(v) ==> v@.len() >= 13 && crate::bytes::u64_at(v@, 5) == data@.len(),
{
    match gmod_lzma::compress(data, level) {
        Ok(v) => Ok(v),
        Err(code) => Err(code as u64),
    }
}

} // verus!
