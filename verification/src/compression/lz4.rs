//! LZ4 compression through `lz4_flex`, with the uncompressed size prepended.
use vstd::prelude::*;
use lz4_flex::{compress_prepend_size, decompress_size_prepended};
use lz4_flex::block::DecompressError;
use crate::error::{LsmError, join_text};

verus! {

/// The outside error type of `lz4_flex` decompression.
#[verifier::external_type_specification]
#[verifier::external_body]
pub struct ExLz4DecompressError(DecompressError);

/// The bytes `lz4_flex::compress_prepend_size` returns for an input.
pub uninterp spec fn lz4_compressed(input: Seq<u8>) -> Seq<u8>;

/// What `lz4_flex::decompress_size_prepended` returns for an input, if it
/// succeeds.
pub uninterp spec fn lz4_decompressed(input: Seq<u8>) -> Option<Seq<u8>>;

/// Calls `lz4_flex::compress_prepend_size`, which cannot fail. Claims that
/// the result is the named compressed form and, for inputs whose length fits
/// the prepended 32-bit size, that it decompresses to the input.
#[verifier::external_body]
fn lz4_compress(input: &[u8]) -> (r: Vec<u8>)
    ensures
        r@ == lz4_compressed(input@),
        input@.len() <= 0xffff_ffff ==> lz4_decompressed(r@) == Some(input@),
{
    compress_prepend_size(input)
}

/// Calls `lz4_flex::decompress_size_prepended`; claims that it fails exactly
/// where the named result is absent and otherwise returns it.
#[verifier::external_body]
fn lz4_decompress(input: &[u8]) -> (r: Result<Vec<u8>, DecompressError>)
    ensures
        match r {
            Ok(v) => lz4_decompressed(input@) == Some(v@),
            Err(_) => lz4_decompressed(input@) is None,
        },
{
    decompress_size_prepended(input)
}

/// Calls `<DecompressError as Display>::fmt` through `to_string`; nothing is
/// claimed of the text.
#[verifier::external_body]
fn lz4_error_text(e: &DecompressError) -> String {
    e.to_string()
}

#[derive(Debug, Clone)]
pub struct Lz4CompressionController {}

impl Lz4CompressionController {
    pub fn compress(ori: &[u8]) -> (r: Result<Vec<u8>, LsmError>)
        ensures
            r matches Ok(v) && v@ == lz4_compressed(ori@) && (ori@.len() <= 0xffff_ffff
                ==> lz4_decompressed(v@) == Some(ori@)),
    {
        let compressed_data = lz4_compress(ori);
        Ok(compressed_data)
    }

    pub fn de_compress(ori: &[u8]) -> (r: Result<Vec<u8>, LsmError>)
        ensures
            match r {
                Ok(v) => lz4_decompressed(ori@) == Some(v@),
                Err(e) => lz4_decompressed(ori@) is None && e is Internal,
            },
    {
        match lz4_decompress(ori) {
            Ok(v) => Ok(v),
            Err(e) => Err(
                LsmError::Internal(
                    join_text("LZ4 decompression failed: ", lz4_error_text(&e).as_str()),
                ),
            ),
        }
    }
}

} // verus!
