//! Snappy compression through the `snap` crate's raw block format.
use vstd::prelude::*;
use snap::raw::{Decoder, Encoder, decompress_len, max_compress_len};
use crate::error::{LsmError, join_text};

verus! {

/// The outside error type of `snap`.
#[verifier::external_type_specification]
#[verifier::external_body]
pub struct ExSnapError(snap::Error);

/// The largest input `snap` accepts.
pub open spec fn snappy_max_input() -> nat {
    0xffff_ffffnat
}

/// What `snap::raw::max_compress_len` returns: the room a compressed
/// block may need, or zero for an input that is too large.
pub open spec fn spec_snappy_max_len(input_len: nat) -> nat {
    if input_len > snappy_max_input() {
        0
    } else if 32 + input_len + input_len / 6 > snappy_max_input() {
        0
    } else {
        32 + input_len + input_len / 6
    }
}

/// The bytes `snap::raw::Encoder::compress` writes for an input.
pub uninterp spec fn snappy_compressed(input: Seq<u8>) -> Seq<u8>;

/// The length `snap::raw::decompress_len` reads from a compressed block's
/// header, if the header is well formed.
pub uninterp spec fn snappy_declared_len(input: Seq<u8>) -> Option<nat>;

/// The bytes `snap::raw::Decoder::decompress` produces from a block, given
/// room enough, if the block is well formed.
pub uninterp spec fn snappy_decoded(input: Seq<u8>) -> Option<Seq<u8>>;

/// Calls `snap::raw::max_compress_len`; claims the result the crate's
/// source computes.
#[verifier::external_body]
fn snappy_max_len(input_len: usize) -> (r: usize)
    ensures
        r == spec_snappy_max_len(input_len as nat),
{
    max_compress_len(input_len)
}

/// Calls `snap::raw::Encoder::compress` on a fresh encoder. Claims: it
/// succeeds exactly when the input is not too large and the output has the
/// room `max_compress_len` asks for; then the written prefix is the input's
/// compressed form, whose header declares the input's length and which
/// decodes to the input.
#[verifier::external_body]
fn snappy_encode(input: &[u8], output: &mut [u8]) -> (r: Result<usize, snap::Error>)
    ensures
        final(output)@.len() == old(output)@.len(),
        r is Ok <==> (spec_snappy_max_len(input@.len()) != 0 && old(output)@.len()
            >= spec_snappy_max_len(input@.len())),
        r matches Ok(n) ==> {
            &&& 0 < n <= final(output)@.len()
            &&& final(output)@.take(n as int) == snappy_compressed(input@)
            &&& snappy_declared_len(final(output)@.take(n as int)) == Some(input@.len())
            &&& snappy_decoded(final(output)@.take(n as int)) == Some(input@)
        },
{
    Encoder::new().compress(input, output)
}

/// Calls `snap::raw::decompress_len`; claims that it returns the length the
/// header declares, zero for an empty input, and fails where the header is
/// malformed.
#[verifier::external_body]
fn snappy_len_of(input: &[u8]) -> (r: Result<usize, snap::Error>)
    ensures
        match r {
            Ok(n) => if input@.len() == 0 {
                n == 0
            } else {
                snappy_declared_len(input@) == Some(n as nat)
            },
            Err(_) => input@.len() > 0 && snappy_declared_len(input@) is None,
        },
{
    decompress_len(input)
}

/// Calls `snap::raw::Decoder::decompress` on a fresh decoder. Claims: it
/// succeeds exactly when the input is not empty, its header is well formed
/// and fits the output, and the block decodes; then it reports the declared
/// length and the output's prefix of that length holds the decoded bytes.
#[verifier::external_body]
fn snappy_decode(input: &[u8], output: &mut [u8]) -> (r: Result<usize, snap::Error>)
    ensures
        final(output)@.len() == old(output)@.len(),
        r is Ok <==> (input@.len() > 0 && snappy_declared_len(input@) is Some
            && snappy_declared_len(input@).unwrap() <= old(output)@.len() && snappy_decoded(input@) is Some),
        r matches Ok(n) ==> {
            &&& snappy_declared_len(input@) == Some(n as nat)
            &&& snappy_decoded(input@) == Some(final(output)@.take(n as int))
        },
{
    Decoder::new().decompress(input, output)
}

/// Calls `<snap::Error as Display>::fmt` through `to_string`; nothing is
/// claimed of the text.
#[verifier::external_body]
fn snappy_error_text(e: &snap::Error) -> String {
    e.to_string()
}

/// What decompressing a Snappy block gives: the decoded bytes of a
/// non-empty block whose header is well formed and which decodes.
pub open spec fn spec_snappy_decompress(input: Seq<u8>) -> Option<Seq<u8>> {
    if input.len() == 0 {
        None
    } else if snappy_declared_len(input) is None {
        None
    } else {
        snappy_decoded(input)
    }
}

/// What compressing with Snappy gives: the compressed block, unless the
/// input is too large.
pub open spec fn spec_snappy_compress(input: Seq<u8>) -> Option<Seq<u8>> {
    if spec_snappy_max_len(input.len()) == 0 {
        None
    } else {
        Some(snappy_compressed(input))
    }
}

#[derive(Debug, Clone)]
pub struct SnappyCompressionController {}

impl SnappyCompressionController {
    pub fn compress(ori: &[u8]) -> (r: Result<Vec<u8>, LsmError>)
        ensures
            match r {
                Ok(v) => spec_snappy_compress(ori@) == Some(v@) && spec_snappy_decompress(v@)
                    == Some(ori@),
                Err(e) => spec_snappy_compress(ori@) is None && e is Internal,
            },
    {
        let max_compressed_len = snappy_max_len(ori.len());
        let mut compressed_buffer: Vec<u8> = vec![0; max_compressed_len];
        match snappy_encode(ori, compressed_buffer.as_mut_slice()) {
            Ok(compressed_len) => {
                compressed_buffer.truncate(compressed_len);
                assert(compressed_buffer@ == snappy_compressed(ori@));
                Ok(compressed_buffer)
            },
            Err(e) => Err(
                LsmError::Internal(
                    join_text("Snappy compression failed: ", snappy_error_text(&e).as_str()),
                ),
            ),
        }
    }

    pub fn de_compress(ori: &[u8]) -> (r: Result<Vec<u8>, LsmError>)
        ensures
            match r {
                Ok(v) => spec_snappy_decompress(ori@) == Some(v@),
                Err(e) => spec_snappy_decompress(ori@) is None && e is Internal,
            },
    {
        let decompressed_len = match snappy_len_of(ori) {
            Ok(n) => n,
            Err(e) => {
                return Err(
                    LsmError::Internal(
                        join_text(
                            "Snappy decompression length check failed: ",
                            snappy_error_text(&e).as_str(),
                        ),
                    ),
                );
            },
        };
        let mut decompressed_buffer: Vec<u8> = vec![0; decompressed_len];
        match snappy_decode(ori, decompressed_buffer.as_mut_slice()) {
            Ok(n) => {
                assert(decompressed_buffer@.take(n as int) =~= decompressed_buffer@);
                Ok(decompressed_buffer)
            },
            Err(e) => Err(
                LsmError::Internal(
                    join_text("Snappy decompression failed: ", snappy_error_text(&e).as_str()),
                ),
            ),
        }
    }
}

} // verus!
