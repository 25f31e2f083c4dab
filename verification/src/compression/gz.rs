//! Gzip compression through `flate2` at its default level.
use vstd::prelude::*;
use flate2::Compression;
use flate2::read::GzDecoder;
use flate2::write::GzEncoder;
use std::io::{Read, Write};
use crate::error::{LsmError, join_text, io_error_text};

verus! {

/// What gzip-encoding an input into a vector with `flate2` at the default
/// level gives, if it succeeds.
pub uninterp spec fn gzip_encoded(input: Seq<u8>) -> Option<Seq<u8>>;

/// What gzip-decoding an input with `flate2` gives, if it succeeds.
pub uninterp spec fn gzip_decoded(input: Seq<u8>) -> Option<Seq<u8>>;

/// Encodes with `flate2::write::GzEncoder` (`new` at `Compression::default()`,
/// then `write_all` and `finish`, the one way the encoder is driven). Claims
/// that it succeeds (the encoder writes into a vector, which takes every
/// write, and deflate at the default level reports no error on a stream it
/// started), and that it returns the named result, which `GzDecoder` reads
/// back as the input.
#[verifier::external_body]
fn gzip_encode(input: &[u8]) -> (r: Result<Vec<u8>, std::io::Error>)
    ensures
        r is Ok,
        match r {
            Ok(v) => gzip_encoded(input@) == Some(v@) && gzip_decoded(v@) == Some(input@),
            Err(_) => true,
        },
{
    let mut encoder = GzEncoder::new(Vec::new(), Compression::default());
    encoder.write_all(input)?;
    encoder.finish()
}

/// Decodes with `flate2::read::GzDecoder` (`new`, then `read_to_end` into an
/// empty vector). Claims that it fails exactly where the named result is
/// absent and otherwise returns it.
#[verifier::external_body]
fn gzip_decode(input: &[u8]) -> (r: Result<Vec<u8>, std::io::Error>)
    ensures
        match r {
            Ok(v) => gzip_decoded(input@) == Some(v@),
            Err(_) => gzip_decoded(input@) is None,
        },
{
    let mut out = Vec::new();
    GzDecoder::new(input).read_to_end(&mut out)?;
    Ok(out)
}

#[derive(Debug, Clone)]
pub struct GzCompressionController {}

impl GzCompressionController {
    pub fn compress(ori: &[u8]) -> (r: Result<Vec<u8>, LsmError>)
        ensures
            r matches Ok(v) && gzip_encoded(ori@) == Some(v@) && gzip_decoded(v@) == Some(ori@),
    {
        match gzip_encode(ori) {
            Ok(v) => Ok(v),
            Err(e) => Err(
                LsmError::Internal(
                    join_text("Gzip compression failed: ", io_error_text(&e).as_str()),
                ),
            ),
        }
    }

    pub fn de_compress(ori: &[u8]) -> (r: Result<Vec<u8>, LsmError>)
        ensures
            match r {
                Ok(v) => gzip_decoded(ori@) == Some(v@),
                Err(e) => gzip_decoded(ori@) is None && e is Internal,
            },
    {
        match gzip_decode(ori) {
            Ok(v) => Ok(v),
            Err(e) => Err(
                LsmError::Internal(
                    join_text("Gzip decompression failed: ", io_error_text(&e).as_str()),
                ),
            ),
        }
    }
}

} // verus!
