//! Block compression: the algorithm a store is configured with and the
//! controller that applies it.
use vstd::prelude::*;

pub mod gz;
pub mod lz4;
pub mod snappy;

use crate::error::LsmError;
use gz::{GzCompressionController, gzip_encoded, gzip_decoded};
use lz4::{Lz4CompressionController, lz4_compressed, lz4_decompressed};
use snappy::{SnappyCompressionController, spec_snappy_compress, spec_snappy_decompress};

verus! {

/// The compression algorithm blocks are stored with.
#[derive(Debug, PartialEq, Eq, Structural, Copy, Clone)]
pub enum CompressionOptions {
    NoCompression,
    Snappy,
    Lz4,
    Gz,
}

impl CompressionOptions {
    /// The byte an algorithm is stored as.
    pub open spec fn spec_to_u8(self) -> u8 {
        match self {
            CompressionOptions::NoCompression => 0u8,
            CompressionOptions::Snappy => 1u8,
            CompressionOptions::Lz4 => 2u8,
            CompressionOptions::Gz => 3u8,
        }
    }

    /// The algorithm a stored byte names, if any.
    pub open spec fn spec_from_u8(b: u8) -> Option<CompressionOptions> {
        if b == 0 {
            Some(CompressionOptions::NoCompression)
        } else if b == 1 {
            Some(CompressionOptions::Snappy)
        } else if b == 2 {
            Some(CompressionOptions::Lz4)
        } else if b == 3 {
            Some(CompressionOptions::Gz)
        } else {
            None
        }
    }

    /// Reading back the byte an algorithm is stored as gives the algorithm,
    /// and every byte read back as an algorithm is that algorithm's byte.
    pub proof fn lemma_byte_roundtrip(c: CompressionOptions, b: u8)
        ensures
            CompressionOptions::spec_from_u8(c.spec_to_u8()) == Some(c),
            CompressionOptions::spec_from_u8(b) == Some(c) ==> c.spec_to_u8() == b,
    {
    }
}

impl From<CompressionOptions> for u8 {
    fn from(value: CompressionOptions) -> (r: u8) {
        match value {
            CompressionOptions::NoCompression => 0,
            CompressionOptions::Snappy => 1,
            CompressionOptions::Lz4 => 2,
            CompressionOptions::Gz => 3,
        }
    }
}

impl vstd::std_specs::convert::FromSpecImpl<CompressionOptions> for u8 {
    open spec fn obeys_from_spec() -> bool {
        true
    }

    open spec fn from_spec(v: CompressionOptions) -> u8 {
        v.spec_to_u8()
    }
}

impl TryFrom<u8> for CompressionOptions {
    type Error = &'static str;

    fn try_from(value: u8) -> (r: Result<CompressionOptions, &'static str>) {
        match value {
            0 => Ok(CompressionOptions::NoCompression),
            1 => Ok(CompressionOptions::Snappy),
            2 => Ok(CompressionOptions::Lz4),
            3 => Ok(CompressionOptions::Gz),
            _ => Err("Invalid compression type value"),
        }
    }
}

impl vstd::std_specs::convert::TryFromSpecImpl<u8> for CompressionOptions {
    open spec fn obeys_try_from_spec() -> bool {
        true
    }

    open spec fn try_from_spec(v: u8) -> Result<CompressionOptions, &'static str> {
        match CompressionOptions::spec_from_u8(v) {
            Some(c) => Ok(c),
            None => Err("Invalid compression type value"),
        }
    }
}

/// The compressor a block is run through.
#[derive(Debug, Clone, Copy, PartialEq, Eq, Structural)]
pub enum CompressionController {
    Snappy,
    Lz4,
    Gz,
    NoCompression,
}

/// What compressing `data` with a controller gives, if it succeeds.
pub open spec fn spec_compress(c: CompressionController, data: Seq<u8>) -> Option<Seq<u8>> {
    match c {
        CompressionController::Snappy => spec_snappy_compress(data),
        CompressionController::Lz4 => Some(lz4_compressed(data)),
        CompressionController::Gz => gzip_encoded(data),
        CompressionController::NoCompression => Some(data),
    }
}

/// What decompressing `data` with a controller gives, if it succeeds.
pub open spec fn spec_decompress(c: CompressionController, data: Seq<u8>) -> Option<Seq<u8>> {
    match c {
        CompressionController::Snappy => spec_snappy_decompress(data),
        CompressionController::Lz4 => lz4_decompressed(data),
        CompressionController::Gz => gzip_decoded(data),
        CompressionController::NoCompression => Some(data),
    }
}

/// The controller an algorithm is applied with.
pub open spec fn spec_controller(o: CompressionOptions) -> CompressionController {
    match o {
        CompressionOptions::Snappy => CompressionController::Snappy,
        CompressionOptions::Lz4 => CompressionController::Lz4,
        CompressionOptions::Gz => CompressionController::Gz,
        CompressionOptions::NoCompression => CompressionController::NoCompression,
    }
}

/// Whether a controller reads an input of `len` bytes back exactly once
/// compressed: always, but for LZ4 only up to 2^32 - 1 bytes (it prepends
/// the uncompressed size as a 32-bit number).
pub open spec fn roundtrip_holds(c: CompressionController, len: nat) -> bool {
    c is Lz4 ==> len <= 0xffff_ffff
}

impl CompressionController {
    pub fn new(compression_options: CompressionOptions) -> (r: Self)
        ensures
            r == spec_controller(compression_options),
    {
        match compression_options {
            CompressionOptions::Snappy => CompressionController::Snappy,
            CompressionOptions::Lz4 => CompressionController::Lz4,
            CompressionOptions::Gz => CompressionController::Gz,
            _ => CompressionController::NoCompression,
        }
    }

    /// Compresses `ori`; what comes out decompresses to `ori` again.
    pub fn compress(&self, ori: &[u8]) -> (r: Result<Vec<u8>, LsmError>)
        ensures
            match r {
                Ok(v) => spec_compress(*self, ori@) == Some(v@) && (roundtrip_holds(*self, ori@.len())
                    ==> spec_decompress(*self, v@) == Some(ori@)),
                Err(_) => spec_compress(*self, ori@) is None,
            },
    {
        match self {
            CompressionController::Snappy => SnappyCompressionController::compress(ori),
            CompressionController::Lz4 => Lz4CompressionController::compress(ori),
            CompressionController::Gz => GzCompressionController::compress(ori),
            _ => Ok(vstd::slice::slice_to_vec(ori)),
        }
    }

    pub fn de_compress(&self, ori: &[u8]) -> (r: Result<Vec<u8>, LsmError>)
        ensures
            match r {
                Ok(v) => spec_decompress(*self, ori@) == Some(v@),
                Err(_) => spec_decompress(*self, ori@) is None,
            },
    {
        match self {
            CompressionController::Snappy => SnappyCompressionController::de_compress(ori),
            CompressionController::Lz4 => Lz4CompressionController::de_compress(ori),
            CompressionController::Gz => GzCompressionController::de_compress(ori),
            _ => Ok(vstd::slice::slice_to_vec(ori)),
        }
    }
}

} // verus!
