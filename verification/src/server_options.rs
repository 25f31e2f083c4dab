//! The storage options a server starts with, from its command-line choices.
use vstd::prelude::*;
use crate::compact::{
    CompactionOptions, LeveledCompactionOptions, SimpleLeveledCompactionOptions,
};
use crate::compact::tiered::TieredCompactionOptions;
use crate::compression::CompressionOptions;
use crate::lsm_storage::LsmStorageOptions;

verus! {

/// The compaction a server is started with.
#[derive(Debug, Clone, Copy, PartialEq, Eq, Structural)]
pub enum CompactionStrategy {
    Simple,
    Leveled,
    Tiered,
    NoCompaction,
}

/// The compression a server is started with.
#[derive(Debug, Clone, Copy, PartialEq, Eq, Structural)]
pub enum CompressionStrategy {
    Lz4,
    Snappy,
    Gz,
    NoCompression,
}

/// The server's command-line choices that shape its storage.
#[derive(Debug, Clone, Copy)]
pub struct ServerArgs {
    pub compaction: CompactionStrategy,
    pub enable_wal: bool,
    pub serializable: bool,
    pub compression: CompressionStrategy,
    pub block_size: usize,
    pub target_sst_size: usize,
    pub num_memtable_limit: usize,
    pub num_compaction_threads: usize,
    pub enable_ttl: bool,
}

/// The compaction options each strategy starts with.
pub open spec fn spec_compaction_options(c: CompactionStrategy) -> CompactionOptions {
    match c {
        CompactionStrategy::NoCompaction => CompactionOptions::NoCompaction,
        CompactionStrategy::Simple => CompactionOptions::Simple(
            SimpleLeveledCompactionOptions {
                size_ratio_percent: 200,
                level0_file_num_compaction_trigger: 2,
                max_levels: 4,
            },
        ),
        CompactionStrategy::Tiered => CompactionOptions::Tiered(
            TieredCompactionOptions {
                num_tiers: 3,
                max_size_amplification_percent: 200,
                size_ratio: 1,
                min_merge_width: 2,
                max_merge_width: None,
            },
        ),
        CompactionStrategy::Leveled => CompactionOptions::Leveled(
            LeveledCompactionOptions {
                level0_file_num_compaction_trigger: 2,
                max_levels: 4,
                base_level_size_mb: 128,
                level_size_multiplier: 2,
            },
        ),
    }
}

/// The compression each strategy names.
pub open spec fn spec_compression_options(c: CompressionStrategy) -> CompressionOptions {
    match c {
        CompressionStrategy::Snappy => CompressionOptions::Snappy,
        CompressionStrategy::Lz4 => CompressionOptions::Lz4,
        CompressionStrategy::Gz => CompressionOptions::Gz,
        CompressionStrategy::NoCompression => CompressionOptions::NoCompression,
    }
}

/// The storage options of a server: the sizes and switches it was given,
/// four sub-compactions, and the options of its compaction and compression
/// strategies.
pub fn create_lsm_options(args: &ServerArgs) -> (r: LsmStorageOptions)
    ensures
        r.block_size == args.block_size,
        r.target_sst_size == args.target_sst_size,
        r.num_memtable_limit == args.num_memtable_limit,
        r.num_subcompactions == 4,
        r.enable_ttl == args.enable_ttl,
        r.compaction_options == spec_compaction_options(args.compaction),
        r.num_compaction_thread_limit == args.num_compaction_threads,
        r.enable_wal == args.enable_wal,
        r.serializable == args.serializable,
        r.compression_options == spec_compression_options(args.compression),
{
    LsmStorageOptions {
        block_size: args.block_size,
        target_sst_size: args.target_sst_size,
        num_memtable_limit: args.num_memtable_limit,
        num_subcompactions: 4,
        enable_ttl: args.enable_ttl,
        compaction_options: match args.compaction {
            CompactionStrategy::NoCompaction => CompactionOptions::NoCompaction,
            CompactionStrategy::Simple => CompactionOptions::Simple(
                SimpleLeveledCompactionOptions {
                    size_ratio_percent: 200,
                    level0_file_num_compaction_trigger: 2,
                    max_levels: 4,
                },
            ),
            CompactionStrategy::Tiered => CompactionOptions::Tiered(
                TieredCompactionOptions {
                    num_tiers: 3,
                    max_size_amplification_percent: 200,
                    size_ratio: 1,
                    min_merge_width: 2,
                    max_merge_width: None,
                },
            ),
            CompactionStrategy::Leveled => CompactionOptions::Leveled(
                LeveledCompactionOptions {
                    level0_file_num_compaction_trigger: 2,
                    max_levels: 4,
                    base_level_size_mb: 128,
                    level_size_multiplier: 2,
                },
            ),
        },
        num_compaction_thread_limit: args.num_compaction_threads,
        enable_wal: args.enable_wal,
        serializable: args.serializable,
        compression_options: match args.compression {
            CompressionStrategy::Snappy => CompressionOptions::Snappy,
            CompressionStrategy::Lz4 => CompressionOptions::Lz4,
            CompressionStrategy::Gz => CompressionOptions::Gz,
            CompressionStrategy::NoCompression => CompressionOptions::NoCompression,
        },
    }
}

} // verus!
