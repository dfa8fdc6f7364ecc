//! Opening configuration and the static tuning derived from it.

use vstd::prelude::*;

verus! {

/// The part of the server configuration that the storage layer consumes.
///
/// `read_only` fixes the handle's mode for its whole lifetime; `light_mode`
/// is recorded in the on-disk compatibility marker when a directory is first
/// used.
#[derive(Clone, Copy, Debug)]
pub struct Config {
    pub read_only: bool,
    pub light_mode: bool,
}

/// Compaction strategy for the engine.
#[derive(Clone, Copy, Debug)]
pub enum CompactionStyle {
    Level,
    Universal,
    Fifo,
}

/// Block compression applied to on-disk segments.
#[derive(Clone, Copy, Debug)]
pub enum CompressionType {
    Uncompressed,
    Snappy,
    Lz4,
    Zstd,
}

/// Static engine options, fixed at open time.
#[derive(Clone, Copy, Debug)]
pub struct DBOptions {
    /// Create the data directory when absent; never set in read-only mode.
    pub create_if_missing: bool,
    /// The index touches very many on-disk segments under random access.
    pub max_open_files: u32,
    pub compaction_style: CompactionStyle,
    pub compression: CompressionType,
    /// Large segments reduce write amplification during bulk import.
    pub target_file_size_base: u64,
    pub write_buffer_size: u64,
    /// Background compaction starts disabled; the caller re-enables it once
    /// bulk import completes, trading one large controlled compaction for
    /// freedom from compaction stalls during the import.
    pub disable_auto_compactions: bool,
    /// Read-ahead sized for large sequential reads during compaction.
    pub compaction_readahead_size: u64,
    /// Parallelism is capped to bound resource usage.
    pub parallelism: u32,
}

/// Derives the static engine options from the operating mode.
pub fn build_db_options(config: &Config) -> (o: DBOptions)
    ensures
        o.create_if_missing == !config.read_only,
        o.max_open_files == 100000u32,
        o.compaction_style is Level,
        o.compression is Snappy,
        o.target_file_size_base == 1073741824u64,
        o.write_buffer_size == 268435456u64,
        o.disable_auto_compactions,
        o.compaction_readahead_size == 1048576u64,
        o.parallelism == 2u32,
{
    DBOptions {
        create_if_missing: !config.read_only,
        max_open_files: 100000,
        compaction_style: CompactionStyle::Level,
        compression: CompressionType::Snappy,
        target_file_size_base: 1073741824,
        write_buffer_size: 268435456,
        disable_auto_compactions: true,
        compaction_readahead_size: 1048576,
        parallelism: 2,
    }
}

} // verus!
