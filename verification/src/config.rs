//! Engine configuration.
use vstd::prelude::*;
use vstd::string::StringExecFns;

use crate::keys::{dec_digits, fmt_u128};

verus! {

/// Default per-partition memtable budget before it is flushed to a segment.
pub const DEFAULT_MAX_MEMTABLE_BYTES: u64 = 16 * 1024 * 1024;

/// Default target data-block payload size inside segment objects.
pub const DEFAULT_BLOCK_SIZE: u32 = 32 * 1024;

/// Default block cache capacity.
pub const DEFAULT_CACHE_CAPACITY: u64 = 64 * 1024 * 1024;

/// Segments per partition allowed before an automatic merge compaction.
pub const DEFAULT_MAX_SEGMENTS_BEFORE_COMPACT: usize = 16;

/// Default pending journal buffer bound in group-commit mode.
pub const DEFAULT_JOURNAL_MAX_BUFFER_BYTES: u64 = 1024 * 1024;

/// Engine configuration.
#[derive(Clone, Debug)]
pub struct Config {
    /// Object key prefix that isolates this engine instance inside a bucket.
    pub prefix: String,
    /// Flush a partition's memtable to an immutable segment once its estimated
    /// byte size exceeds this budget.
    pub max_memtable_bytes: u64,
    /// Target data-block payload size inside segment objects (bytes).
    pub block_size: u32,
    /// Block cache capacity in bytes (0 disables the cache).
    pub cache_capacity: u64,
    /// Merge-compact a partition once it holds this many segments.
    pub max_segments_before_compact: usize,
    /// Group-commit journal window in ms. `None` keeps the strict per-commit
    /// durable PUT; `Some(ms)` batches commits into one journal object flushed
    /// every `ms` (or when the buffer fills).
    pub journal_window_ms: Option<u64>,
    /// Upper bound of the in-memory pending journal buffer (bytes) before a
    /// synchronous flush is forced.
    pub journal_max_buffer_bytes: u64,
    /// Flush full memtables on a background worker instead of inside the
    /// commit path.
    pub background_flush: bool,
    /// Embed each segment's block index in the manifest.
    pub manifest_embed_index: bool,
    /// Delete replaced segment objects eagerly after compaction, clear, rm and
    /// startup GC; when `false` they are left for an external lifecycle rule.
    pub eager_object_delete: bool,
}

impl Config {
    /// Whether every setting other than the prefix has its default value.
    pub open spec fn has_defaults_except_prefix(&self) -> bool {
        &&& self.max_memtable_bytes == DEFAULT_MAX_MEMTABLE_BYTES
        &&& self.block_size == DEFAULT_BLOCK_SIZE
        &&& self.cache_capacity == DEFAULT_CACHE_CAPACITY
        &&& self.max_segments_before_compact == DEFAULT_MAX_SEGMENTS_BEFORE_COMPACT
        &&& self.journal_window_ms is None
        &&& self.journal_max_buffer_bytes == DEFAULT_JOURNAL_MAX_BUFFER_BYTES
        &&& !self.background_flush
        &&& self.manifest_embed_index
        &&& self.eager_object_delete
    }

    /// Config with a custom object-key prefix and every other setting at its default.
    pub fn new(prefix: String) -> (c: Self)
        ensures
            c.prefix@ == prefix@,
            c.has_defaults_except_prefix(),
    {
        Config {
            prefix,
            max_memtable_bytes: DEFAULT_MAX_MEMTABLE_BYTES,
            block_size: DEFAULT_BLOCK_SIZE,
            cache_capacity: DEFAULT_CACHE_CAPACITY,
            max_segments_before_compact: DEFAULT_MAX_SEGMENTS_BEFORE_COMPACT,
            journal_window_ms: None,
            journal_max_buffer_bytes: DEFAULT_JOURNAL_MAX_BUFFER_BYTES,
            background_flush: false,
            eager_object_delete: true,
            manifest_embed_index: true,
        }
    }

    /// Set the per-partition memtable flush budget.
    /// An equal copy.
    pub fn clone_config(&self) -> (c: Self)
        ensures
            c.prefix@ == self.prefix@,
            c.max_memtable_bytes == self.max_memtable_bytes,
            c.block_size == self.block_size,
            c.cache_capacity == self.cache_capacity,
            c.max_segments_before_compact == self.max_segments_before_compact,
            c.journal_window_ms == self.journal_window_ms,
            c.journal_max_buffer_bytes == self.journal_max_buffer_bytes,
            c.background_flush == self.background_flush,
            c.manifest_embed_index == self.manifest_embed_index,
            c.eager_object_delete == self.eager_object_delete,
    {
        Config {
            prefix: self.prefix.clone(),
            max_memtable_bytes: self.max_memtable_bytes,
            block_size: self.block_size,
            cache_capacity: self.cache_capacity,
            max_segments_before_compact: self.max_segments_before_compact,
            journal_window_ms: self.journal_window_ms,
            journal_max_buffer_bytes: self.journal_max_buffer_bytes,
            background_flush: self.background_flush,
            manifest_embed_index: self.manifest_embed_index,
            eager_object_delete: self.eager_object_delete,
        }
    }

    pub fn max_memtable_bytes(self, bytes: u64) -> (c: Self)
        ensures
            c == (Config { max_memtable_bytes: bytes, ..self }),
    {
        Config { max_memtable_bytes: bytes, ..self }
    }

    /// Set the target segment data-block payload size.
    pub fn block_size(self, bytes: u32) -> (c: Self)
        ensures
            c == (Config { block_size: bytes, ..self }),
    {
        Config { block_size: bytes, ..self }
    }

    /// Set the block cache capacity in bytes.
    pub fn cache_capacity(self, bytes: u64) -> (c: Self)
        ensures
            c == (Config { cache_capacity: bytes, ..self }),
    {
        Config { cache_capacity: bytes, ..self }
    }

    /// Set the segment count that triggers automatic merge compaction.
    pub fn max_segments_before_compact(self, n: usize) -> (c: Self)
        ensures
            c == (Config { max_segments_before_compact: n, ..self }),
    {
        Config { max_segments_before_compact: n, ..self }
    }

    /// Set the group-commit journal window (`None` = strict per-commit PUT).
    pub fn journal_window_ms(self, ms: Option<u64>) -> (c: Self)
        ensures
            c == (Config { journal_window_ms: ms, ..self }),
    {
        Config { journal_window_ms: ms, ..self }
    }

    /// Upper bound of the pending journal buffer before a synchronous flush.
    pub fn journal_max_buffer_bytes(self, bytes: u64) -> (c: Self)
        ensures
            c == (Config { journal_max_buffer_bytes: bytes, ..self }),
    {
        Config { journal_max_buffer_bytes: bytes, ..self }
    }

    /// Move memtable segment uploads off the commit path.
    pub fn background_flush(self, enabled: bool) -> (c: Self)
        ensures
            c == (Config { background_flush: enabled, ..self }),
    {
        Config { background_flush: enabled, ..self }
    }

    /// Control whether segment block indexes are embedded in the manifest.
    pub fn manifest_embed_index(self, embed: bool) -> (c: Self)
        ensures
            c == (Config { manifest_embed_index: embed, ..self }),
    {
        Config { manifest_embed_index: embed, ..self }
    }

    /// Control whether replaced segment objects are deleted eagerly.
    pub fn eager_object_delete(self, enabled: bool) -> (c: Self)
        ensures
            c == (Config { eager_object_delete: enabled, ..self }),
    {
        Config { eager_object_delete: enabled, ..self }
    }

    /// Config for one shard of a shared bucket layout: each shard owns a
    /// disjoint `<base>/shard-<id>` prefix, so separate writer instances can
    /// run concurrently without colliding.
    pub fn for_shard(base: String, shard: u64) -> (c: Self)
        ensures
            c.prefix@ == base@ + "/shard-"@ + dec_digits(shard as nat),
            c.has_defaults_except_prefix(),
    {
        let mut p = base;
        p.append("/shard-");
        let d = fmt_u128(shard as u128);
        p.append(d.as_str());
        Self::new(p)
    }
}

impl Default for Config {
    fn default() -> (c: Self)
        ensures
            c.prefix@ == "wedb/objectlsm"@,
            c.has_defaults_except_prefix(),
    {
        Config::new("wedb/objectlsm".to_string())
    }
}

} // verus!
