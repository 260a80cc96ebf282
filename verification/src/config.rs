//! Settings of the store and of its key-value engine.

use vstd::prelude::*;
use vstd::string::*;
use crate::text::same_text;

verus! {

/// Settings of the store itself.
#[derive(Clone, Copy, Debug, PartialEq, Eq, Structural)]
pub struct MauveConfig {
    /// The largest object that is taken, in MiB.
    pub object_max_size_mb: u64,
    /// How many terms of a search are looked up at the same time.
    pub query_concurrency: u16,
    /// After how many seconds a search is given up.
    pub query_timeout_secs: u64,
}

impl Default for MauveConfig {
    fn default() -> (r: Self)
        ensures
            r == (MauveConfig {
                object_max_size_mb: 30,
                query_concurrency: 16,
                query_timeout_secs: 60,
            }),
    {
        Self { object_max_size_mb: 30, query_concurrency: 16, query_timeout_secs: 60 }
    }
}

impl MauveConfig {
    /// The largest object that is taken, in bytes, if that number fits.
    pub fn object_max_size_bytes(&self) -> (r: Option<u64>)
        ensures
            match r {
                Some(n) => n == self.object_max_size_mb * 1024 * 1024,
                None => self.object_max_size_mb * 1024 * 1024 > u64::MAX,
            },
    {
        match self.object_max_size_mb.checked_mul(1024) {
            Some(kib) => kib.checked_mul(1024),
            None => None,
        }
    }

    /// Whether an object of `len` bytes is taken: one larger than the limit
    /// is refused before anything is stored.
    pub fn accepts_object(&self, len: u64) -> (r: bool)
        ensures
            r == (len <= self.object_max_size_mb * 1024 * 1024),
    {
        match self.object_max_size_bytes() {
            Some(limit) => len <= limit,
            None => true,
        }
    }

    /// Whether a search that took `elapsed_secs` seconds ran past its
    /// deadline.
    pub fn timed_out(&self, elapsed_secs: u64) -> (r: bool)
        ensures
            r == (elapsed_secs > self.query_timeout_secs),
    {
        elapsed_secs > self.query_timeout_secs
    }
}

/// What the key-value engine is tuned for.
#[derive(Clone, Copy, Debug, PartialEq, Eq, Structural)]
pub enum SledMode {
    HighThroughput,
    LowSpace,
}

/// The mode that a text names: `LowSpace` for that word, `HighThroughput`
/// for every other text.
pub open spec fn mode_named(s: Seq<char>) -> SledMode {
    if s == "LowSpace"@ {
        SledMode::LowSpace
    } else {
        SledMode::HighThroughput
    }
}

/// Settings of the key-value engine.
#[derive(Debug)]
pub struct SledConfig {
    /// Size of the cache in bytes.
    pub cache_capacity: u64,
    /// How often what was written is flushed, in milliseconds; never if none.
    pub flush_every_ms: Option<u64>,
    /// Where the engine keeps its files.
    pub path: String,
    /// `HighThroughput` or `LowSpace`.
    pub mode: String,
    /// Whether what is stored is compressed.
    pub use_compression: bool,
    /// Strength of the compression, from 1 to 22.
    pub compression_factor: i32,
    /// After how many generated ids the generator is persisted.
    pub idgen_persist_interval: u64,
}

impl Clone for SledConfig {
    fn clone(&self) -> (r: Self)
        ensures
            r == *self,
    {
        SledConfig {
            cache_capacity: self.cache_capacity,
            flush_every_ms: self.flush_every_ms,
            path: self.path.clone(),
            mode: self.mode.clone(),
            use_compression: self.use_compression,
            compression_factor: self.compression_factor,
            idgen_persist_interval: self.idgen_persist_interval,
        }
    }
}

impl Default for SledConfig {
    fn default() -> (r: Self)
        ensures
            r.cache_capacity == 1024 * 1024 * 1024,
            r.flush_every_ms == Some(500u64),
            r.path@ == "data/"@,
            r.mode@ == "HighThroughput"@,
            !r.use_compression,
            r.compression_factor == 5,
            r.idgen_persist_interval == 1_000_000,
    {
        Self {
            cache_capacity: 1024 * 1024 * 1024,
            flush_every_ms: Some(500),
            path: "data/".to_owned(),
            mode: "HighThroughput".to_owned(),
            use_compression: false,
            compression_factor: 5,
            idgen_persist_interval: 1_000_000,
        }
    }
}

impl SledConfig {
    /// The mode that the setting names. A word that is not known stands for
    /// `HighThroughput`.
    pub fn mode_kind(&self) -> (r: SledMode)
        ensures
            r == mode_named(self.mode@),
    {
        if same_text(self.mode.as_str(), "LowSpace") {
            SledMode::LowSpace
        } else {
            SledMode::HighThroughput
        }
    }

    /// Whether the strength of compression is one that the engine takes:
    /// from 1 to 22.
    pub fn compression_in_range(&self) -> (r: bool)
        ensures
            r == (1 <= self.compression_factor <= 22),
    {
        1 <= self.compression_factor && self.compression_factor <= 22
    }
}

} // verus!
