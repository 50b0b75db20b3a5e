//! The parameters of a run and what is left to do at its end.

use crate::cache::{
    decoded, dirs_are_text, encoded, forget_failed, put_all, without_failed, writable, Cache, Entries, SavedCache,
};
use crate::cache_laws::lemma_without_failed_text;
use crate::coalesce::DEFAULT_PACK_MULTIPLIER;
use crate::size::HUGE_CUTOFF_BYTES;
use crate::types::{Config, Error, FileFailure, Report};
use vstd::prelude::*;

verus! {

/// How a run is set up.
#[derive(Debug)]
pub struct Settings {
    /// Number of worker threads.
    pub workers: usize,
    /// Capacity of the channels.
    pub channel_capacity: usize,
    /// Crates per rustfmt invocation.
    pub batch_size: usize,
    /// Batches that are packed at a time.
    pub pack_multiplier: usize,
    /// Size from which on a crate is formatted alone. It is the cap of the size
    /// proxy, so exactly the crates that the proxy clamped reach it.
    pub solo_threshold: u64,
}

/// The value of an option, or a default.
pub open spec fn or_default(o: Option<usize>, d: usize) -> usize {
    match o {
        Some(v) => v,
        None => d,
    }
}

/// The settings for a configuration, given how much parallelism the machine
/// offers, where that is known. A run without workers is refused.
pub fn settings(cfg: &Config, available: Option<usize>) -> (r: Result<Settings, Error>)
    ensures
        match r {
            Err(e) => cfg.workers == Some(0usize) && e == Error::InvalidWorkers(0),
            Ok(s) => {
                &&& cfg.workers != Some(0usize)
                &&& s.workers == or_default(cfg.workers, or_default(available, 1))
                &&& s.channel_capacity == or_default(cfg.channel_capacity, 512)
                &&& s.batch_size == or_default(cfg.batch_size, 3)
                &&& s.pack_multiplier == DEFAULT_PACK_MULTIPLIER
                &&& s.solo_threshold == HUGE_CUTOFF_BYTES
            },
        },
{
    let workers: usize = match cfg.workers {
        Some(0) => {
            return Err(Error::InvalidWorkers(0));
        },
        Some(n) => n,
        None => match available {
            Some(n) => n,
            None => 1,
        },
    };
    let channel_capacity: usize = match cfg.channel_capacity {
        Some(n) => n,
        None => 512,
    };
    let batch_size: usize = match cfg.batch_size {
        Some(n) => n,
        None => 3,
    };
    Ok(
        Settings {
            workers,
            channel_capacity,
            batch_size,
            pack_multiplier: DEFAULT_PACK_MULTIPLIER,
            solo_threshold: HUGE_CUTOFF_BYTES,
        },
    )
}

/// What a run leaves in the cache: what was known and what it learned, without
/// the crates that had a failure.
pub open spec fn left_in_cache(cache: Cache, failures: Seq<FileFailure>) -> Entries {
    put_all(
        without_failed(cache.retained(), failures),
        without_failed(cache.pending(), failures),
    )
}

/// Commits the skip cache at the end of a run: what has to be written where,
/// without the crates that had a failure, so that the next run surfaces it again.
pub fn settle(cache: Cache, report: &Report) -> (r: Option<SavedCache>)
    ensures
        match r {
            Some(saved) => {
                let left = left_in_cache(cache, report.failures@);
                &&& cache.location() == Some(saved.path@)
                &&& saved.contents@ == encoded(cache.tool_hash(), left)
                &&& dirs_are_text(cache.pending()) ==> decoded(
                    saved.contents@,
                    cache.tool_hash(),
                ) == writable(left)
            },
            None => cache.location() is None,
        },
{
    proof {
        if dirs_are_text(cache.pending()) {
            lemma_without_failed_text(cache.pending(), report.failures@);
        }
    }
    let mut cache = cache;
    forget_failed(&mut cache, &report.failures);
    cache.commit_and_save()
}

/// The exit status of the process: the report's code, or 1 where that does not
/// fit in a byte.
pub fn exit_status(code: i32) -> (s: u8)
    ensures
        s == if 0 <= code <= 255 {
            code as int
        } else {
            1
        },
{
    if 0 <= code && code <= 255 {
        code as u8
    } else {
        1
    }
}

} // verus!
