//! Size proxies for the coalescer's batch packing.
//!
//! They play no role in correctness: only the relative magnitudes between
//! crates matter.

use crate::path::{is_rust_source, FilePath};
use crate::text::text_eq;
use vstd::prelude::*;

verus! {

/// Size from which a crate counts as a giant.
pub const HUGE_CUTOFF_BYTES: u64 = 1_000_000;

/// One entry of a walk through a crate's directory.
#[derive(Debug)]
pub struct WalkEntry {
    pub path: FilePath,
    pub is_file: bool,
    /// Length and, where it can be told, modification time in nanoseconds
    /// since the epoch; none when the file could not be examined.
    pub stat: Option<(u64, Option<u128>)>,
}

/// Whether a walk enters, or counts, an entry of this name: `target` is skipped.
pub fn is_walked(name: &str) -> (r: bool)
    ensures
        r == (name@ != "target"@),
{
    !text_eq(name, "target")
}

/// Whether an entry is a Rust source file.
pub fn is_source_file(is_file: bool, path: &FilePath) -> (r: bool)
    ensures
        r == (is_file && is_rust_source(path@)),
{
    is_file && path.is_rust_source()
}

/// The bytes that an entry counts for.
pub open spec fn counted(e: WalkEntry) -> nat {
    if e.is_file && is_rust_source(e.path@) {
        match e.stat {
            Some(s) => s.0 as nat,
            None => 0,
        }
    } else {
        0
    }
}

/// The bytes of the Rust source files among `entries`.
pub open spec fn rs_bytes(entries: Seq<WalkEntry>) -> nat
    decreases entries.len(),
{
    if entries.len() == 0 {
        0
    } else {
        rs_bytes(entries.drop_last()) + counted(entries.last())
    }
}

/// `bytes`, or `cap` if they are more.
pub open spec fn clamped(bytes: nat, cap: u64) -> u64 {
    if bytes >= cap {
        cap
    } else {
        bytes as u64
    }
}

/// The clamped size reaches the cap exactly where the true size does, so it
/// tells giants from the rest.
pub proof fn clamping_keeps_the_classification(bytes: nat, cap: u64)
    ensures
        clamped(bytes, cap) >= cap <==> bytes >= cap,
        bytes < cap ==> clamped(bytes, cap) == bytes,
{
}

/// Clamping may be done at every step: a total that was clamped on the way ends
/// where the true one does, and one that has reached the cap stays there.
pub proof fn clamping_may_be_done_early(bytes: nat, more: nat, cap: u64)
    ensures
        clamped((clamped(bytes, cap) + more) as nat, cap) == clamped(bytes + more, cap),
        bytes >= cap ==> clamped(bytes + more, cap) == cap,
{
}

/// A running total of bytes that stops counting at a cap.
#[derive(Debug)]
pub struct ByteCount {
    total: u64,
    cap: u64,
}

impl ByteCount {
    #[verifier::type_invariant]
    closed spec fn below_cap(self) -> bool {
        self.total <= self.cap
    }

    /// The bytes so far, clamped at the cap.
    pub closed spec fn total(&self) -> u64 {
        self.total
    }

    pub closed spec fn cap(&self) -> u64 {
        self.cap
    }

    pub fn new(cap: u64) -> (c: ByteCount)
        ensures
            c.total() == 0,
            c.cap() == cap,
    {
        ByteCount { total: 0, cap }
    }

    /// Adds a file; answers whether the cap is reached, so that no further
    /// file can change the total.
    pub fn add_file(&mut self, len: u64) -> (full: bool)
        ensures
            final(self).total() == clamped((old(self).total() + len) as nat, old(self).cap()),
            final(self).cap() == old(self).cap(),
            full == (old(self).total() + len >= old(self).cap()),
    {
        let sum = self.total.saturating_add(len);
        if sum >= self.cap {
            self.total = self.cap;
            true
        } else {
            self.total = sum;
            false
        }
    }

    /// Adds what an entry of a walk counts for; answers whether the cap is
    /// reached, so that the walk may stop.
    pub fn add_entry(&mut self, e: &WalkEntry) -> (full: bool)
        ensures
            final(self).total() == clamped(old(self).total() as nat + counted(*e), old(self).cap()),
            final(self).cap() == old(self).cap(),
            full == (old(self).total() + counted(*e) >= old(self).cap()),
    {
        let len: u64 = match e.stat {
            Some(stat) if is_source_file(e.is_file, &e.path) => stat.0,
            _ => 0,
        };
        self.add_file(len)
    }

    /// The bytes so far, clamped at the cap.
    pub fn bytes(&self) -> (n: u64)
        ensures
            n == self.total(),
            n <= self.cap(),
    {
        proof {
            use_type_invariant(self);
        }
        self.total
    }
}

proof fn lemma_rs_bytes_prefix(entries: Seq<WalkEntry>, k: int)
    requires
        0 <= k <= entries.len(),
    ensures
        rs_bytes(entries.take(k)) <= rs_bytes(entries),
    decreases entries.len(),
{
    if k < entries.len() {
        lemma_rs_bytes_prefix(entries.drop_last(), k);
        assert(entries.drop_last().take(k) =~= entries.take(k));
    } else {
        assert(entries.take(k) =~= entries);
    }
}

/// The bytes of the Rust source files among `entries`, or `cap` once they
/// reach it.
pub fn manifest_dir_rs_bytes_clamped(entries: &Vec<WalkEntry>, cap: u64) -> (n: u64)
    ensures
        n == clamped(rs_bytes(entries@), cap),
{
    let mut count = ByteCount::new(cap);
    let mut i: usize = 0;
    while i < entries.len()
        invariant
            i <= entries@.len(),
            count.cap() == cap,
            count.total() == clamped(rs_bytes(entries@.take(i as int)), cap),
        decreases entries@.len() - i,
    {
        let e = &entries[i];
        assert(entries@.take(i + 1).drop_last() =~= entries@.take(i as int));
        proof {
            lemma_rs_bytes_prefix(entries@, i + 1);
        }
        if count.add_entry(e) {
            return count.bytes();
        }
        i += 1;
    }
    assert(entries@.take(i as int) =~= entries@);
    count.bytes()
}

/// The size proxy of a crate.
pub fn estimate(entries: &Vec<WalkEntry>) -> (n: u64)
    ensures
        n == clamped(rs_bytes(entries@), HUGE_CUTOFF_BYTES),
{
    manifest_dir_rs_bytes_clamped(entries, HUGE_CUTOFF_BYTES)
}

} // verus!
