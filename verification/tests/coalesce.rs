//! Batching and dispatch.

use cargo_ff::coalesce::{flush_window, run, Coalescer, DEFAULT_PACK_MULTIPLIER};
use cargo_ff::dispatch::{Pop, PriorityQueue};
use cargo_ff::path::FilePath;
use cargo_ff::types::{Batch, CrateUnit, Edition};

fn unit(edition: Edition, size_bytes: u64, name: &str) -> CrateUnit {
    CrateUnit {
        edition,
        manifest_dir: FilePath::from_text(name),
        files: vec![FilePath::from_text(name)],
        size_bytes,
    }
}

fn batch(edition: Edition, units: Vec<CrateUnit>) -> Batch {
    Batch { edition, units }
}

/// Coalesces the units, then drains every batch through the queue.
fn coalesce(units: Vec<CrateUnit>, batch_size: usize, solo_threshold: u64) -> Vec<Batch> {
    let mut queue = PriorityQueue::new();
    for b in run(units, batch_size, 4, solo_threshold) {
        queue.push(b);
    }
    queue.close();
    let mut batches = Vec::new();
    loop {
        match queue.pop() {
            Pop::Ready(b) => batches.push(b),
            Pop::Pending => panic!("a closed queue does not wait"),
            Pop::Closed => break,
        }
    }
    batches
}

fn names(b: &Batch) -> Vec<String> {
    b.units.iter().map(|u| u.manifest_dir.display()).collect()
}

#[test]
fn units_at_or_above_threshold_ship_solo() {
    let batches = coalesce(
        vec![
            unit(Edition::E2021, 1_000_000, "giant"),
            unit(Edition::E2021, 10, "small"),
        ],
        3,
        1_000_000,
    );
    let solo = batches
        .iter()
        .find(|b| b.units.iter().any(|u| u.size_bytes >= 1_000_000));
    assert!(solo.is_some(), "the giant must be dispatched");
    assert_eq!(
        solo.unwrap().units.len(),
        1,
        "a unit at the solo threshold ships as its own batch",
    );
}

#[test]
fn batches_never_mix_editions() {
    let mut units = Vec::new();
    for i in 0..6 {
        units.push(unit(Edition::E2018, 10 + i, &format!("a{i}")));
        units.push(unit(Edition::E2021, 10 + i, &format!("b{i}")));
    }
    let batches = coalesce(units, 3, 1_000_000);

    for b in &batches {
        let editions: std::collections::HashSet<Edition> =
            b.units.iter().map(|u| u.edition).collect();
        assert_eq!(editions.len(), 1, "rustfmt takes one --edition per process");
    }
    let total: usize = batches.iter().map(|b| b.units.len()).sum();
    assert_eq!(total, 12, "every unit lands in exactly one batch");
}

#[test]
fn packs_all_units_without_dropping_any() {
    // 5 small same-edition units, batch_size 2 -> 3 non-empty bins.
    let units = (0..5)
        .map(|i| unit(Edition::E2021, 10, &format!("c{i}")))
        .collect();
    let batches = coalesce(units, 2, 1_000_000);

    let total: usize = batches.iter().map(|b| b.units.len()).sum();
    assert_eq!(total, 5);
    assert!(
        batches.iter().all(|b| !b.units.is_empty()),
        "the packer never emits an empty batch",
    );
}

#[test]
fn flush_packs_the_largest_first_into_the_lightest_batch() {
    let units = vec![
        unit(Edition::E2021, 1, "one"),
        unit(Edition::E2021, 7, "seven"),
        unit(Edition::E2021, 5, "five"),
        unit(Edition::E2021, 4, "four"),
    ];
    let batches = flush_window(units, 2);
    assert_eq!(batches.len(), 2);
    assert_eq!(names(&batches[0]), vec!["seven", "one"]);
    assert_eq!(names(&batches[1]), vec!["five", "four"]);
    assert!(batches.iter().all(|b| b.edition == Edition::E2021));
}

#[test]
fn crates_without_bytes_are_spread_over_the_batches() {
    let empty = |name: &str| unit(Edition::E2021, 0, name);
    let batches = flush_window(vec![empty("a"), empty("b")], 1);
    assert_eq!(batches.len(), 2);
    assert_eq!(names(&batches[0]), vec!["a"]);
    assert_eq!(names(&batches[1]), vec!["b"]);

    // Two bins for three crates: both are filled before one is filled further.
    let batches = flush_window(vec![empty("a"), empty("b"), empty("c")], 2);
    assert_eq!(batches.len(), 2);
    assert_eq!(names(&batches[0]), vec!["a", "c"]);
    assert_eq!(names(&batches[1]), vec!["b"]);

    let mixed = vec![empty("a"), unit(Edition::E2021, 5, "big"), empty("b")];
    let batches = flush_window(mixed, 1);
    assert_eq!(batches.len(), 3);
    assert_eq!(names(&batches[0]), vec!["big"]);
}

#[test]
fn batch_size_one_dispatches_each_crate_alone() {
    let units = (0..9)
        .map(|i| unit(Edition::E2021, if i % 3 == 0 { 0 } else { i }, &format!("c{i}")))
        .collect();
    let batches = coalesce(units, 1, 1_000_000);
    assert_eq!(batches.len(), 9);
    assert!(batches.iter().all(|b| b.units.len() == 1));
}

#[test]
fn nothing_to_flush_gives_no_batch() {
    assert!(flush_window(Vec::new(), 3).is_empty());
    assert!(run(Vec::new(), 3, DEFAULT_PACK_MULTIPLIER, 10).is_empty());
}

#[test]
fn a_full_window_is_flushed_and_leftovers_follow_at_the_end() {
    let mut c = Coalescer::new(1, 2, 1_000_000);
    assert!(c.accept(unit(Edition::E2021, 3, "a")).is_empty());
    let flushed = c.accept(unit(Edition::E2021, 9, "b"));
    assert_eq!(flushed.len(), 2);
    assert_eq!(names(&flushed[0]), vec!["b"]);
    assert_eq!(names(&flushed[1]), vec!["a"]);
    assert!(c.accept(unit(Edition::E2018, 1, "c")).is_empty());
    let solo = c.accept(unit(Edition::E2018, 1_000_000, "d"));
    assert_eq!(solo.len(), 1);
    assert_eq!(names(&solo[0]), vec!["d"]);
    let rest = c.finish();
    assert_eq!(rest.len(), 1);
    assert_eq!(names(&rest[0]), vec!["c"]);
}

#[test]
fn the_queue_hands_out_the_largest_batch_first() {
    let mut q = PriorityQueue::new();
    for (size, name) in [(3u64, "c"), (9, "a"), (5, "b"), (1, "d")] {
        q.push(batch(Edition::E2021, vec![unit(Edition::E2021, size, name)]));
    }
    let mut order = Vec::new();
    for _ in 0..4 {
        match q.pop() {
            Pop::Ready(b) => order.extend(names(&b)),
            other => panic!("unexpected {other:?}"),
        }
    }
    assert_eq!(order, vec!["a", "b", "c", "d"]);
    assert!(matches!(q.pop(), Pop::Pending));
    q.close();
    assert!(matches!(q.pop(), Pop::Closed));
}

#[test]
fn a_closed_queue_is_drained_before_it_ends() {
    let mut q = PriorityQueue::new();
    q.push(batch(Edition::E2015, vec![unit(Edition::E2015, 2, "x")]));
    q.close();
    assert!(matches!(q.pop(), Pop::Ready(_)));
    assert!(matches!(q.pop(), Pop::Closed));
}
