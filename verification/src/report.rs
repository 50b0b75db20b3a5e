//! Result aggregation, the sink of the pipeline: output in an order that does
//! not depend on which batch was done first, and failures attributed to files.

use crate::order::{sorted, sorting_orders_and_keeps, stable_sort, unique_order, Ranked};
use crate::path::{path_le, path_order_is_total, path_order_is_transitive, same_path};
use crate::types::{BatchFile, BatchResult, FileFailure, Report};
use vstd::prelude::*;

verus! {

impl Ranked for BatchResult {
    open spec fn ranks_le(self, other: Self) -> bool {
        path_le(self.sort_key@, other.sort_key@)
    }

    proof fn ranks_total(a: Self, b: Self) {
        path_order_is_total(a.sort_key@, b.sort_key@);
    }

    proof fn ranks_transitive(a: Self, b: Self, c: Self) {
        path_order_is_transitive(a.sort_key@, b.sort_key@, c.sort_key@);
    }

    fn at_or_before(&self, other: &Self) -> (r: bool) {
        self.sort_key.at_or_before(&other.sort_key)
    }
}

/// What a sequence of failures holds: files with their crates.
pub open spec fn failure_views(v: Seq<FileFailure>) -> Seq<(Seq<u8>, Seq<u8>)> {
    v.map_values(|f: FileFailure| (f.file@, f.manifest_dir@))
}

/// Every file of every batch that did not end with code 0.
pub open spec fn failed_files(results: Seq<BatchResult>) -> Seq<(Seq<u8>, Seq<u8>)>
    decreases results.len(),
{
    if results.len() == 0 {
        Seq::empty()
    } else {
        let front = failed_files(results.drop_last());
        if results.last().exit_code != 0 {
            front + results.last().files@.map_values(|b: BatchFile| (b.file@, b.manifest_dir@))
        } else {
            front
        }
    }
}

/// Whether every batch ended with code 0.
pub open spec fn all_clean(results: Seq<BatchResult>) -> bool {
    forall|i: int| 0 <= i < results.len() ==> (#[trigger] results[i]).exit_code == 0
}

proof fn lemma_sorted_clean(results: Seq<BatchResult>)
    ensures
        all_clean(sorted(results)) <==> all_clean(results),
{
    broadcast use vstd::seq_lib::group_to_multiset_ensures;

    sorting_orders_and_keeps(results);
    let all = sorted(results);
    if all_clean(all) {
        assert forall|i: int| 0 <= i < results.len() implies (
        #[trigger] results[i]).exit_code == 0 by {
            assert(results.contains(results[i]));
            assert(results.to_multiset().count(results[i]) > 0);
            let k = choose|k: int| 0 <= k < all.len() && all[k] == results[i];
            assert(all[k].exit_code == 0);
        }
    }
    if all_clean(results) {
        assert forall|i: int| 0 <= i < all.len() implies (#[trigger] all[i]).exit_code == 0 by {
            assert(all.contains(all[i]));
            assert(all.to_multiset().count(all[i]) > 0);
            let k = choose|k: int| 0 <= k < results.len() && results[k] == all[i];
            assert(results[k].exit_code == 0);
        }
    }
}

/// The batches in the order in which their output is printed, and the report.
#[derive(Debug)]
pub struct Aggregated {
    pub results: Vec<BatchResult>,
    pub report: Report,
}

/// Orders the results by sort key and attributes failures to files.
pub fn aggregate(results: Vec<BatchResult>) -> (a: Aggregated)
    ensures
        a.results@ == sorted(results@),
        failure_views(a.report.failures@) == failed_files(sorted(results@)),
        a.report.exit_code == if all_clean(results@) {
            0i32
        } else {
            1i32
        },
{
    proof {
        lemma_sorted_clean(results@);
    }
    let results = stable_sort(results);
    let ghost all = results@;
    let mut failures: Vec<FileFailure> = Vec::new();
    let mut exit_code: i32 = 0;
    let mut i: usize = 0;
    assert(all.take(0) =~= Seq::<BatchResult>::empty());
    assert(failure_views(failures@) =~= Seq::empty());
    while i < results.len()
        invariant
            i <= results@.len(),
            all == results@,
            failure_views(failures@) == failed_files(all.take(i as int)),
            exit_code == if all_clean(all.take(i as int)) {
                0i32
            } else {
                1i32
            },
        decreases results@.len() - i,
    {
        let ghost before = all.take(i as int);
        let ghost after = all.take(i + 1);
        assert(after.drop_last() =~= before);
        assert(forall|k: int| 0 <= k < i ==> #[trigger] after[k] == before[k]);
        let r = &results[i];
        assert(after[i as int] == *r);
        if r.exit_code != 0 {
            exit_code = 1;
            assert(!all_clean(after));
            let ghost done = failure_views(failures@);
            let ghost mine = r.files@.map_values(|b: BatchFile| (b.file@, b.manifest_dir@));
            let mut j: usize = 0;
            assert(done + mine.take(0) =~= done);
            while j < r.files.len()
                invariant
                    j <= r.files@.len(),
                    mine == r.files@.map_values(|b: BatchFile| (b.file@, b.manifest_dir@)),
                    failure_views(failures@) == done + mine.take(j as int),
                decreases r.files@.len() - j,
            {
                let ghost old_failures = failures@;
                failures.push(
                    FileFailure {
                        file: r.files[j].file.clone(),
                        manifest_dir: r.files[j].manifest_dir.clone(),
                    },
                );
                assert(failure_views(failures@) =~= failure_views(old_failures).push(
                    mine[j as int],
                ));
                assert(done + mine.take(j + 1) =~= (done + mine.take(j as int)).push(
                    mine[j as int],
                ));
                j += 1;
            }
            assert(mine.take(j as int) =~= mine);
        } else {
            assert(all_clean(before) <==> all_clean(after)) by {
                if all_clean(after) {
                    assert forall|k: int| 0 <= k < before.len() implies (
                    #[trigger] before[k]).exit_code == 0 by {
                        assert(after[k] == before[k]);
                    }
                }
                if all_clean(before) {
                    assert forall|k: int| 0 <= k < after.len() implies (
                    #[trigger] after[k]).exit_code == 0 by {
                        if k < i {
                            assert(after[k] == before[k]);
                        }
                    }
                }
            }
        }
        i += 1;
    }
    assert(all.take(i as int) =~= all);
    Aggregated { results, report: Report { failures, exit_code } }
}

/// Whatever the order in which batches finish, they are reported in the same
/// order, as long as no two of them have the same sort key.
pub proof fn order_of_arrival_does_not_matter(a: Seq<BatchResult>, b: Seq<BatchResult>)
    requires
        a.to_multiset() == b.to_multiset(),
        forall|i: int, j: int|
            0 <= i < a.len() && 0 <= j < a.len() && same_path(
                (#[trigger] a[i]).sort_key@,
                (#[trigger] a[j]).sort_key@,
            ) ==> a[i] == a[j],
    ensures
        sorted(a) == sorted(b),
{
    assert forall|i: int, j: int|
        0 <= i < a.len() && 0 <= j < a.len() && (#[trigger] a[i]).ranks_le(#[trigger] a[j])
            && a[j].ranks_le(a[i]) implies a[i] == a[j] by {
        path_order_is_total(a[i].sort_key@, a[j].sort_key@);
    }
    unique_order(a, b);
}

/// A clean run has no failures.
pub proof fn clean_runs_report_nothing(results: Seq<BatchResult>)
    requires
        all_clean(results),
    ensures
        failed_files(results).len() == 0,
    decreases results.len(),
{
    if results.len() > 0 {
        let front = results.drop_last();
        assert forall|i: int| 0 <= i < front.len() implies (#[trigger] front[i]).exit_code == 0 by {
            assert(front[i] == results[i]);
        }
        clean_runs_report_nothing(front);
        assert(results[results.len() - 1] == results.last());
    }
}

/// Every file of a batch that failed is reported, with its crate.
pub proof fn failures_are_attributed(results: Seq<BatchResult>, r: int, i: int)
    requires
        0 <= r < results.len(),
        results[r].exit_code != 0,
        0 <= i < results[r].files@.len(),
    ensures
        failed_files(results).contains(
            (results[r].files@[i].file@, results[r].files@[i].manifest_dir@),
        ),
    decreases results.len(),
{
    let front = failed_files(results.drop_last());
    let all = failed_files(results);
    let f = (results[r].files@[i].file@, results[r].files@[i].manifest_dir@);
    if r < results.len() - 1 {
        failures_are_attributed(results.drop_last(), r, i);
        let k = choose|k: int| 0 <= k < front.len() && front[k] == f;
        assert(all[k] == f);
    } else {
        assert(all[front.len() + i] == f);
    }
}

} // verus!
