//! What holds of every report.

use crate::order::{sorted, sorting_orders_and_keeps, Ranked};
use crate::path::path_le;
use crate::report::{aggregate, all_clean, failed_files, failure_views, Aggregated};
use crate::types::{BatchResult, FileFailure};
use vstd::prelude::*;

verus! {

/// Nothing clean is blamed: whatever is reported is a file of a batch that
/// failed, with the crate that it has there.
pub proof fn nothing_clean_is_blamed(results: Seq<BatchResult>, k: int)
    requires
        0 <= k < failed_files(results).len(),
    ensures
        exists|r: int, i: int|
            0 <= r < results.len() && results[r].exit_code != 0 && 0 <= i < results[r].files@.len()
                && failed_files(results)[k] == (
                (#[trigger] results[r].files@[i]).file@,
                results[r].files@[i].manifest_dir@,
            ),
    decreases results.len(),
{
    if results.len() > 0 {
        let init = results.drop_last();
        let front = failed_files(init);
        let last = results.last();
        assert(results[results.len() - 1] == last);
        if k < front.len() {
            nothing_clean_is_blamed(init, k);
            let (r, i) = choose|r: int, i: int|
                0 <= r < init.len() && init[r].exit_code != 0 && 0 <= i < init[r].files@.len()
                    && front[k] == (
                    (#[trigger] init[r].files@[i]).file@,
                    init[r].files@[i].manifest_dir@,
                );
            assert(init[r] == results[r]);
            assert(failed_files(results)[k] == front[k]);
            assert(results[r].files@[i].file@ == failed_files(results)[k].0);
        } else {
            let i = k - front.len();
            assert(last.exit_code != 0);
            assert(results[results.len() - 1].files@[i].file@ == failed_files(results)[k].0);
        }
    }
}

/// One more batch adds all of its files if it failed and nothing if it did not.
pub proof fn one_more_batch_adds_its_failures(results: Seq<BatchResult>, r: BatchResult)
    ensures
        failed_files(Seq::empty()).len() == 0,
        r.exit_code == 0 ==> failed_files(results.push(r)) == failed_files(results),
        r.exit_code != 0 ==> failed_files(results.push(r)) == failed_files(results) + Seq::new(
            r.files@.len(),
            |i: int| (r.files@[i].file@, r.files@[i].manifest_dir@),
        ),
{
    assert(results.push(r).drop_last() =~= results);
    if r.exit_code != 0 {
        assert(failed_files(results.push(r)) =~= failed_files(results) + Seq::new(
            r.files@.len(),
            |i: int| (r.files@[i].file@, r.files@[i].manifest_dir@),
        ));
    }
}

/// A run is clean exactly where no batch ended with another code than 0.
pub proof fn a_run_is_clean_where_every_batch_is(results: Seq<BatchResult>)
    ensures
        all_clean(results) <==> !exists|i: int|
            0 <= i < results.len() && (#[trigger] results[i]).exit_code != 0,
{
}

/// Output comes in the order of the sort keys, all of it and each once.
pub proof fn output_is_in_the_order_of_sort_keys(results: Seq<BatchResult>)
    ensures
        sorted(results).to_multiset() == results.to_multiset(),
        forall|i: int, j: int|
            0 <= i <= j < sorted(results).len() ==> path_le(
                (#[trigger] sorted(results)[i]).sort_key@,
                (#[trigger] sorted(results)[j]).sort_key@,
            ),
{
    sorting_orders_and_keeps(results);
    let s = sorted(results);
    assert forall|i: int, j: int| 0 <= i <= j < s.len() implies path_le(
        (#[trigger] s[i]).sort_key@,
        (#[trigger] s[j]).sort_key@,
    ) by {
        assert(s[i].ranks_le(s[j]));
    }
}

/// What a vector of failures holds is what each of them holds.
pub proof fn reports_hold_each_failure(failures: Seq<FileFailure>)
    ensures
        failure_views(failures).len() == failures.len(),
        forall|i: int|
            0 <= i < failures.len() ==> failure_views(failures)[i] == (
                (#[trigger] failures[i]).file@,
                failures[i].manifest_dir@,
            ),
{
}

/// Whether a failure is a file, with its crate, of a batch that failed.
pub open spec fn of_a_failed_batch(f: FileFailure, results: Seq<BatchResult>) -> bool {
    exists|r: int, i: int|
        0 <= r < results.len() && results[r].exit_code != 0 && 0 <= i < results[r].files@.len()
            && f.file@ == (#[trigger] results[r].files@[i]).file@ && f.manifest_dir@
            == results[r].files@[i].manifest_dir@
}

/// A report ends with 0 where every batch did and with 1 elsewhere, and every
/// failure in it is a file, with its crate, of a batch that failed.
pub proof fn a_report_blames_only_failed_batches(results: Vec<BatchResult>, a: Aggregated)
    requires
        call_ensures(aggregate, (results,), a),
    ensures
        a.report.exit_code == 0 || a.report.exit_code == 1,
        a.report.exit_code == 1 <==> exists|r: int|
            0 <= r < results@.len() && (#[trigger] results@[r]).exit_code != 0,
        forall|k: int|
            0 <= k < a.report.failures@.len() ==> of_a_failed_batch(
                #[trigger] a.report.failures@[k],
                results@,
            ),
{
    broadcast use vstd::seq_lib::group_to_multiset_ensures;

    let all = results@;
    let s = sorted(all);
    let failures = a.report.failures@;
    sorting_orders_and_keeps(all);
    assert(failure_views(failures).len() == failures.len());
    assert forall|k: int| 0 <= k < failures.len() implies of_a_failed_batch(
        #[trigger] failures[k],
        all,
    ) by {
        assert(failure_views(failures)[k] == (failures[k].file@, failures[k].manifest_dir@));
        nothing_clean_is_blamed(s, k);
        let (q, i) = choose|q: int, i: int|
            0 <= q < s.len() && s[q].exit_code != 0 && 0 <= i < s[q].files@.len()
                && failed_files(s)[k] == (
                (#[trigger] s[q].files@[i]).file@,
                s[q].files@[i].manifest_dir@,
            );
        assert(s.contains(s[q]));
        assert(all.to_multiset().count(s[q]) > 0);
        assert(all.contains(s[q]));
        let r = choose|r: int| 0 <= r < all.len() && all[r] == s[q];
        assert(failures[k].file@ == all[r].files@[i].file@);
    }
}

} // verus!
