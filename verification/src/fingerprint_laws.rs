//! What holds of every fingerprint.

use crate::fingerprint::{
    fp_insert, fp_rank, fp_same, fp_sorted, fp_time, lemma_fp_insert_sorted, lemma_fp_rank,
    Fingerprint,
};
use crate::path::{path_le, path_order_is_total, path_order_is_transitive, same_path};
use vstd::prelude::*;
use vstd::std_specs::cmp::PartialEqSpec;

verus! {

/// A fingerprint has a time for exactly the files that are in it, and it is the
/// one that stands with the file.
pub proof fn a_time_is_that_of_its_file(s: Seq<(Seq<u8>, u128)>, p: Seq<u8>, m: u128)
    requires
        fp_sorted(s),
    ensures
        fp_time(s, p) == Some(m) <==> exists|i: int|
            0 <= i < s.len() && same_path((#[trigger] s[i]).0, p) && s[i].1 == m,
        fp_time(s, p) is None <==> forall|i: int|
            0 <= i < s.len() ==> !same_path((#[trigger] s[i]).0, p),
{
    lemma_fp_rank(s, p);
    let k = fp_rank(s, p) as int;
    assert forall|i: int| 0 <= i < s.len() && same_path((#[trigger] s[i]).0, p) implies i == k by {
        path_order_is_total(p, s[i].0);
        if i > k {
            assert(path_le(s[k].0, s[i].0));
            path_order_is_transitive(s[k].0, s[i].0, p);
            path_order_is_total(p, s[k].0);
        }
    }
}

/// Recording a file leaves the times of all others, and adds a file only where
/// there was none.
pub proof fn recording_changes_one_file(
    s: Seq<(Seq<u8>, u128)>,
    p: Seq<u8>,
    m: u128,
    q: Seq<u8>,
)
    requires
        fp_sorted(s),
    ensures
        fp_sorted(fp_insert(s, p, m)),
        same_path(p, q) ==> fp_time(fp_insert(s, p, m), q) == Some(m),
        !same_path(p, q) ==> fp_time(fp_insert(s, p, m), q) == fp_time(s, q),
        fp_insert(s, p, m).len() == s.len() + (if fp_time(s, p) is Some {
            0int
        } else {
            1
        }),
{
    lemma_fp_rank(s, p);
    lemma_fp_insert_sorted(s, p, m);
    let k = fp_rank(s, p) as int;
    let t = fp_insert(s, p, m);
    assert(same_path(t[k].0, p) && t[k].1 == m);
    if same_path(p, q) {
        a_time_is_that_of_its_file(t, q, m);
        assert(same_path(t[k].0, q));
    } else {
        let at = fp_time(s, q);
        if at is Some {
            a_time_is_that_of_its_file(s, q, at->0);
            a_time_is_that_of_its_file(t, q, at->0);
            let i = choose|i: int|
                0 <= i < s.len() && same_path((#[trigger] s[i]).0, q) && s[i].1 == at->0;
            if t.len() == s.len() {
                assert(t[i].0 == s[i].0);
                assert(i != k);
                assert(t[i] == s[i]);
            } else if i < k {
                assert(t[i] == s[i]);
            } else {
                assert(t[i + 1] == s[i]);
            }
        } else {
            a_time_is_that_of_its_file(s, q, 0);
            a_time_is_that_of_its_file(t, q, 0);
            assert forall|i: int| 0 <= i < t.len() implies !same_path((#[trigger] t[i]).0, q) by {
                if t.len() == s.len() {
                    assert(t[i].0 == s[i].0);
                } else if i < k {
                    assert(t[i] == s[i]);
                } else if i > k {
                    assert(t[i] == s[i - 1]);
                }
            }
        }
    }
}

/// A file that is recorded again keeps its place and the text of its path.
pub proof fn a_recorded_file_keeps_its_text(
    s: Seq<(Seq<u8>, u128)>,
    p: Seq<u8>,
    m: u128,
    i: int,
)
    requires
        fp_sorted(s),
        0 <= i < s.len(),
        same_path(s[i].0, p),
    ensures
        fp_insert(s, p, m) == s.update(i, (s[i].0, m)),
{
    lemma_fp_rank(s, p);
    let k = fp_rank(s, p) as int;
    path_order_is_total(p, s[i].0);
    if i > k {
        assert(path_le(s[k].0, s[i].0));
        path_order_is_transitive(s[k].0, s[i].0, p);
        path_order_is_total(p, s[k].0);
    }
}

/// A new file is recorded under its own path, between the files that are there.
pub proof fn a_new_file_is_recorded_as_it_is(s: Seq<(Seq<u8>, u128)>, p: Seq<u8>, m: u128)
    requires
        fp_sorted(s),
        forall|i: int| 0 <= i < s.len() ==> !same_path((#[trigger] s[i]).0, p),
    ensures
        exists|k: int|
            0 <= k <= s.len() && fp_insert(s, p, m) == #[trigger] s.insert(k, (p, m)),
{
    lemma_fp_rank(s, p);
    let k = fp_rank(s, p) as int;
    assert(fp_insert(s, p, m) == s.insert(k, (p, m)));
}

/// Fingerprints that differ in the time of any file, or in whether any file is
/// there, are not the same.
pub proof fn a_difference_is_noticed(
    a: Seq<(Seq<u8>, u128)>,
    b: Seq<(Seq<u8>, u128)>,
    p: Seq<u8>,
)
    requires
        fp_sorted(a),
        fp_sorted(b),
        fp_time(a, p) != fp_time(b, p),
    ensures
        !fp_same(a, b),
{
    if fp_same(a, b) {
        if fp_time(a, p) is Some {
            let m = fp_time(a, p)->0;
            a_time_is_that_of_its_file(a, p, m);
            a_time_is_that_of_its_file(b, p, m);
            let i = choose|i: int|
                0 <= i < a.len() && same_path((#[trigger] a[i]).0, p) && a[i].1 == m;
            assert(same_path(b[i].0, p) && b[i].1 == m);
        } else {
            let m = fp_time(b, p)->0;
            a_time_is_that_of_its_file(a, p, m);
            a_time_is_that_of_its_file(b, p, m);
            let i = choose|i: int|
                0 <= i < b.len() && same_path((#[trigger] b[i]).0, p) && b[i].1 == m;
            assert(same_path(a[i].0, b[i].0));
        }
    }
}

proof fn lemma_same_places(a: Seq<(Seq<u8>, u128)>, b: Seq<(Seq<u8>, u128)>, i: int)
    requires
        fp_sorted(a),
        fp_sorted(b),
        forall|p: Seq<u8>| #[trigger] fp_time(a, p) == fp_time(b, p),
        0 <= i < a.len(),
    ensures
        i < b.len() && same_path(a[i].0, b[i].0) && a[i].1 == b[i].1,
    decreases i,
{
    let p = a[i].0;
    let m = a[i].1;
    a_time_is_that_of_its_file(a, p, m);
    a_time_is_that_of_its_file(b, p, m);
    assert(same_path(a[i].0, p));
    assert(fp_time(a, p) == Some(m));
    assert(fp_time(b, p) == Some(m));
    let j = choose|j: int| 0 <= j < b.len() && same_path((#[trigger] b[j]).0, p) && b[j].1 == m;
    if j < i {
        lemma_same_places(a, b, j);
        assert(same_path(a[j].0, a[i].0));
    } else if j > i {
        let q = b[i].0;
        a_time_is_that_of_its_file(b, q, b[i].1);
        a_time_is_that_of_its_file(a, q, b[i].1);
        assert(same_path(b[i].0, q));
        assert(fp_time(b, q) == Some(b[i].1));
        assert(fp_time(a, q) == Some(b[i].1));
        let l = choose|l: int|
            0 <= l < a.len() && same_path((#[trigger] a[l]).0, q) && a[l].1 == b[i].1;
        if l < i {
            lemma_same_places(a, b, l);
            assert(same_path(b[l].0, b[i].0));
        } else if l > i {
            assert(path_le(a[i].0, a[l].0) && path_le(b[i].0, b[j].0));
            path_order_is_total(a[i].0, b[j].0);
            path_order_is_total(a[l].0, b[i].0);
            path_order_is_transitive(a[l].0, b[i].0, b[j].0);
            path_order_is_transitive(a[l].0, b[j].0, a[i].0);
            path_order_is_total(a[i].0, a[l].0);
        }
    }
}

/// Fingerprints that have the same time, or none, for every path are the same.
pub proof fn equal_times_are_the_same(a: Seq<(Seq<u8>, u128)>, b: Seq<(Seq<u8>, u128)>)
    requires
        fp_sorted(a),
        fp_sorted(b),
        forall|p: Seq<u8>| #[trigger] fp_time(a, p) == fp_time(b, p),
    ensures
        fp_same(a, b),
{
    if a.len() > 0 {
        lemma_same_places(a, b, a.len() - 1);
    }
    if b.len() > 0 {
        lemma_same_places(b, a, b.len() - 1);
    }
    assert forall|i: int| 0 <= i < a.len() implies same_path((#[trigger] a[i]).0, b[i].0) && a[i].1
        == b[i].1 by {
        lemma_same_places(a, b, i);
    }
}

/// Fingerprints are equal exactly where they have the same time, or none, for
/// every path.
pub proof fn equal_fingerprints_have_equal_times(a: Fingerprint, b: Fingerprint)
    requires
        fp_sorted(a@),
        fp_sorted(b@),
    ensures
        a.eq_spec(&b) <==> forall|p: Seq<u8>| #[trigger] fp_time(a@, p) == fp_time(b@, p),
{
    if forall|p: Seq<u8>| #[trigger] fp_time(a@, p) == fp_time(b@, p) {
        equal_times_are_the_same(a@, b@);
    } else {
        let p = choose|p: Seq<u8>| #[trigger] fp_time(a@, p) != fp_time(b@, p);
        a_difference_is_noticed(a@, b@, p);
    }
}

} // verus!
