//! Fingerprints: which Rust source files a crate has and when each was
//! modified.

use crate::path::{path_le, path_order_is_total, path_order_is_transitive, same_path, FilePath};
use vstd::prelude::*;

verus! {

/// Files and modification times, as a fingerprint holds them.
pub open spec fn fp_sorted(s: Seq<(Seq<u8>, u128)>) -> bool {
    forall|i: int, j: int|
        0 <= i < j < s.len() ==> path_le((#[trigger] s[i]).0, (#[trigger] s[j]).0) && !same_path(
            s[i].0,
            s[j].0,
        )
}

/// How many files at the front of `s` come strictly before `p`.
pub open spec fn fp_rank(s: Seq<(Seq<u8>, u128)>, p: Seq<u8>) -> nat
    decreases s.len(),
{
    if s.len() > 0 && !path_le(p, s[0].0) {
        1 + fp_rank(s.drop_first(), p)
    } else {
        0
    }
}

/// `s` with the time `m` for the file `p`: a file that is there keeps its place
/// and text, another goes to its place in the order.
pub open spec fn fp_insert(s: Seq<(Seq<u8>, u128)>, p: Seq<u8>, m: u128) -> Seq<
    (Seq<u8>, u128),
> {
    let k = fp_rank(s, p) as int;
    if k < s.len() && same_path(s[k].0, p) {
        s.update(k, (s[k].0, m))
    } else {
        s.insert(k, (p, m))
    }
}

/// Whether two fingerprints name the same files with the same times.
pub open spec fn fp_same(a: Seq<(Seq<u8>, u128)>, b: Seq<(Seq<u8>, u128)>) -> bool {
    &&& a.len() == b.len()
    &&& forall|i: int|
        0 <= i < a.len() ==> same_path((#[trigger] a[i]).0, b[i].0) && a[i].1 == b[i].1
}

/// The time that `s` has for the file `p`.
pub open spec fn fp_time(s: Seq<(Seq<u8>, u128)>, p: Seq<u8>) -> Option<u128> {
    let k = fp_rank(s, p) as int;
    if k < s.len() && same_path(s[k].0, p) {
        Some(s[k].1)
    } else {
        None
    }
}

pub proof fn lemma_fp_rank(s: Seq<(Seq<u8>, u128)>, p: Seq<u8>)
    ensures
        fp_rank(s, p) <= s.len(),
        forall|i: int| 0 <= i < fp_rank(s, p) ==> !path_le(p, (#[trigger] s[i]).0),
        fp_rank(s, p) < s.len() ==> path_le(p, s[fp_rank(s, p) as int].0),
    decreases s.len(),
{
    if s.len() > 0 && !path_le(p, s[0].0) {
        lemma_fp_rank(s.drop_first(), p);
        let n = fp_rank(s.drop_first(), p) as int;
        assert forall|i: int| 0 <= i < fp_rank(s, p) implies !path_le(p, (#[trigger] s[i]).0) by {
            if i > 0 {
                assert(s[i] == s.drop_first()[i - 1]);
            }
        }
        if n < s.drop_first().len() {
            assert(s.drop_first()[n] == s[n + 1]);
        }
    }
}

pub proof fn lemma_fp_rank_unique(s: Seq<(Seq<u8>, u128)>, p: Seq<u8>, n: nat)
    requires
        n <= s.len(),
        forall|i: int| 0 <= i < n ==> !path_le(p, (#[trigger] s[i]).0),
        n < s.len() ==> path_le(p, s[n as int].0),
    ensures
        fp_rank(s, p) == n,
    decreases s.len(),
{
    if n > 0 {
        assert(!path_le(p, s[0].0));
        assert forall|i: int| 0 <= i < n - 1 implies !path_le(
            p,
            (#[trigger] s.drop_first()[i]).0,
        ) by {
            assert(s.drop_first()[i] == s[i + 1]);
        }
        if n < s.len() {
            assert(s.drop_first()[n - 1] == s[n as int]);
        }
        lemma_fp_rank_unique(s.drop_first(), p, (n - 1) as nat);
    }
}

/// Recording a file keeps a fingerprint in order, without a file twice.
pub proof fn lemma_fp_insert_sorted(s: Seq<(Seq<u8>, u128)>, p: Seq<u8>, m: u128)
    requires
        fp_sorted(s),
    ensures
        fp_sorted(fp_insert(s, p, m)),
{
    lemma_fp_rank(s, p);
    let k = fp_rank(s, p) as int;
    let t = fp_insert(s, p, m);
    if k < s.len() && same_path(s[k].0, p) {
        assert forall|i: int, j: int| 0 <= i < j < t.len() implies path_le(
            (#[trigger] t[i]).0,
            (#[trigger] t[j]).0,
        ) && !same_path(t[i].0, t[j].0) by {
            assert(t[i].0 == s[i].0 && t[j].0 == s[j].0);
            assert(path_le(s[i].0, s[j].0));
        }
    } else {
        assert forall|i: int, j: int| 0 <= i < j < t.len() implies path_le(
            (#[trigger] t[i]).0,
            (#[trigger] t[j]).0,
        ) && !same_path(t[i].0, t[j].0) by {
            let a = if i < k { i } else { i - 1 };
            let b = if j < k { j } else { j - 1 };
            if i != k {
                assert(t[i] == s[a]);
            }
            if j != k {
                assert(t[j] == s[b]);
            }
            if i == k {
                path_order_is_total(p, s[b].0);
                path_order_is_total(p, s[k].0);
                if b > k {
                    assert(path_le(s[k].0, s[b].0));
                    path_order_is_transitive(p, s[k].0, s[b].0);
                    path_order_is_total(s[k].0, s[b].0);
                    if same_path(p, s[b].0) {
                        assert(path_le(s[b].0, p));
                        path_order_is_transitive(s[b].0, p, s[k].0);
                    }
                }
            } else if j == k {
                path_order_is_total(p, s[a].0);
            } else {
                assert(path_le(s[a].0, s[b].0));
            }
        }
    }
}

/// What was recorded for a file is what the fingerprint has for it.
pub proof fn recorded_time_reads_back(s: Seq<(Seq<u8>, u128)>, p: Seq<u8>, m: u128)
    requires
        fp_sorted(s),
    ensures
        fp_time(fp_insert(s, p, m), p) == Some(m),
{
    lemma_fp_rank(s, p);
    let k = fp_rank(s, p) as int;
    let t = fp_insert(s, p, m);
    path_order_is_total(p, p);
    assert forall|i: int| 0 <= i < k implies !path_le(p, (#[trigger] t[i]).0) by {
        assert(t[i].0 == s[i].0);
    }
    lemma_fp_rank_unique(t, p, k as nat);
}

/// Rust source files with their modification times, in nanoseconds since the
/// epoch, in the order of their paths.
#[derive(Debug)]
pub struct Fingerprint {
    files: Vec<(FilePath, u128)>,
}

spec fn files_view(v: Seq<(FilePath, u128)>) -> Seq<(Seq<u8>, u128)> {
    v.map_values(|f: (FilePath, u128)| (f.0@, f.1))
}

impl View for Fingerprint {
    type V = Seq<(Seq<u8>, u128)>;

    closed spec fn view(&self) -> Seq<(Seq<u8>, u128)> {
        files_view(self.files@)
    }
}

impl Fingerprint {
    /// The files are in order, none twice.
    #[verifier::type_invariant]
    pub open spec fn in_order(self) -> bool {
        fp_sorted(self@)
    }

    pub fn new() -> (f: Fingerprint)
        ensures
            f@ == Seq::<(Seq<u8>, u128)>::empty(),
            fp_sorted(f@),
    {
        let f = Fingerprint { files: Vec::new() };
        assert(f@ =~= Seq::empty());
        f
    }

    /// The number of files.
    pub fn len(&self) -> (n: usize)
        ensures
            n == self@.len(),
    {
        self.files.len()
    }

    /// The path of the `i`-th file.
    pub fn path(&self, i: usize) -> (p: &FilePath)
        requires
            i < self@.len(),
        ensures
            p@ == self@[i as int].0,
    {
        &self.files[i].0
    }

    /// The modification time of the `i`-th file.
    pub fn mtime_ns(&self, i: usize) -> (m: u128)
        requires
            i < self@.len(),
        ensures
            m == self@[i as int].1,
    {
        self.files[i].1
    }

    fn rank(&self, p: &FilePath) -> (n: usize)
        ensures
            n == fp_rank(self@, p@),
            n <= self@.len(),
    {
        proof {
            use_type_invariant(self);
        }
        let ghost s = self@;
        let mut lo: usize = 0;
        let mut hi: usize = self.files.len();
        while lo < hi
            invariant
                s == self@,
                fp_sorted(s),
                lo <= hi <= s.len(),
                s.len() == self.files@.len(),
                forall|i: int| 0 <= i < lo ==> !path_le(p@, (#[trigger] s[i]).0),
                forall|i: int| hi <= i < s.len() ==> path_le(p@, (#[trigger] s[i]).0),
            decreases hi - lo,
        {
            let mid: usize = lo + (hi - lo) / 2;
            assert(s[mid as int].0 == self.files@[mid as int].0@);
            if p.at_or_before(&self.files[mid].0) {
                assert forall|i: int| mid <= i < s.len() implies path_le(
                    p@,
                    (#[trigger] s[i]).0,
                ) by {
                    if i > mid {
                        assert(path_le(s[mid as int].0, s[i].0));
                        path_order_is_transitive(p@, s[mid as int].0, s[i].0);
                    }
                }
                hi = mid;
            } else {
                assert forall|i: int| 0 <= i < mid + 1 implies !path_le(
                    p@,
                    (#[trigger] s[i]).0,
                ) by {
                    if i < mid && path_le(p@, s[i].0) {
                        assert(path_le(s[i].0, s[mid as int].0));
                        path_order_is_transitive(p@, s[i].0, s[mid as int].0);
                    }
                }
                lo = mid + 1;
            }
        }
        proof {
            lemma_fp_rank_unique(s, p@, lo as nat);
        }
        lo
    }

    /// Records the modification time of a file.
    pub fn insert(&mut self, path: FilePath, mtime_ns: u128)
        ensures
            final(self)@ == fp_insert(old(self)@, path@, mtime_ns),
            fp_sorted(final(self)@),
    {
        proof {
            use_type_invariant(&*self);
            lemma_fp_insert_sorted(self@, path@, mtime_ns);
        }
        let k = self.rank(&path);
        let ghost before = self.files@;
        let mut files: Vec<(FilePath, u128)> = Vec::new();
        std::mem::swap(&mut files, &mut self.files);
        assert(files_view(before).len() == before.len());
        assert(k < before.len() ==> files_view(before)[k as int].0 == before[k as int].0@);
        if k < files.len() && files[k].0.same(&path) {
            let mut slot = (path, mtime_ns);
            std::mem::swap(&mut slot, &mut files[k]);
            let (kept, _) = slot;
            files[k] = (kept, mtime_ns);
            assert(files_view(files@) =~= fp_insert(files_view(before), path@, mtime_ns));
        } else {
            files.insert(k, (path, mtime_ns));
            assert(files_view(files@) =~= fp_insert(files_view(before), path@, mtime_ns));
        }
        self.files = files;
    }

    /// Whether both name the same files with the same times.
    pub fn same(&self, other: &Fingerprint) -> (r: bool)
        ensures
            r == fp_same(self@, other@),
    {
        let ghost a = self@;
        let ghost b = other@;
        if self.files.len() != other.files.len() {
            return false;
        }
        let mut i: usize = 0;
        while i < self.files.len()
            invariant
                i <= a.len(),
                a == self@,
                b == other@,
                a.len() == b.len(),
                a.len() == self.files@.len(),
                b.len() == other.files@.len(),
                forall|k: int|
                    0 <= k < i ==> same_path((#[trigger] a[k]).0, b[k].0) && a[k].1 == b[k].1,
            decreases a.len() - i,
        {
            assert(a[i as int] == (self.files@[i as int].0@, self.files@[i as int].1));
            assert(b[i as int] == (other.files@[i as int].0@, other.files@[i as int].1));
            if self.files[i].1 != other.files[i].1 || !self.files[i].0.same(&other.files[i].0) {
                return false;
            }
            i += 1;
        }
        true
    }
}

impl PartialEq for Fingerprint {
    fn eq(&self, other: &Self) -> (r: bool) {
        self.same(other)
    }
}

impl vstd::std_specs::cmp::PartialEqSpecImpl for Fingerprint {
    open spec fn obeys_eq_spec() -> bool {
        true
    }

    open spec fn eq_spec(&self, other: &Self) -> bool {
        fp_same(self@, other@)
    }
}

} // verus!
