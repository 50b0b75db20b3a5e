//! Orders, and the stable sort that every deterministic output rests on.

use crate::text::chars_of;
use vstd::prelude::*;
use vstd::seq_lib::{to_multiset_insert, to_multiset_len};

verus! {

/// Whether `a` comes at or before `b` in the order of their code points.
pub open spec fn text_le(a: Seq<char>, b: Seq<char>) -> bool
    decreases a.len(),
{
    if a.len() == 0 {
        true
    } else if b.len() == 0 {
        false
    } else if a[0] == b[0] {
        text_le(a.drop_first(), b.drop_first())
    } else {
        a[0] < b[0]
    }
}

pub proof fn lemma_text_le_total(a: Seq<char>, b: Seq<char>)
    ensures
        text_le(a, b) || text_le(b, a),
    decreases a.len(),
{
    if a.len() > 0 && b.len() > 0 && a[0] == b[0] {
        lemma_text_le_total(a.drop_first(), b.drop_first());
    }
}

pub proof fn lemma_text_le_antisymmetric(a: Seq<char>, b: Seq<char>)
    requires
        text_le(a, b),
        text_le(b, a),
    ensures
        a == b,
    decreases a.len(),
{
    if a.len() > 0 && b.len() > 0 {
        lemma_text_le_antisymmetric(a.drop_first(), b.drop_first());
        assert(a =~= seq![a[0]] + a.drop_first());
        assert(b =~= seq![b[0]] + b.drop_first());
    } else {
        assert(a =~= b);
    }
}

pub proof fn lemma_text_le_transitive(a: Seq<char>, b: Seq<char>, c: Seq<char>)
    requires
        text_le(a, b),
        text_le(b, c),
    ensures
        text_le(a, c),
    decreases a.len(),
{
    if a.len() > 0 && b.len() > 0 && c.len() > 0 && a[0] == b[0] && b[0] == c[0] {
        lemma_text_le_transitive(a.drop_first(), b.drop_first(), c.drop_first());
    }
}

/// Whether `a` comes at or before `b` in the order of their code points.
pub fn chars_le(a: &Vec<char>, b: &Vec<char>) -> (r: bool)
    ensures
        r == text_le(a@, b@),
{
    let mut i: usize = 0;
    assert(a@.skip(0) =~= a@);
    assert(b@.skip(0) =~= b@);
    loop
        invariant
            i <= a@.len(),
            i <= b@.len(),
            text_le(a@, b@) == text_le(a@.skip(i as int), b@.skip(i as int)),
        decreases a@.len() - i,
    {
        if i == a.len() {
            return true;
        }
        if i == b.len() {
            return false;
        }
        if a[i] != b[i] {
            return a[i] < b[i];
        }
        assert(a@.skip(i as int).drop_first() =~= a@.skip(i + 1));
        assert(b@.skip(i as int).drop_first() =~= b@.skip(i + 1));
        i += 1;
    }
}

/// Whether the text `a` comes at or before `b`.
pub fn texts_in_order(a: &str, b: &str) -> (r: bool)
    ensures
        r == text_le(a@, b@),
{
    chars_le(&chars_of(a), &chars_of(b))
}

/// A type whose values have a place in a total preorder.
pub trait Ranked: Sized {
    /// Whether `self` may stand before `other`.
    spec fn ranks_le(self, other: Self) -> bool;

    proof fn ranks_total(a: Self, b: Self)
        ensures
            a.ranks_le(b) || b.ranks_le(a),
    ;

    proof fn ranks_transitive(a: Self, b: Self, c: Self)
        requires
            a.ranks_le(b),
            b.ranks_le(c),
        ensures
            a.ranks_le(c),
    ;

    fn at_or_before(&self, other: &Self) -> (r: bool)
        ensures
            r == self.ranks_le(*other),
    ;
}

impl Ranked for String {
    open spec fn ranks_le(self, other: Self) -> bool {
        text_le(self@, other@)
    }

    proof fn ranks_total(a: Self, b: Self) {
        lemma_text_le_total(a@, b@);
    }

    proof fn ranks_transitive(a: Self, b: Self, c: Self) {
        lemma_text_le_transitive(a@, b@, c@);
    }

    fn at_or_before(&self, other: &Self) -> (r: bool) {
        texts_in_order(self.as_str(), other.as_str())
    }
}

/// How many values at the front of `s` stand strictly before `x`.
pub open spec fn rank_in<T: Ranked>(s: Seq<T>, x: T) -> nat
    decreases s.len(),
{
    if s.len() > 0 && !x.ranks_le(s[0]) {
        1 + rank_in(s.drop_first(), x)
    } else {
        0
    }
}

/// The stable sort of `s`: each value goes before the first value that it may
/// stand before, so that equal values keep their order.
pub open spec fn sorted<T: Ranked>(s: Seq<T>) -> Seq<T>
    decreases s.len(),
{
    if s.len() == 0 {
        s
    } else {
        let rest = sorted(s.drop_first());
        rest.insert(rank_in(rest, s[0]) as int, s[0])
    }
}

pub open spec fn in_order<T: Ranked>(s: Seq<T>) -> bool {
    forall|i: int, j: int| 0 <= i <= j < s.len() ==> #[trigger] s[i].ranks_le(#[trigger] s[j])
}

proof fn lemma_rank_in<T: Ranked>(s: Seq<T>, x: T)
    ensures
        rank_in(s, x) <= s.len(),
        forall|i: int| 0 <= i < rank_in(s, x) ==> !x.ranks_le(#[trigger] s[i]),
        rank_in(s, x) < s.len() ==> x.ranks_le(s[rank_in(s, x) as int]),
    decreases s.len(),
{
    if s.len() > 0 && !x.ranks_le(s[0]) {
        lemma_rank_in(s.drop_first(), x);
        let n = rank_in(s.drop_first(), x);
        assert forall|i: int| 0 <= i < rank_in(s, x) implies !x.ranks_le(#[trigger] s[i]) by {
            if i > 0 {
                assert(s[i] == s.drop_first()[i - 1]);
            }
        }
        if n < s.drop_first().len() {
            assert(s.drop_first()[n as int] == s[n as int + 1]);
        }
    }
}

proof fn lemma_rank_in_unique<T: Ranked>(s: Seq<T>, x: T, n: nat)
    requires
        n <= s.len(),
        forall|i: int| 0 <= i < n ==> !x.ranks_le(#[trigger] s[i]),
        n < s.len() ==> x.ranks_le(s[n as int]),
    ensures
        rank_in(s, x) == n,
    decreases s.len(),
{
    if n > 0 {
        assert(!x.ranks_le(s[0]));
        assert forall|i: int| 0 <= i < n - 1 implies !x.ranks_le(#[trigger] s.drop_first()[i]) by {
            assert(s.drop_first()[i] == s[i + 1]);
        }
        if n < s.len() {
            assert(s.drop_first()[n - 1] == s[n as int]);
        }
        lemma_rank_in_unique(s.drop_first(), x, (n - 1) as nat);
    }
}

/// A value put at its rank keeps a sequence in order.
proof fn lemma_insert_in_order<T: Ranked>(s: Seq<T>, x: T)
    requires
        in_order(s),
    ensures
        rank_in(s, x) <= s.len(),
        in_order(s.insert(rank_in(s, x) as int, x)),
{
    lemma_rank_in(s, x);
    let n = rank_in(s, x) as int;
    let t = s.insert(n, x);
    assert forall|i: int, j: int| 0 <= i <= j < t.len() implies #[trigger] t[i].ranks_le(
        #[trigger] t[j],
    ) by {
        T::ranks_total(x, x);
        let a = if i < n { i } else { i - 1 };
        let b = if j < n { j } else { j - 1 };
        if i != n {
            assert(t[i] == s[a]);
        }
        if j != n {
            assert(t[j] == s[b]);
        }
        if i == n && j != n {
            assert(s[n].ranks_le(s[b]));
            T::ranks_transitive(x, s[n], s[b]);
        } else if i != n && j == n {
            T::ranks_total(x, s[a]);
        } else if i != n && j != n {
            assert(s[a].ranks_le(s[b]));
        }
    }
}

/// Sorting puts every value at or after those it may not stand before, loses
/// none and adds none.
pub proof fn sorting_orders_and_keeps<T: Ranked>(s: Seq<T>)
    ensures
        in_order(sorted(s)),
        sorted(s).to_multiset() == s.to_multiset(),
        sorted(s).len() == s.len(),
    decreases s.len(),
{
    if s.len() > 0 {
        let rest = sorted(s.drop_first());
        let x = s[0];
        sorting_orders_and_keeps(s.drop_first());
        lemma_insert_in_order(rest, x);
        to_multiset_insert(rest, rank_in(rest, x) as int, x);
        to_multiset_insert(s.drop_first(), 0, x);
        assert(s.drop_first().insert(0, x) =~= s);
    }
}

/// Sorting keeps the order of values that may stand on either side of each
/// other: those that share the rank of `k` come out as they went in.
pub proof fn sorting_is_stable<T: Ranked>(s: Seq<T>, k: T)
    ensures
        sorted(s).filter(|x: T| x.ranks_le(k) && k.ranks_le(x)) == s.filter(
            |x: T| x.ranks_le(k) && k.ranks_le(x),
        ),
    decreases s.len(),
{
    let same = |x: T| x.ranks_le(k) && k.ranks_le(x);
    if s.len() > 0 {
        let rest = sorted(s.drop_first());
        let x = s[0];
        let n = rank_in(rest, x) as int;
        sorting_is_stable(s.drop_first(), k);
        sorting_orders_and_keeps(s.drop_first());
        lemma_rank_in(rest, x);
        let front = rest.take(n);
        let back = rest.skip(n);
        assert(rest =~= front + back);
        assert(rest.insert(n, x) =~= front + (seq![x] + back));
        assert(s =~= seq![x] + s.drop_first());
        Seq::filter_distributes_over_add(front, back, same);
        Seq::filter_distributes_over_add(front, seq![x] + back, same);
        Seq::filter_distributes_over_add(seq![x], back, same);
        Seq::filter_distributes_over_add(seq![x], s.drop_first(), same);
        if same(x) {
            assert forall|i: int| 0 <= i < front.len() implies !same(#[trigger] front[i]) by {
                assert(front[i] == rest[i]);
                if same(rest[i]) {
                    T::ranks_transitive(x, k, rest[i]);
                }
            }
            lemma_filter_none(front, same);
            assert(front.filter(same) + back.filter(same) =~= back.filter(same));
            assert(front.filter(same) + (seq![x].filter(same) + back.filter(same)) =~= seq![
                x,
            ].filter(same) + back.filter(same));
        } else {
            lemma_filter_none(seq![x], same);
            assert(seq![x].filter(same) + back.filter(same) =~= back.filter(same));
            assert(seq![x].filter(same) + s.drop_first().filter(same) =~= s.drop_first().filter(
                same,
            ));
        }
    }
}

proof fn lemma_filter_none<T>(s: Seq<T>, p: spec_fn(T) -> bool)
    requires
        forall|i: int| 0 <= i < s.len() ==> !p(#[trigger] s[i]),
    ensures
        s.filter(p) == Seq::<T>::empty(),
    decreases s.len(),
{
    reveal(Seq::filter);
    if s.len() > 0 {
        assert forall|i: int| 0 <= i < s.drop_last().len() implies !p(
            #[trigger] s.drop_last()[i],
        ) by {
            assert(s.drop_last()[i] == s[i]);
        }
        lemma_filter_none(s.drop_last(), p);
        assert(!p(s[s.len() - 1]));
    }
}

/// The rank of `x` in an ordered sequence, by binary search.
fn rank_of<T: Ranked>(v: &Vec<T>, x: &T) -> (n: usize)
    requires
        in_order(v@),
    ensures
        n == rank_in(v@, *x),
        n <= v@.len(),
{
    let mut lo: usize = 0;
    let mut hi: usize = v.len();
    while lo < hi
        invariant
            lo <= hi <= v@.len(),
            in_order(v@),
            forall|i: int| 0 <= i < lo ==> !x.ranks_le(#[trigger] v@[i]),
            forall|i: int| hi <= i < v@.len() ==> x.ranks_le(#[trigger] v@[i]),
        decreases hi - lo,
    {
        let mid: usize = lo + (hi - lo) / 2;
        if x.at_or_before(&v[mid]) {
            assert forall|i: int| mid <= i < v@.len() implies x.ranks_le(#[trigger] v@[i]) by {
                T::ranks_transitive(*x, v@[mid as int], v@[i]);
            }
            hi = mid;
        } else {
            assert forall|i: int| 0 <= i < mid + 1 implies !x.ranks_le(#[trigger] v@[i]) by {
                if x.ranks_le(v@[i]) {
                    T::ranks_transitive(*x, v@[i], v@[mid as int]);
                }
            }
            lo = mid + 1;
        }
    }
    proof {
        lemma_rank_in_unique(v@, *x, lo as nat);
    }
    lo
}

/// Sorts `v`, keeping the order of equal values.
pub fn stable_sort<T: Ranked>(v: Vec<T>) -> (out: Vec<T>)
    ensures
        out@ == sorted(v@),
{
    let ghost all = v@;
    let mut v = v;
    let mut out: Vec<T> = Vec::new();
    assert(all.skip(all.len() as int) =~= Seq::<T>::empty());
    while v.len() > 0
        invariant
            v@.len() <= all.len(),
            v@ == all.take(v@.len() as int),
            out@ == sorted(all.skip(v@.len() as int)),
        decreases v@.len(),
    {
        let ghost k = v@.len() - 1;
        proof {
            sorting_orders_and_keeps(all.skip(v@.len() as int));
        }
        if let Some(x) = v.pop() {
            let n = rank_of(&out, &x);
            out.insert(n, x);
            assert(all.skip(k).drop_first() =~= all.skip(k + 1));
            assert(all.skip(k)[0] == x);
        }
    }
    assert(all.skip(0) =~= all);
    out
}

/// Where no two different values have equal rank, there is only one order: the
/// result of sorting does not depend on the order in which the values came.
pub proof fn unique_order<T: Ranked>(s: Seq<T>, t: Seq<T>)
    requires
        s.to_multiset() == t.to_multiset(),
        forall|i: int, j: int|
            0 <= i < s.len() && 0 <= j < s.len() && (#[trigger] s[i]).ranks_le(#[trigger] s[j])
                && s[j].ranks_le(s[i]) ==> s[i] == s[j],
    ensures
        sorted(s) == sorted(t),
{
    sorting_orders_and_keeps(s);
    sorting_orders_and_keeps(t);
    let a = sorted(s);
    broadcast use vstd::seq_lib::group_to_multiset_ensures;

    assert forall|i: int, j: int|
        0 <= i < a.len() && 0 <= j < a.len() && (#[trigger] a[i]).ranks_le(#[trigger] a[j])
            && a[j].ranks_le(a[i]) implies a[i] == a[j] by {
        assert(a.contains(a[i]) && a.contains(a[j]));
        assert(s.to_multiset().contains(a[i]) && s.to_multiset().contains(a[j]));
        let p = choose|p: int| 0 <= p < s.len() && s[p] == a[i];
        let q = choose|q: int| 0 <= q < s.len() && s[q] == a[j];
        assert(s[p].ranks_le(s[q]));
    }
    lemma_same_order(a, sorted(t));
}

proof fn lemma_same_order<T: Ranked>(a: Seq<T>, b: Seq<T>)
    requires
        in_order(a),
        in_order(b),
        a.to_multiset() == b.to_multiset(),
        forall|i: int, j: int|
            0 <= i < a.len() && 0 <= j < a.len() && (#[trigger] a[i]).ranks_le(#[trigger] a[j])
                && a[j].ranks_le(a[i]) ==> a[i] == a[j],
    ensures
        a == b,
    decreases a.len(),
{
    broadcast use vstd::seq_lib::group_to_multiset_ensures;

    to_multiset_len(a);
    to_multiset_len(b);
    if a.len() == 0 {
        assert(a =~= b);
    } else {
        assert(a.contains(a[0]) && b.contains(b[0]));
        assert(a.to_multiset().count(a[0]) > 0 && b.to_multiset().count(b[0]) > 0);
        assert(b.contains(a[0]) && a.contains(b[0]));
        let j = choose|j: int| 0 <= j < b.len() && b[j] == a[0];
        let k = choose|k: int| 0 <= k < a.len() && a[k] == b[0];
        assert(b[0].ranks_le(b[j]));
        assert(a[0].ranks_le(a[k]));
        assert(a[0] == b[0]);
        let x = a.drop_first();
        let y = b.drop_first();
        assert(a.remove(0) =~= x && b.remove(0) =~= y);
        assert(x.to_multiset() =~= a.to_multiset().remove(a[0]));
        assert(y.to_multiset() =~= b.to_multiset().remove(b[0]));
        assert forall|i: int, j: int| 0 <= i <= j < x.len() implies #[trigger] x[i].ranks_le(
            #[trigger] x[j],
        ) by {
            assert(x[i] == a[i + 1] && x[j] == a[j + 1]);
        }
        assert forall|i: int, j: int| 0 <= i <= j < y.len() implies #[trigger] y[i].ranks_le(
            #[trigger] y[j],
        ) by {
            assert(y[i] == b[i + 1] && y[j] == b[j + 1]);
        }
        assert forall|i: int, j: int|
            0 <= i < x.len() && 0 <= j < x.len() && (#[trigger] x[i]).ranks_le(#[trigger] x[j])
                && x[j].ranks_le(x[i]) implies x[i] == x[j] by {
            assert(x[i] == a[i + 1] && x[j] == a[j + 1]);
        }
        lemma_same_order(x, y);
        assert(a =~= seq![a[0]] + x);
        assert(b =~= seq![b[0]] + y);
    }
}

} // verus!
