//! What holds of every path.

use crate::bytes::{bytes_le, lemma_bytes_le_total};
use crate::discover::relative;
use crate::path::{
    below, body_spans, component_le, component_rank, components, components_le, file_name,
    is_rust_source, join, lemma_body_spans, lemma_body_spans_cut, lemma_spans, parent, path_le,
    same_path, spans, FilePath,
};
use crate::text::{find_from, lemma_find_from, lemma_find_from_skip, lemma_find_from_unique};
use vstd::prelude::*;
use vstd::std_specs::cmp::PartialEqSpec;

verus! {

/// Whether a segment of a path is a component: not empty and not a lone dot.
pub open spec fn counts(n: Seq<u8>) -> bool {
    n.len() > 0 && n != seq![0x2eu8]
}

proof fn lemma_no_slash(n: Seq<u8>)
    requires
        !n.contains(0x2fu8),
    ensures
        forall|i: int| 0 <= i < n.len() ==> #[trigger] n[i] != 0x2fu8,
        find_from(n, 0x2fu8, 0) == n.len(),
{
    assert forall|i: int| 0 <= i < n.len() implies #[trigger] n[i] != 0x2fu8 by {
        assert(n.contains(n[i]));
    }
    lemma_find_from_unique(n, 0x2fu8, 0, n.len() as int);
}

/// The spans of what follows the last separator.
proof fn lemma_last_segment(t: Seq<u8>, i: int)
    requires
        0 <= i <= t.len(),
        !t.skip(i).contains(0x2fu8),
    ensures
        body_spans(t, i) == if counts(t.skip(i)) {
            seq![(i, t.len() as int)]
        } else {
            Seq::empty()
        },
{
    lemma_no_slash(t.skip(i));
    lemma_find_from_skip(t, 0x2fu8, i);
    let n = t.skip(i);
    if n.len() > 0 {
        assert(n[0] == t[i]);
        assert(body_spans(t, t.len() as int + 1) =~= Seq::empty());
        assert((t.len() == i + 1 && t[i] == 0x2eu8) <==> n =~= seq![0x2eu8]);
        assert(seq![(i, t.len() as int)] + Seq::<(int, int)>::empty() =~= seq![
            (i, t.len() as int),
        ]);
    }
}

proof fn lemma_body_append(p: Seq<u8>, n: Seq<u8>, i: int)
    requires
        0 <= i <= p.len() + 1,
    ensures
        body_spans(p + seq![0x2fu8] + n, i) == body_spans(p, i) + body_spans(
            p + seq![0x2fu8] + n,
            p.len() as int + 1,
        ),
    decreases p.len() + 1 - i,
{
    let t = p + seq![0x2fu8] + n;
    let tail = body_spans(t, p.len() as int + 1);
    if i == p.len() + 1 {
        assert(body_spans(p, i) + tail =~= tail);
    } else if i == p.len() {
        lemma_find_from_unique(t, 0x2fu8, i, i);
        assert(body_spans(p, i) + tail =~= tail);
    } else {
        lemma_find_from(p, 0x2fu8, i);
        let e = find_from(p, 0x2fu8, i);
        assert forall|k: int| i <= k < e implies t[k] != 0x2fu8 by {
            assert(t[k] == p[k]);
        }
        assert(t[e] == 0x2fu8);
        lemma_find_from_unique(t, 0x2fu8, i, e);
        lemma_body_append(p, n, e + 1);
        assert(t[i] == p[i]);
        assert(body_spans(t, i) =~= body_spans(p, i) + tail);
    }
}

/// A segment behind a separator is one more component, unless it is empty or a
/// lone dot: then it does not count.
pub proof fn a_further_segment_is_a_component(p: Seq<u8>, n: Seq<u8>)
    requires
        p.len() > 0,
        !n.contains(0x2fu8),
    ensures
        n.len() > 0 && n != seq![0x2eu8] ==> components(p + seq![0x2fu8] + n) == components(
            p,
        ).push(n),
        n.len() == 0 || n == seq![0x2eu8] ==> components(p + seq![0x2fu8] + n) == components(p),
{
    let t = p + seq![0x2fu8] + n;
    let start = p.len() as int + 1;
    assert(t.skip(start) =~= n);
    lemma_last_segment(t, start);
    let tail = body_spans(t, start);
    assert(t[0] == p[0]);
    lemma_find_from(p, 0x2fu8, 0);
    lemma_find_from(t, 0x2fu8, 0);
    if p[0] == 0x2fu8 {
        lemma_body_append(p, n, 1);
    } else if p[0] == 0x2eu8 && find_from(p, 0x2fu8, 0) == 1 {
        lemma_find_from_unique(t, 0x2fu8, 0, 1);
        lemma_body_append(p, n, 2);
    } else {
        if p[0] == 0x2eu8 && find_from(t, 0x2fu8, 0) == 1 {
            assert(p.len() > 1 ==> p[1] == t[1]);
            lemma_find_from_unique(p, 0x2fu8, 0, 1);
        }
        lemma_body_append(p, n, 0);
    }
    assert(spans(t) =~= spans(p) + tail);
    lemma_spans(p);
    assert forall|k: int| 0 <= k < spans(p).len() implies components(t)[k] == components(p)[k] by {
        let s = spans(p)[k];
        assert(spans(t)[k] == s);
        assert(0 <= s.0 < s.1 <= p.len());
        assert(t.subrange(s.0, s.1) =~= p.subrange(s.0, s.1));
    }
    if counts(n) {
        assert(spans(t).last() == (start, t.len() as int));
        assert(t.subrange(start, t.len() as int) =~= n);
        assert(components(t) =~= components(p).push(n));
    } else {
        assert(components(t) =~= components(p));
    }
}

/// A leading separator is the root, which is a component of its own; a segment
/// behind it is another.
pub proof fn a_rooted_segment_is_below_the_root(n: Seq<u8>)
    requires
        !n.contains(0x2fu8),
    ensures
        n.len() > 0 && n != seq![0x2eu8] ==> components(seq![0x2fu8] + n) == seq![
            seq![0x2fu8],
            n,
        ],
        n.len() == 0 || n == seq![0x2eu8] ==> components(seq![0x2fu8] + n) == seq![seq![0x2fu8]],
{
    let t = seq![0x2fu8] + n;
    assert(t.skip(1) =~= n);
    lemma_last_segment(t, 1);
    assert(t.subrange(0, 1) =~= seq![0x2fu8]);
    assert(t.subrange(1, t.len() as int) =~= n);
    if counts(n) {
        assert(components(t) =~= seq![seq![0x2fu8], n]);
    } else {
        assert(components(t) =~= seq![seq![0x2fu8]]);
    }
}

/// A path without a separator is one component, a lone dot too; the empty path
/// has none.
pub proof fn a_single_segment_is_itself(n: Seq<u8>)
    requires
        !n.contains(0x2fu8),
    ensures
        n.len() > 0 ==> components(n) == seq![n],
        n.len() == 0 ==> components(n).len() == 0,
{
    if n.len() > 0 {
        lemma_no_slash(n);
        assert(n.skip(0) =~= n);
        lemma_last_segment(n, 0);
        assert(n.subrange(0, n.len() as int) =~= n);
        if n[0] == 0x2eu8 && n.len() == 1 {
            assert(body_spans(n, 2) =~= Seq::empty());
            assert(spans(n) =~= seq![(0int, 1int)]);
        } else {
            assert(n != seq![0x2eu8]) by {
                if n == seq![0x2eu8] {
                    assert(n[0] == 0x2eu8 && n.len() == 1);
                }
            }
            assert(spans(n) == seq![(0int, n.len() as int)]);
        }
        assert(components(n) =~= seq![n]);
    }
}

/// Two texts are one path exactly where their components are the same.
pub proof fn a_path_is_its_components(a: Seq<u8>, b: Seq<u8>)
    ensures
        same_path(a, b) <==> components(a).len() == components(b).len() && forall|i: int|
            0 <= i < components(a).len() ==> components(a)[i] == components(b)[i],
{
    if components(a).len() == components(b).len() && forall|i: int|
        0 <= i < components(a).len() ==> components(a)[i] == components(b)[i] {
        assert(components(a) =~= components(b));
    }
}

/// Paths are equal exactly where their components are, however they are written.
pub proof fn equal_paths_have_equal_components(a: FilePath, b: FilePath)
    ensures
        a.eq_spec(&b) <==> components(a@) == components(b@),
{
}

/// The first component in which two paths differ decides their order; where
/// there is none, the shorter goes first.
pub proof fn paths_are_ordered_by_their_first_difference(a: Seq<u8>, b: Seq<u8>, k: int)
    requires
        0 <= k <= components(a).len(),
        k <= components(b).len(),
        forall|i: int| 0 <= i < k ==> components(a)[i] == components(b)[i],
        k < components(a).len() && k < components(b).len() ==> components(a)[k] != components(
            b,
        )[k],
    ensures
        path_le(a, b) <==> (k == components(a).len() || (k < components(b).len() && component_le(
            components(a)[k],
            components(b)[k],
        ))),
{
    lemma_first_difference(components(a), components(b), k);
}

proof fn lemma_first_difference(a: Seq<Seq<u8>>, b: Seq<Seq<u8>>, k: int)
    requires
        0 <= k <= a.len(),
        k <= b.len(),
        forall|i: int| 0 <= i < k ==> a[i] == b[i],
        k < a.len() && k < b.len() ==> a[k] != b[k],
    ensures
        components_le(a, b) <==> (k == a.len() || (k < b.len() && component_le(a[k], b[k]))),
    decreases a.len(),
{
    if k > 0 {
        assert(a[0] == b[0]);
        let x = a.drop_first();
        let y = b.drop_first();
        assert forall|i: int| 0 <= i < k - 1 implies x[i] == y[i] by {
            assert(x[i] == a[i + 1] && y[i] == b[i + 1]);
        }
        if k < a.len() {
            assert(x[k - 1] == a[k]);
        }
        if k < b.len() {
            assert(y[k - 1] == b[k]);
        }
        lemma_first_difference(x, y, k - 1);
    }
}

/// Among components the root goes first, then one dot, then two, and then the
/// names in the order of their bytes.
pub proof fn components_are_ordered(a: Seq<u8>, b: Seq<u8>)
    ensures
        component_le(seq![0x2fu8], a),
        component_le(seq![0x2eu8], a) <==> a != seq![0x2fu8],
        component_le(seq![0x2eu8, 0x2eu8], a) <==> a != seq![0x2fu8] && a != seq![0x2eu8],
        a != seq![0x2fu8] && a != seq![0x2eu8] && a != seq![0x2eu8, 0x2eu8] ==> (component_le(a, b)
            <==> b != seq![0x2fu8] && b != seq![0x2eu8] && b != seq![0x2eu8, 0x2eu8] && bytes_le(
            a,
            b,
        )),
{
    let root = seq![0x2fu8];
    let dot = seq![0x2eu8];
    let dots = seq![0x2eu8, 0x2eu8];
    assert(root[0] != dot[0]);
    assert(root.len() != dots.len());
    assert(dot.len() != dots.len());
    lemma_bytes_le_total(root, root);
    lemma_bytes_le_total(dot, dot);
    lemma_bytes_le_total(dots, dots);
}

/// A name that is joined to a directory is one more component of it; an absolute
/// path stands for itself, and the empty directory adds nothing.
pub proof fn joining_adds_a_component(base: Seq<u8>, n: Seq<u8>)
    requires
        n.len() > 0,
    ensures
        n[0] == 0x2fu8 ==> join(base, n) == n,
        base.len() == 0 ==> join(base, n) == n,
        base.len() > 0 && !n.contains(0x2fu8) && n != seq![0x2eu8] ==> components(join(base, n))
            == components(base).push(n),
{
    assert(Seq::<u8>::empty() + n =~= n);
    assert(base.len() == 0 ==> base + n =~= n);
    if base.len() > 0 && !n.contains(0x2fu8) && n != seq![0x2eu8] {
        lemma_no_slash(n);
        assert(n[0] != 0x2fu8);
        if base.last() != 0x2fu8 {
            a_further_segment_is_a_component(base, n);
        } else {
            let p = base.drop_last();
            let none = Seq::<u8>::empty();
            assert(!none.contains(0x2fu8));
            assert(base + n =~= p + seq![0x2fu8] + n);
            assert(base =~= p + seq![0x2fu8] + none);
            if p.len() > 0 {
                a_further_segment_is_a_component(p, n);
                a_further_segment_is_a_component(p, none);
            } else {
                assert(base + n =~= seq![0x2fu8] + n);
                assert(base =~= seq![0x2fu8] + none);
                a_rooted_segment_is_below_the_root(n);
                a_rooted_segment_is_below_the_root(none);
                assert(seq![seq![0x2fu8], n] =~= seq![seq![0x2fu8]].push(n));
            }
        }
    }
}

/// What is joined stands whole at the end, the directory whole in front, and one
/// separator between them where the directory does not end with one.
pub proof fn joining_keeps_both_parts(base: Seq<u8>, rest: Seq<u8>)
    requires
        rest.len() == 0 || rest[0] != 0x2fu8,
    ensures
        base.is_prefix_of(join(base, rest)),
        join(base, rest).skip(join(base, rest).len() - rest.len()) == rest,
        base.len() == 0 || base.last() == 0x2fu8 ==> join(base, rest).len() == base.len()
            + rest.len(),
        base.len() > 0 && base.last() != 0x2fu8 ==> join(base, rest).len() == base.len() + 1
            + rest.len() && join(base, rest)[base.len() as int] == 0x2fu8,
{
    let j = join(base, rest);
    assert(j.skip(j.len() - rest.len()) =~= rest);
}

proof fn lemma_body_has_no_slash(t: Seq<u8>, i: int)
    requires
        0 <= i,
    ensures
        forall|k: int, m: int|
            0 <= k < body_spans(t, i).len() && #[trigger] in_span(body_spans(t, i), k, m) ==> t[m]
                != 0x2fu8,
        forall|k: int|
            0 <= k < body_spans(t, i).len() ==> !((#[trigger] body_spans(t, i)[k]).1 == body_spans(
                t,
                i,
            )[k].0 + 1 && t[body_spans(t, i)[k].0] == 0x2eu8),
        forall|k: int|
            0 <= k < body_spans(t, i).len() ==> find_from(
                t,
                0x2fu8,
                (#[trigger] body_spans(t, i)[k]).0,
            ) == body_spans(t, i)[k].1,
        forall|k: int|
            0 <= k < body_spans(t, i).len() ==> body_spans(
                t,
                (#[trigger] body_spans(t, i)[k]).0,
            ) == body_spans(t, i).skip(k),
    decreases t.len() + 1 - i,
{
    let all = body_spans(t, i);
    if i < t.len() {
        lemma_find_from(t, 0x2fu8, i);
        let e = find_from(t, 0x2fu8, i);
        let rest = body_spans(t, e + 1);
        lemma_body_has_no_slash(t, e + 1);
        if !(e == i || (e == i + 1 && t[i] == 0x2eu8)) {
            assert(all =~= seq![(i, e)] + rest);
            assert(all[0] == (i, e));
            assert(all.skip(0) =~= all);
            assert forall|k: int| 1 <= k < all.len() implies #[trigger] all[k] == rest[k - 1]
                && all.skip(k) =~= rest.skip(k - 1) by {}
            assert forall|k: int, m: int|
                0 <= k < all.len() && #[trigger] in_span(all, k, m) implies t[m] != 0x2fu8 by {
                if k > 0 {
                    assert(all[k] == rest[k - 1]);
                    assert(in_span(rest, k - 1, m));
                }
            }
            assert forall|k: int| 0 <= k < all.len() implies body_spans(t, (#[trigger] all[k]).0)
                == all.skip(k) by {
                if k > 0 {
                    assert(all[k] == rest[k - 1]);
                    assert(body_spans(t, rest[k - 1].0) == rest.skip(k - 1));
                }
            }
            assert forall|k: int| 0 <= k < all.len() implies find_from(
                t,
                0x2fu8,
                (#[trigger] all[k]).0,
            ) == all[k].1 && !(all[k].1 == all[k].0 + 1 && t[all[k].0] == 0x2eu8) by {
                if k > 0 {
                    assert(all[k] == rest[k - 1]);
                }
            }
        }
    }
}

spec fn in_span(s: Seq<(int, int)>, k: int, m: int) -> bool {
    s[k].0 <= m < s[k].1
}

/// A path has no parent exactly where it has no components or is the root; the
/// parent stands in front of the path.
pub proof fn only_the_root_has_no_parent(t: Seq<u8>)
    ensures
        parent(t) is None <==> components(t).len() == 0 || components(t) == seq![seq![0x2fu8]],
        parent(t) is Some ==> parent(t)->0.is_prefix_of(t),
{
    lemma_spans(t);
    let s = spans(t);
    assert(components(t).len() == s.len());
    if s.len() == 1 {
        assert(t.len() > 0);
        let c = t.subrange(s[0].0, s[0].1);
        assert(components(t)[0] == c);
        if t[0] == 0x2fu8 {
            assert(c =~= seq![0x2fu8]);
            assert(components(t) =~= seq![seq![0x2fu8]]);
        } else if t[0] == 0x2eu8 && find_from(t, 0x2fu8, 0) == 1 {
            assert(c[0] == 0x2eu8);
            assert(seq![seq![0x2fu8]][0][0] == 0x2fu8);
        } else {
            lemma_body_has_no_slash(t, 0);
            assert(in_span(body_spans(t, 0), 0, s[0].0));
            assert(c[0] == t[s[0].0]);
            assert(seq![seq![0x2fu8]][0][0] == 0x2fu8);
        }
    }
    if s.len() > 1 {
        let e = s[s.len() - 2].1;
        assert(0 <= s[s.len() - 2].0 < e <= t.len());
    }
}

/// Cutting a path behind its last component keeps all of them.
proof fn lemma_cut_behind_last(t: Seq<u8>)
    requires
        spans(t).len() > 0,
    ensures
        0 <= spans(t).last().1 <= t.len(),
        spans(t.take(spans(t).last().1)) == spans(t),
{
    lemma_spans(t);
    let s = spans(t);
    let n = s.len() as int;
    let e = s[n - 1].1;
    assert(0 <= s[n - 1].0 < e <= t.len());
    let u = t.take(e);
    assert(u[0] == t[0]);
    lemma_find_from(t, 0x2fu8, 0);
    lemma_find_from(u, 0x2fu8, 0);
    if t[0] == 0x2fu8 {
        let body = body_spans(t, 1);
        if n > 1 {
            assert(s[n - 1] == body[n - 2]);
            lemma_body_spans_cut(t, 1, n - 1, e);
            assert(body.take(n - 1) =~= body);
        } else {
            assert(body_spans(u, 1) =~= Seq::empty());
            assert(body =~= Seq::empty());
        }
    } else if t[0] == 0x2eu8 && find_from(t, 0x2fu8, 0) == 1 {
        let body = body_spans(t, 2);
        lemma_find_from_unique(u, 0x2fu8, 0, 1);
        if n > 1 {
            assert(s[n - 1] == body[n - 2]);
            lemma_body_spans_cut(t, 2, n - 1, e);
            assert(body.take(n - 1) =~= body);
        } else {
            assert(body_spans(u, 2) =~= Seq::empty());
            assert(body =~= Seq::empty());
        }
    } else {
        lemma_body_spans_cut(t, 0, n, e);
        assert(s.take(n) =~= s);
        if t[0] == 0x2eu8 && find_from(u, 0x2fu8, 0) == 1 {
            if e > 1 {
                assert(u[1] == t[1]);
                lemma_find_from_unique(t, 0x2fu8, 0, 1);
            } else {
                lemma_body_spans(t, 0);
                lemma_body_has_no_slash(t, 0);
                assert(s[0].0 == 0 && s[0].1 == 1) by {
                    assert(0 <= s[0].0 < s[0].1);
                    assert(n > 1 ==> s[0].1 <= s[n - 1].0);
                }
            }
        }
    }
    assert(spans(u) =~= s);
}

/// The spans behind `a` are those of the path from `a` on.
proof fn lemma_body_shift(t: Seq<u8>, a: int, j: int)
    requires
        0 <= a <= t.len(),
        0 <= j,
    ensures
        body_spans(t.skip(a), j) == body_spans(t, a + j).map_values(
            |s: (int, int)| (s.0 - a, s.1 - a),
        ),
    decreases t.len() + 1 - a - j,
{
    let u = t.skip(a);
    let f = |s: (int, int)| (s.0 - a, s.1 - a);
    if a + j < t.len() {
        lemma_find_from(u, 0x2fu8, j);
        let e = find_from(u, 0x2fu8, j);
        assert forall|k: int| a + j <= k < a + e implies t[k] != 0x2fu8 by {
            assert(u[k - a] == t[k]);
        }
        if e < u.len() {
            assert(u[e] == t[a + e]);
        }
        lemma_find_from_unique(t, 0x2fu8, a + j, a + e);
        lemma_body_shift(t, a, e + 1);
        assert(u[j] == t[a + j]);
        let rest = body_spans(t, a + e + 1);
        if !(e == j || (e == j + 1 && u[j] == 0x2eu8)) {
            assert((seq![(a + j, a + e)] + rest).map_values(f) =~= seq![(j, e)] + rest.map_values(
                f,
            ));
        }
    } else {
        assert(body_spans(t, a + j).map_values(f) =~= Seq::empty());
        assert(body_spans(u, j) =~= Seq::empty());
    }
}

/// What remains of a path below a directory is there exactly where the
/// directory's components stand in front of those of the path, and it has the
/// others.
pub proof fn what_is_below_has_the_other_components(t: Seq<u8>, base: Seq<u8>)
    ensures
        below(t, base) is Some <==> components(base).len() <= components(t).len() && forall|i: int|
            0 <= i < components(base).len() ==> components(base)[i] == components(t)[i],
        below(t, base) is Some ==> components(below(t, base)->0) == components(t).skip(
            components(base).len() as int,
        ),
{
    let k = components(base).len() as int;
    let s = spans(t);
    assert(components(t).len() == s.len());
    if k <= s.len() && forall|i: int| 0 <= i < k ==> components(base)[i] == components(t)[i] {
        assert(components(base) =~= components(t).take(k));
        assert(components(base).is_prefix_of(components(t)));
    }
    if below(t, base) is Some {
        assert(k <= s.len());
        if k == s.len() {
            assert(!Seq::<u8>::empty().contains(0x2fu8));
            a_single_segment_is_itself(Seq::empty());
            assert(components(Seq::<u8>::empty()) =~= components(t).skip(k));
        } else {
            lemma_below(t, k);
        }
    }
}

#[verifier::spinoff_prover]
proof fn lemma_below(t: Seq<u8>, k: int)
    requires
        0 <= k < spans(t).len(),
    ensures
        components(t.subrange(spans(t)[k].0, spans(t).last().1)) == components(t).skip(k),
{
    let s = spans(t);
    lemma_spans(t);
    lemma_cut_behind_last(t);
    let end = s.last().1;
    let u = t.take(end);
    let a = s[k].0;
    let r = t.subrange(a, end);
    assert(0 <= s[k].0 < s[k].1 <= t.len());
    assert(s.last() == s[s.len() - 1]);
    assert(a < end) by {
        assert(k < s.len() - 1 ==> s[k].1 <= s[s.len() - 1].0);
    }
    assert(r =~= u.skip(a));
    lemma_spans(u);
    assert(u[0] == t[0]);
    lemma_body_has_no_slash(u, 0);
    lemma_body_has_no_slash(u, 1);
    lemma_body_has_no_slash(u, 2);
    let from: int = if u[0] == 0x2fu8 {
        1
    } else if u[0] == 0x2eu8 && find_from(u, 0x2fu8, 0) == 1 {
        2
    } else {
        0
    };
    let off: int = if from == 0 {
        0
    } else {
        1
    };
    if k == 0 {
        if from == 0 {
            lemma_find_from(u, 0x2fu8, 0);
            let e = find_from(u, 0x2fu8, 0);
            assert(s[0] == (0int, e));
        }
        assert(a == 0);
        assert(r =~= u);
        assert forall|i: int| 0 <= i < s.len() implies components(r)[i] == components(t)[i] by {
            assert(0 <= s[i].0 < s[i].1 <= u.len());
            assert(u.subrange(s[i].0, s[i].1) =~= t.subrange(s[i].0, s[i].1));
        }
        assert(components(r) =~= components(t).skip(0));
    } else {
        let body = body_spans(u, from);
        let b = k - off;
        assert(s[k] == body[b]);
        assert(body_spans(u, a) == body.skip(b));
        lemma_body_shift(u, a, 0);
        assert(in_span(body, b, a));
        assert(r[0] == u[a]);
        assert(r[0] != 0x2fu8);
        lemma_find_from_skip(u, 0x2fu8, a);
        assert(find_from(u, 0x2fu8, a) == body[b].1);
        assert(!(r[0] == 0x2eu8 && find_from(r, 0x2fu8, 0) == 1));
        assert(spans(r) == body_spans(r, 0));
        assert(spans(r).len() == s.len() - k);
        assert forall|i: int| 0 <= i < s.len() - k implies components(r)[i] == components(t)[k
            + i] by {
            assert(body.skip(b)[i] == s[k + i]);
            assert(spans(r)[i] == (s[k + i].0 - a, s[k + i].1 - a));
            assert(0 <= s[k + i].0 < s[k + i].1 <= u.len());
            assert(i > 0 ==> s[k].1 <= s[k + i].0);
            assert(r.subrange(s[k + i].0 - a, s[k + i].1 - a) =~= t.subrange(
                s[k + i].0,
                s[k + i].1,
            ));
        }
        assert(components(r) =~= components(t).skip(k));
    }
}

/// A path is shown relative to the workspace root where it is below it, to the
/// resolved root where it is below only that, and as it is elsewhere.
pub proof fn paths_are_shown_below_the_root(p: Seq<u8>, raw: Seq<u8>, canon: Seq<u8>)
    ensures
        components(raw).is_prefix_of(components(p)) ==> components(relative(p, raw, canon))
            == components(p).skip(components(raw).len() as int),
        !components(raw).is_prefix_of(components(p)) && components(canon).is_prefix_of(
            components(p),
        ) ==> components(relative(p, raw, canon)) == components(p).skip(
            components(canon).len() as int,
        ),
        !components(raw).is_prefix_of(components(p)) && !components(canon).is_prefix_of(
            components(p),
        ) ==> relative(p, raw, canon) == p,
{
    what_is_below_has_the_other_components(p, raw);
    what_is_below_has_the_other_components(p, canon);
}

/// A file is Rust source exactly where its name has more than the ending `.rs`
/// and has that; how the path to it is written does not matter.
pub proof fn rust_sources_are_told_by_their_ending(p: Seq<u8>, n: Seq<u8>, a: Seq<u8>, b: Seq<u8>)
    requires
        p.len() > 0,
        !n.contains(0x2fu8),
        n.len() > 0,
        n != seq![0x2eu8],
    ensures
        is_rust_source(p + seq![0x2fu8] + n) <==> n.len() > 3 && n.skip(n.len() - 3) == seq![
            0x2eu8,
            0x72u8,
            0x73u8,
        ],
        is_rust_source(n) <==> n.len() > 3 && n.skip(n.len() - 3) == seq![0x2eu8, 0x72u8, 0x73u8],
        same_path(a, b) ==> is_rust_source(a) == is_rust_source(b),
{
    a_further_segment_is_a_component(p, n);
    a_single_segment_is_itself(n);
    lemma_no_slash(n);
    assert(n[0] != 0x2fu8);
    assert(components(p).push(n).last() == n);
    assert(seq![n].last() == n);
    if n.len() > 3 {
        assert(n.len() != seq![0x2eu8].len());
        assert(n.len() != seq![0x2eu8, 0x2eu8].len());
        assert(n.len() != seq![0x2fu8].len());
        assert(component_rank(n) == 3);
        assert(file_name(n) == Some(n));
    }
}

} // verus!
