//! File paths as on Unix: any bytes, compared by components, with `/` as the
//! separator.

use crate::bytes::{
    bytes_between, bytes_eq, bytes_in_order, bytes_le, bytes_of, find_byte,
    lemma_bytes_le_antisymmetric, lemma_bytes_le_total, lemma_bytes_le_transitive, shown,
    text_lossy,
};
use crate::text::{find_from, lemma_find_from};
use vstd::prelude::*;
use vstd::utf8::encode_utf8;

verus! {

/// The byte of `/`.
pub const SLASH: u8 = 0x2f;

/// The byte of `.`.
pub const DOT: u8 = 0x2e;

/// The byte of `r`.
pub const LETTER_R: u8 = 0x72;

/// The byte of `s`.
pub const LETTER_S: u8 = 0x73;

/// The spans of the components in `t` from position `i` on. Empty segments
/// and `.` segments are no components.
pub open spec fn body_spans(t: Seq<u8>, i: int) -> Seq<(int, int)>
    decreases t.len() + 1 - i,
{
    if i < 0 || i >= t.len() {
        Seq::empty()
    } else {
        proof {
            lemma_find_from(t, SLASH, i);
        }
        let e = find_from(t, SLASH, i);
        let rest = body_spans(t, e + 1);
        if e == i || (e == i + 1 && t[i] == DOT) {
            rest
        } else {
            seq![(i, e)] + rest
        }
    }
}

/// The spans of all components of `t`: a leading `/` is one, and so is a `.`
/// that starts a relative path.
pub open spec fn spans(t: Seq<u8>) -> Seq<(int, int)> {
    if t.len() > 0 && t[0] == SLASH {
        seq![(0int, 1int)] + body_spans(t, 1)
    } else if t.len() > 0 && t[0] == DOT && find_from(t, SLASH, 0) == 1 {
        seq![(0int, 1int)] + body_spans(t, 2)
    } else {
        body_spans(t, 0)
    }
}

/// The components of the path `t`.
pub open spec fn components(t: Seq<u8>) -> Seq<Seq<u8>> {
    spans(t).map_values(|s: (int, int)| t.subrange(s.0, s.1))
}

/// Whether two byte strings denote the same path.
pub open spec fn same_path(a: Seq<u8>, b: Seq<u8>) -> bool {
    components(a) == components(b)
}

/// The root sorts first, then `.`, then `..`, then every name.
pub open spec fn component_rank(c: Seq<u8>) -> int {
    if c == seq![SLASH] {
        0
    } else if c == seq![DOT] {
        1
    } else if c == seq![DOT, DOT] {
        2
    } else {
        3
    }
}

pub open spec fn component_le(a: Seq<u8>, b: Seq<u8>) -> bool {
    component_rank(a) < component_rank(b) || (component_rank(a) == component_rank(b) && bytes_le(
        a,
        b,
    ))
}

/// Whether the components `a` come at or before the components `b`.
pub open spec fn components_le(a: Seq<Seq<u8>>, b: Seq<Seq<u8>>) -> bool
    decreases a.len(),
{
    if a.len() == 0 {
        true
    } else if b.len() == 0 {
        false
    } else if a[0] == b[0] {
        components_le(a.drop_first(), b.drop_first())
    } else {
        component_le(a[0], b[0])
    }
}

/// Whether the path `a` comes at or before the path `b`.
pub open spec fn path_le(a: Seq<u8>, b: Seq<u8>) -> bool {
    components_le(components(a), components(b))
}

/// The path without its last component; none for a root and for an empty path.
pub open spec fn parent(t: Seq<u8>) -> Option<Seq<u8>> {
    let s = spans(t);
    if s.len() == 0 || (s.len() == 1 && t[0] == SLASH) {
        None
    } else if s.len() == 1 {
        Some(Seq::empty())
    } else {
        Some(t.take(s[s.len() - 2].1))
    }
}

/// `rest` below the directory `base`; an absolute `rest` stands for itself.
pub open spec fn join(base: Seq<u8>, rest: Seq<u8>) -> Seq<u8> {
    if rest.len() > 0 && rest[0] == SLASH {
        rest
    } else if base.len() > 0 && base.last() != SLASH {
        base + seq![SLASH] + rest
    } else {
        base + rest
    }
}

/// What remains of the path `t` below `base`, if `base` leads to it.
pub open spec fn below(t: Seq<u8>, base: Seq<u8>) -> Option<Seq<u8>> {
    let s = spans(t);
    let k = components(base).len() as int;
    if !components(base).is_prefix_of(components(t)) {
        None
    } else if k == s.len() {
        Some(Seq::empty())
    } else {
        Some(t.subrange(s[k].0, s.last().1))
    }
}

/// The last component, if it is a name.
pub open spec fn file_name(t: Seq<u8>) -> Option<Seq<u8>> {
    let c = components(t);
    if c.len() > 0 && component_rank(c.last()) == 3 {
        Some(c.last())
    } else {
        None
    }
}

/// Whether the file name has the extension `rs`.
pub open spec fn is_rust_source(t: Seq<u8>) -> bool {
    match file_name(t) {
        Some(name) => name.len() > 3 && name.skip(name.len() - 3) == seq![DOT, LETTER_R, LETTER_S],
        None => false,
    }
}

pub proof fn lemma_body_spans(t: Seq<u8>, i: int)
    requires
        0 <= i,
    ensures
        forall|k: int|
            0 <= k < body_spans(t, i).len() ==> i <= (#[trigger] body_spans(t, i)[k]).0
                < body_spans(t, i)[k].1 <= t.len(),
        forall|j: int, k: int|
            0 <= j < k < body_spans(t, i).len() ==> (#[trigger] body_spans(t, i)[j]).1 < (
            #[trigger] body_spans(t, i)[k]).0,
    decreases t.len() + 1 - i,
{
    if i < t.len() {
        lemma_find_from(t, SLASH, i);
        let e = find_from(t, SLASH, i);
        let rest = body_spans(t, e + 1);
        lemma_body_spans(t, e + 1);
        let all = body_spans(t, i);
        if !(e == i || (e == i + 1 && t[i] == DOT)) {
            assert forall|k: int| 1 <= k < all.len() implies #[trigger] all[k] == rest[k - 1] by {}
        }
    }
}

/// Spans lie in the path, are not empty, and are kept apart by separators.
pub proof fn lemma_spans(t: Seq<u8>)
    ensures
        forall|k: int|
            0 <= k < spans(t).len() ==> 0 <= (#[trigger] spans(t)[k]).0 < spans(t)[k].1
                <= t.len(),
        forall|j: int, k: int|
            0 <= j < k < spans(t).len() ==> (#[trigger] spans(t)[j]).1 <= (
            #[trigger] spans(t)[k]).0,
{
    lemma_body_spans(t, 0);
    lemma_body_spans(t, 1);
    lemma_body_spans(t, 2);
    let s = spans(t);
    if t.len() > 0 && t[0] == SLASH {
        assert forall|k: int| 1 <= k < s.len() implies #[trigger] s[k] == body_spans(t, 1)[k
            - 1] by {}
    } else if t.len() > 0 && t[0] == DOT && find_from(t, SLASH, 0) == 1 {
        assert forall|k: int| 1 <= k < s.len() implies #[trigger] s[k] == body_spans(t, 2)[k
            - 1] by {}
    }
}

proof fn lemma_component_le_total(a: Seq<u8>, b: Seq<u8>)
    ensures
        component_le(a, b) || component_le(b, a),
{
    lemma_bytes_le_total(a, b);
}

proof fn lemma_component_le_antisymmetric(a: Seq<u8>, b: Seq<u8>)
    requires
        component_le(a, b),
        component_le(b, a),
    ensures
        a == b,
{
    lemma_bytes_le_antisymmetric(a, b);
}

proof fn lemma_component_le_transitive(a: Seq<u8>, b: Seq<u8>, c: Seq<u8>)
    requires
        component_le(a, b),
        component_le(b, c),
    ensures
        component_le(a, c),
{
    if component_rank(a) == component_rank(b) && component_rank(b) == component_rank(c) {
        lemma_bytes_le_transitive(a, b, c);
    }
}

proof fn lemma_components_le_total(a: Seq<Seq<u8>>, b: Seq<Seq<u8>>)
    ensures
        components_le(a, b) || components_le(b, a),
    decreases a.len(),
{
    if a.len() > 0 && b.len() > 0 {
        lemma_component_le_total(a[0], b[0]);
        if a[0] == b[0] {
            lemma_components_le_total(a.drop_first(), b.drop_first());
        }
    }
}

proof fn lemma_components_le_antisymmetric(a: Seq<Seq<u8>>, b: Seq<Seq<u8>>)
    requires
        components_le(a, b),
        components_le(b, a),
    ensures
        a == b,
    decreases a.len(),
{
    if a.len() > 0 && b.len() > 0 {
        if a[0] != b[0] {
            lemma_component_le_antisymmetric(a[0], b[0]);
        }
        lemma_components_le_antisymmetric(a.drop_first(), b.drop_first());
        assert(a =~= seq![a[0]] + a.drop_first());
        assert(b =~= seq![b[0]] + b.drop_first());
    } else {
        assert(a =~= b);
    }
}

proof fn lemma_components_le_transitive(
    a: Seq<Seq<u8>>,
    b: Seq<Seq<u8>>,
    c: Seq<Seq<u8>>,
)
    requires
        components_le(a, b),
        components_le(b, c),
    ensures
        components_le(a, c),
    decreases a.len(),
{
    if a.len() > 0 && b.len() > 0 && c.len() > 0 {
        if a[0] == b[0] && b[0] == c[0] {
            lemma_components_le_transitive(a.drop_first(), b.drop_first(), c.drop_first());
        } else if a[0] != b[0] && b[0] != c[0] {
            lemma_component_le_transitive(a[0], b[0], c[0]);
            if a[0] == c[0] {
                lemma_component_le_antisymmetric(a[0], b[0]);
            }
        }
    }
}

/// The order of paths is total, and equal in it are exactly the ways to write one
/// path.
pub proof fn path_order_is_total(a: Seq<u8>, b: Seq<u8>)
    ensures
        path_le(a, b) || path_le(b, a),
        path_le(a, b) && path_le(b, a) <==> same_path(a, b),
{
    lemma_components_le_total(components(a), components(b));
    if path_le(a, b) && path_le(b, a) {
        lemma_components_le_antisymmetric(components(a), components(b));
    }
    if same_path(a, b) {
        lemma_components_le_total(components(a), components(a));
    }
}

/// The order of paths is transitive.
pub proof fn path_order_is_transitive(a: Seq<u8>, b: Seq<u8>, c: Seq<u8>)
    requires
        path_le(a, b),
        path_le(b, c),
    ensures
        path_le(a, c),
{
    lemma_components_le_transitive(components(a), components(b), components(c));
}

/// A parent is shorter than its path, so walking up ends.
pub proof fn lemma_parent_shorter(t: Seq<u8>)
    requires
        parent(t) is Some,
    ensures
        parent(t)->0.len() < t.len(),
{
    lemma_spans(t);
    let s = spans(t);
    assert(s[s.len() - 1].0 < s[s.len() - 1].1);
    if s.len() > 1 {
        assert(s[s.len() - 2].1 <= s[s.len() - 1].0);
    }
}

/// Spans that end at or before `e` stay when the path is cut at `e`, where `e`
/// is the end of one of them or the start of the path.
pub proof fn lemma_body_spans_cut(t: Seq<u8>, i: int, n: int, e: int)
    requires
        0 <= i,
        1 <= n <= body_spans(t, i).len(),
        e == body_spans(t, i)[n - 1].1,
    ensures
        body_spans(t.take(e), i) == body_spans(t, i).take(n),
    decreases t.len() + 1 - i,
{
    lemma_body_spans(t, i);
    lemma_find_from(t, SLASH, i);
    let f = find_from(t, SLASH, i);
    let rest = body_spans(t, f + 1);
    let all = body_spans(t, i);
    assert(all[n - 1].0 < e <= t.len());
    let u = t.take(e);
    if f == i || (f == i + 1 && t[i] == DOT) {
        lemma_body_spans_cut(t, f + 1, n, e);
        lemma_body_spans(t, f + 1);
        assert(rest[n - 1].0 >= f + 1);
        crate::text::lemma_find_from_unique(u, SLASH, i, f);
    } else {
        assert(all[0] == (i, f));
        if n == 1 {
            crate::text::lemma_find_from_unique(u, SLASH, i, f);
            assert(body_spans(u, f + 1) =~= Seq::empty());
            assert(body_spans(u, i) =~= all.take(1));
        } else {
            assert(all[n - 1] == rest[n - 2]);
            lemma_body_spans_cut(t, f + 1, n - 1, e);
            lemma_body_spans(t, f + 1);
            assert(rest[n - 2].0 >= f + 1);
            crate::text::lemma_find_from_unique(u, SLASH, i, f);
            assert(body_spans(u, i) =~= all.take(n));
        }
    }
}

/// The parent of a path has the path's components but the last.
pub proof fn parent_drops_the_last_component(t: Seq<u8>)
    requires
        parent(t) is Some,
    ensures
        components(parent(t)->0) == components(t).drop_last(),
{
    lemma_spans(t);
    let s = spans(t);
    let p = parent(t)->0;
    if s.len() == 1 {
        assert(components(p) =~= components(t).drop_last());
    } else {
        let e = s[s.len() - 2].1;
        assert(0 <= s[s.len() - 2].0 < e <= t.len());
        let n = s.len() as int;
        lemma_find_from(t, SLASH, 0);
        if t[0] == SLASH {
            if n > 2 {
                assert(s[n - 2] == body_spans(t, 1)[n - 3]);
                lemma_body_spans_cut(t, 1, n - 2, e);
            } else {
                assert(body_spans(p, 1) =~= Seq::empty());
            }
            assert(spans(p) =~= s.take(n - 1));
        } else if t[0] == DOT && find_from(t, SLASH, 0) == 1 {
            crate::text::lemma_find_from_unique(p, SLASH, 0, 1);
            if n > 2 {
                assert(s[n - 2] == body_spans(t, 2)[n - 3]);
                lemma_body_spans_cut(t, 2, n - 2, e);
            } else {
                assert(body_spans(p, 2) =~= Seq::empty());
            }
            assert(spans(p) =~= s.take(n - 1));
        } else {
            lemma_body_spans_cut(t, 0, n - 1, e);
            assert(t[0] == DOT && find_from(p, SLASH, 0) == 1 ==> e == 1) by {
                if t[0] == DOT && find_from(p, SLASH, 0) == 1 {
                    lemma_find_from(p, SLASH, 0);
                    if e > 1 {
                        assert(p[1] == SLASH);
                        crate::text::lemma_find_from_unique(t, SLASH, 0, 1);
                    }
                }
            }
            if t[0] == DOT && e == 1 {
                assert(s[n - 2].0 == 0);
                lemma_body_spans(t, find_from(t, SLASH, 0) + 1);
                assert(s[0] == (0int, find_from(t, SLASH, 0)));
            }
            assert(spans(p) =~= s.take(n - 1));
        }
        assert(components(p) =~= components(t).drop_last()) by {
            assert forall|k: int| 0 <= k < n - 1 implies components(p)[k] == components(
                t,
            ).drop_last()[k] by {
                assert(s[k].1 <= e) by {
                    if k < n - 2 {
                        assert(s[k].1 <= s[n - 2].0);
                    }
                }
                assert(0 <= s[k].0);
                assert(p.subrange(s[k].0, s[k].1) =~= t.subrange(s[k].0, s[k].1));
            }
        }
    }
}

/// Spans held in machine integers.
spec fn spans_view(v: Seq<(usize, usize)>) -> Seq<(int, int)> {
    v.map_values(|s: (usize, usize)| (s.0 as int, s.1 as int))
}

/// The components held by a vector of character vectors.
spec fn parts_view(v: Seq<Vec<u8>>) -> Seq<Seq<u8>> {
    v.map_values(|p: Vec<u8>| p@)
}

fn spans_of(c: &Vec<u8>) -> (out: Vec<(usize, usize)>)
    ensures
        spans_view(out@) == spans(c@),
        out@.len() == spans(c@).len(),
        forall|k: int| 0 <= k < out@.len() ==> (#[trigger] out@[k]).0 < out@[k].1 <= c@.len(),
        forall|k: int|
            0 <= k < out@.len() ==> (#[trigger] out@[k]).0 == spans(c@)[k].0 && out@[k].1 == spans(
                c@,
            )[k].1,
        forall|j: int, k: int|
            0 <= j < k < out@.len() ==> (#[trigger] out@[j]).1 <= (#[trigger] out@[k]).0,
{
    let mut out: Vec<(usize, usize)> = Vec::new();
    let mut i: usize = 0;
    if c.len() > 0 && c[0] == SLASH {
        out.push((0, 1));
        i = 1;
        assert(spans_view(out@) =~= seq![(0int, 1int)]);
    } else if c.len() > 0 && c[0] == DOT && find_byte(c, 0, SLASH) == 1 {
        out.push((0, 1));
        i = if c.len() > 1 {
            2
        } else {
            1
        };
        assert(spans_view(out@) =~= seq![(0int, 1int)]);
        assert(c@.len() == 1 ==> body_spans(c@, 1) =~= body_spans(c@, 2));
    } else {
        assert(spans_view(out@) + body_spans(c@, 0) =~= body_spans(c@, 0));
    }
    assert(spans_view(out@) + body_spans(c@, i as int) =~= spans(c@));
    while i < c.len()
        invariant
            i <= c@.len(),
            spans_view(out@) + body_spans(c@, i as int) == spans(c@),
        decreases c@.len() - i,
    {
        let e = find_byte(c, i, SLASH);
        let ghost before = out@;
        let ghost next = body_spans(c@, e + 1);
        if e == i || (e == i + 1 && c[i] == DOT) {
        } else {
            out.push((i, e));
            assert(spans_view(out@) =~= spans_view(before).push((i as int, e as int)));
            assert(spans_view(out@) + next =~= spans_view(before) + (seq![(i as int, e as int)]
                + next));
        }
        if e == c.len() {
            i = e;
            assert(next =~= body_spans(c@, i as int));
        } else {
            i = e + 1;
        }
    }
    assert(spans_view(out@) + body_spans(c@, i as int) =~= spans_view(out@));
    proof {
        lemma_spans(c@);
        assert forall|k: int| 0 <= k < out@.len() implies (#[trigger] out@[k]).0 == spans(c@)[k].0
            && out@[k].1 == spans(c@)[k].1 by {
            assert(spans_view(out@)[k] == spans(c@)[k]);
        }
        assert forall|j: int, k: int| 0 <= j < k < out@.len() implies (#[trigger] out@[j]).1 <= (
        #[trigger] out@[k]).0 by {
            assert(spans(c@)[j].1 <= spans(c@)[k].0);
        }
    }
    out
}

/// A file path.
///
/// Two paths are equal, and ordered, by their components: `a//b`, `a/./b` and
/// `a/b/` are one path.
#[derive(Debug)]
pub struct FilePath {
    bytes: Vec<u8>,
    parts: Vec<Vec<u8>>,
}

impl View for FilePath {
    type V = Seq<u8>;

    closed spec fn view(&self) -> Seq<u8> {
        self.bytes@
    }
}

impl FilePath {
    #[verifier::type_invariant]
    closed spec fn parts_match(self) -> bool {
        parts_view(self.parts@) == components(self.bytes@)
    }

    /// The path of these bytes.
    pub fn new(bytes: Vec<u8>) -> (p: FilePath)
        ensures
            p@ == bytes@,
    {
        let c = bytes;
        let s = spans_of(&c);
        let mut parts: Vec<Vec<u8>> = Vec::new();
        let mut k: usize = 0;
        assert(parts_view(parts@) =~= components(c@).take(0));
        while k < s.len()
            invariant
                k <= s@.len(),
                s@.len() == spans(c@).len(),
                forall|m: int|
                    0 <= m < s@.len() ==> (#[trigger] s@[m]).0 == spans(c@)[m].0 && s@[m].1
                        == spans(c@)[m].1 && s@[m].0 < s@[m].1 <= c@.len(),
                parts_view(parts@) == components(c@).take(k as int),
            decreases s@.len() - k,
        {
            let ghost before = parts@;
            let part = bytes_between(&c, s[k].0, s[k].1);
            parts.push(part);
            assert(parts_view(parts@) =~= parts_view(before).push(part@));
            assert(components(c@).take(k + 1) =~= components(c@).take(k as int).push(
                components(c@)[k as int],
            ));
            k += 1;
        }
        assert(components(c@).take(k as int) =~= components(c@));
        FilePath { bytes: c, parts }
    }

    /// The path that `text` writes.
    pub fn from_text(text: &str) -> (p: FilePath)
        ensures
            p@ == encode_utf8(text@),
    {
        FilePath::new(bytes_of(text))
    }

    /// The bytes of the path.
    pub fn as_bytes(&self) -> (b: &Vec<u8>)
        ensures
            b@ == self@,
    {
        &self.bytes
    }

    /// The text that the path shows as.
    pub fn display(&self) -> (s: String)
        ensures
            s@ == shown(self@),
    {
        text_lossy(&self.bytes)
    }

    /// Whether the two are one path.
    pub fn same(&self, other: &FilePath) -> (r: bool)
        ensures
            r == same_path(self@, other@),
    {
        proof {
            use_type_invariant(self);
            use_type_invariant(other);
        }
        let a = &self.parts;
        let b = &other.parts;
        let ghost x = components(self@);
        let ghost y = components(other@);
        assert(a@.len() == x.len()) by {
            assert(parts_view(a@).len() == x.len());
        }
        assert(b@.len() == y.len()) by {
            assert(parts_view(b@).len() == y.len());
        }
        if a.len() != b.len() {
            return false;
        }
        let mut i: usize = a.len();
        while i > 0
            invariant
                i <= a@.len(),
                a@.len() == b@.len(),
                a@.len() == x.len(),
                b@.len() == y.len(),
                parts_view(a@) == x,
                parts_view(b@) == y,
                x == components(self@),
                y == components(other@),
                forall|k: int| i <= k < x.len() ==> x[k] == y[k],
            decreases i,
        {
            i -= 1;
            assert(x[i as int] == parts_view(a@)[i as int]);
            assert(y[i as int] == parts_view(b@)[i as int]);
            if !bytes_eq(&a[i], &b[i]) {
                return false;
            }
        }
        assert(x =~= y);
        true
    }

    /// Whether this path comes at or before `other`.
    pub fn at_or_before(&self, other: &FilePath) -> (r: bool)
        ensures
            r == path_le(self@, other@),
    {
        proof {
            use_type_invariant(self);
            use_type_invariant(other);
        }
        let a = &self.parts;
        let b = &other.parts;
        let ghost x = components(self@);
        let ghost y = components(other@);
        let mut i: usize = 0;
        assert(x.skip(0) =~= x);
        assert(y.skip(0) =~= y);
        assert(a@.len() == x.len()) by {
            assert(parts_view(a@).len() == x.len());
        }
        assert(b@.len() == y.len()) by {
            assert(parts_view(b@).len() == y.len());
        }
        loop
            invariant
                i <= x.len(),
                i <= y.len(),
                a@.len() == x.len(),
                b@.len() == y.len(),
                parts_view(a@) == x,
                parts_view(b@) == y,
                x == components(self@),
                y == components(other@),
                components_le(x, y) == components_le(x.skip(i as int), y.skip(i as int)),
            decreases x.len() - i,
        {
            if i == a.len() {
                return true;
            }
            if i == b.len() {
                return false;
            }
            assert(x[i as int] == parts_view(a@)[i as int]);
            assert(y[i as int] == parts_view(b@)[i as int]);
            if !bytes_eq(&a[i], &b[i]) {
                let m = rank_of(&a[i]);
                let n = rank_of(&b[i]);
                return m < n || (m == n && bytes_in_order(&a[i], &b[i]));
            }
            assert(x.skip(i as int).drop_first() =~= x.skip(i + 1));
            assert(y.skip(i as int).drop_first() =~= y.skip(i + 1));
            i += 1;
        }
    }

    /// The path without its last component.
    pub fn parent(&self) -> (r: Option<FilePath>)
        ensures
            match r {
                Some(p) => parent(self@) == Some(p@),
                None => parent(self@) is None,
            },
    {
        let c = &self.bytes;
        let s = spans_of(c);
        if s.len() == 0 || (s.len() == 1 && c[0] == SLASH) {
            None
        } else if s.len() == 1 {
            Some(FilePath::new(Vec::new()))
        } else {
            let e = s[s.len() - 2].1;
            assert(c@.subrange(0, e as int) =~= c@.take(e as int));
            Some(FilePath::new(bytes_between(c, 0, e)))
        }
    }

    /// `rest` below this directory.
    pub fn join(&self, rest: &str) -> (p: FilePath)
        ensures
            p@ == join(self@, encode_utf8(rest@)),
    {
        let mut r = bytes_of(rest);
        if r.len() > 0 && r[0] == SLASH {
            return FilePath::new(r);
        }
        let mut bytes = bytes_between(&self.bytes, 0, self.bytes.len());
        assert(bytes@ =~= self@);
        if bytes.len() > 0 && bytes[bytes.len() - 1] != SLASH {
            bytes.push(SLASH);
        }
        assert(bytes@ =~= if self@.len() > 0 && self@.last() != SLASH {
            self@ + seq![SLASH]
        } else {
            self@
        });
        bytes.append(&mut r);
        FilePath::new(bytes)
    }

    /// What remains of this path below `base`.
    pub fn strip_prefix(&self, base: &FilePath) -> (r: Option<FilePath>)
        ensures
            match r {
                Some(p) => below(self@, base@) == Some(p@),
                None => below(self@, base@) is None,
            },
    {
        proof {
            use_type_invariant(self);
            use_type_invariant(base);
        }
        let a = &self.parts;
        let b = &base.parts;
        let ghost x = components(self@);
        let ghost y = components(base@);
        assert(a@.len() == x.len()) by {
            assert(parts_view(a@).len() == x.len());
        }
        assert(b@.len() == y.len()) by {
            assert(parts_view(b@).len() == y.len());
        }
        if b.len() > a.len() {
            return None;
        }
        let mut i: usize = 0;
        while i < b.len()
            invariant
                i <= b@.len(),
                b@.len() <= a@.len(),
                a@.len() == x.len(),
                b@.len() == y.len(),
                parts_view(a@) == x,
                parts_view(b@) == y,
                x == components(self@),
                y == components(base@),
                forall|k: int| 0 <= k < i ==> x[k] == y[k],
            decreases b@.len() - i,
        {
            assert(x[i as int] == parts_view(a@)[i as int]);
            assert(y[i as int] == parts_view(b@)[i as int]);
            if !bytes_eq(&a[i], &b[i]) {
                assert(x.take(y.len() as int)[i as int] != y[i as int]);
                return None;
            }
            i += 1;
        }
        assert(y =~= x.take(y.len() as int));
        if b.len() == a.len() {
            return Some(FilePath::new(Vec::new()));
        }
        let c = &self.bytes;
        let s = spans_of(c);
        let from = s[b.len()].0;
        let to = s[s.len() - 1].1;
        assert(from <= to) by {
            if b@.len() < s@.len() - 1 {
                assert(s@[b@.len() as int].1 <= s@[s@.len() - 1].0);
            }
        }
        Some(FilePath::new(bytes_between(c, from, to)))
    }

    /// Whether the file name has the extension `rs`.
    pub fn is_rust_source(&self) -> (r: bool)
        ensures
            r == is_rust_source(self@),
    {
        proof {
            use_type_invariant(self);
        }
        let a = &self.parts;
        let ghost x = components(self@);
        assert(a@.len() == x.len()) by {
            assert(parts_view(a@).len() == x.len());
        }
        if a.len() == 0 {
            return false;
        }
        assert(x.last() == parts_view(a@)[a@.len() - 1]);
        let name = &a[a.len() - 1];
        let n = name.len();
        if rank_of(name) != 3 || n <= 3 {
            return false;
        }
        let r = name[n - 3] == DOT && name[n - 2] == LETTER_R && name[n - 1] == LETTER_S;
        assert(r ==> name@.skip(n - 3) =~= seq![DOT, LETTER_R, LETTER_S]);
        assert(!r ==> {
            let e = name@.skip(n - 3);
            e[0] != DOT || e[1] != LETTER_R || e[2] != LETTER_S
        });
        r
    }
}

fn rank_of(c: &Vec<u8>) -> (r: u8)
    ensures
        r == component_rank(c@),
{
    if c.len() == 1 && c[0] == SLASH {
        assert(c@ =~= seq![SLASH]);
        0
    } else if c.len() == 1 && c[0] == DOT {
        assert(c@ =~= seq![DOT]);
        assert(c@[0] != seq![SLASH][0]);
        1
    } else if c.len() == 2 && c[0] == DOT && c[1] == DOT {
        assert(c@ =~= seq![DOT, DOT]);
        2
    } else {
        assert(c@ != seq![SLASH]) by {
            assert(seq![SLASH][0] == SLASH);
        }
        assert(c@ != seq![DOT]) by {
            assert(seq![DOT][0] == DOT);
        }
        assert(c@ != seq![DOT, DOT]) by {
            assert(seq![DOT, DOT][0] == DOT && seq![DOT, DOT][1] == DOT);
        }
        3
    }
}

impl Clone for FilePath {
    fn clone(&self) -> (p: Self)
        ensures
            p@ == self@,
    {
        let bytes = bytes_between(&self.bytes, 0, self.bytes.len());
        assert(bytes@ =~= self@);
        FilePath::new(bytes)
    }
}

impl PartialEq for FilePath {
    fn eq(&self, other: &Self) -> (r: bool) {
        self.same(other)
    }
}

impl vstd::std_specs::cmp::PartialEqSpecImpl for FilePath {
    open spec fn obeys_eq_spec() -> bool {
        true
    }

    open spec fn eq_spec(&self, other: &Self) -> bool {
        same_path(self@, other@)
    }
}

} // verus!
