//! Text primitives: character sequences, whitespace, lines and numbers.

use vstd::prelude::*;

verus! {

/// Appending one character to a `String` (`std::string::String::push`): the
/// contents become the old contents followed by that character.
pub assume_specification[ String::push ](s: &mut String, c: char)
    ensures
        final(s)@ == old(s)@.push(c),
;

/// The characters of `s`, in order.
pub fn chars_of(s: &str) -> (out: Vec<char>)
    ensures
        out@ == s@,
{
    let mut out: Vec<char> = Vec::new();
    for c in it: s.chars()
        invariant
            it.seq() == s@,
            out@ == s@.take(it.index() as int),
    {
        out.push(c);
        assert(s@.take(it.index() + 1) == s@.take(it.index() as int).push(s@[it.index() as int]));
    }
    assert(s@.take(s@.len() as int) == s@);
    out
}

/// The text made of the characters `chars[from..to]`.
pub fn string_of(chars: &Vec<char>, from: usize, to: usize) -> (out: String)
    requires
        from <= to <= chars@.len(),
    ensures
        out@ == chars@.subrange(from as int, to as int),
{
    let mut out = String::new();
    let mut i: usize = from;
    while i < to
        invariant
            from <= i <= to <= chars@.len(),
            out@ == chars@.subrange(from as int, i as int),
        decreases to - i,
    {
        out.push(chars[i]);
        i += 1;
        assert(chars@.subrange(from as int, i as int) == chars@.subrange(from as int, i - 1).push(chars@[i - 1]));
    }
    out
}

/// Unicode `White_Space`.
pub open spec fn is_space(c: char) -> bool {
    let u = c as u32;
    ||| 0x9 <= u <= 0xd
    ||| u == 0x20
    ||| u == 0x85
    ||| u == 0xa0
    ||| u == 0x1680
    ||| 0x2000 <= u <= 0x200a
    ||| u == 0x2028
    ||| u == 0x2029
    ||| u == 0x202f
    ||| u == 0x205f
    ||| u == 0x3000
}

pub fn char_is_space(c: char) -> (b: bool)
    ensures
        b == is_space(c),
{
    let u = c as u32;
    (0x9 <= u && u <= 0xd) || u == 0x20 || u == 0x85 || u == 0xa0 || u == 0x1680
        || (0x2000 <= u && u <= 0x200a) || u == 0x2028 || u == 0x2029 || u == 0x202f
        || u == 0x205f || u == 0x3000
}

/// The texts that a sequence of strings holds.
pub open spec fn views(v: Seq<String>) -> Seq<Seq<char>> {
    v.map_values(|s: String| s@)
}

/// `s` without its leading whitespace.
pub open spec fn trim_start(s: Seq<char>) -> Seq<char>
    decreases s.len(),
{
    if s.len() > 0 && is_space(s[0]) {
        trim_start(s.drop_first())
    } else {
        s
    }
}

/// `s` without its trailing whitespace.
pub open spec fn trim_end(s: Seq<char>) -> Seq<char>
    decreases s.len(),
{
    if s.len() > 0 && is_space(s.last()) {
        trim_end(s.drop_last())
    } else {
        s
    }
}

/// What follows `prefix` in `s`, if `s` starts with it.
pub open spec fn strip_prefix(s: Seq<char>, prefix: Seq<char>) -> Option<Seq<char>> {
    if prefix.is_prefix_of(s) {
        Some(s.skip(prefix.len() as int))
    } else {
        None
    }
}

/// The first position at or after `i` that holds `c`, or the length of `s`.
pub open spec fn find_from<T>(s: Seq<T>, c: T, i: int) -> int
    decreases s.len() - i,
{
    if i >= s.len() {
        s.len() as int
    } else if s[i] == c {
        i
    } else {
        find_from(s, c, i + 1)
    }
}

/// Whether `part` occurs in `s`.
pub open spec fn has_text(s: Seq<char>, part: Seq<char>) -> bool {
    exists|i: int| 0 <= i <= s.len() && #[trigger] part.is_prefix_of(s.skip(i))
}

/// `line` without one trailing carriage return.
pub open spec fn strip_cr(line: Seq<char>) -> Seq<char> {
    if line.len() > 0 && line.last() == '\r' {
        line.drop_last()
    } else {
        line
    }
}

/// The lines of `s`: each ends at a `\n` or a `\r\n`, which is not part of it;
/// the last line may lack its terminator.
pub open spec fn lines(s: Seq<char>) -> Seq<Seq<char>>
    decreases s.len(),
{
    if s.len() == 0 {
        Seq::empty()
    } else {
        let n = find_from(s, '\n', 0);
        if 0 <= n < s.len() {
            seq![strip_cr(s.take(n))] + lines(s.skip(n + 1))
        } else {
            seq![s]
        }
    }
}

pub proof fn lemma_find_from<T>(s: Seq<T>, c: T, i: int)
    requires
        0 <= i <= s.len(),
    ensures
        i <= find_from(s, c, i) <= s.len(),
        forall|k: int| i <= k < find_from(s, c, i) ==> s[k] != c,
        find_from(s, c, i) < s.len() ==> s[find_from(s, c, i)] == c,
    decreases s.len() - i,
{
    if i < s.len() && s[i] != c {
        lemma_find_from(s, c, i + 1);
    }
}

/// `find_from` is the only position with the properties that define it.
pub proof fn lemma_find_from_unique<T>(s: Seq<T>, c: T, i: int, p: int)
    requires
        0 <= i <= p <= s.len(),
        forall|k: int| i <= k < p ==> s[k] != c,
        p < s.len() ==> s[p] == c,
    ensures
        find_from(s, c, i) == p,
    decreases s.len() - i,
{
    if i < p {
        lemma_find_from_unique(s, c, i + 1, p);
    }
}

/// Searching from `i` in `s` is searching from the start of what follows `i`.
pub proof fn lemma_find_from_skip<T>(s: Seq<T>, c: T, i: int)
    requires
        0 <= i <= s.len(),
    ensures
        find_from(s, c, i) == i + find_from(s.skip(i), c, 0),
{
    let p = i + find_from(s.skip(i), c, 0);
    lemma_find_from(s.skip(i), c, 0);
    assert forall|k: int| i <= k < p implies s[k] != c by {
        assert(s.skip(i)[k - i] == s[k]);
    }
    lemma_find_from_unique(s, c, i, p);
}

/// The first position at or after `i` that holds `x`, or the number of characters.
pub fn find_char(c: &Vec<char>, i: usize, x: char) -> (p: usize)
    requires
        i <= c@.len(),
    ensures
        p == find_from(c@, x, i as int),
        i <= p <= c@.len(),
{
    let mut p: usize = i;
    while p < c.len() && c[p] != x
        invariant
            i <= p <= c@.len(),
            forall|k: int| i <= k < p ==> c@[k] != x,
        decreases c@.len() - p,
    {
        p += 1;
    }
    proof {
        lemma_find_from_unique(c@, x, i as int, p as int);
    }
    p
}

/// The first position at or after `i` that holds no whitespace.
pub fn skip_space(c: &Vec<char>, i: usize) -> (j: usize)
    requires
        i <= c@.len(),
    ensures
        i <= j <= c@.len(),
        trim_start(c@.skip(i as int)) == c@.skip(j as int),
{
    let mut j: usize = i;
    while j < c.len() && char_is_space(c[j])
        invariant
            i <= j <= c@.len(),
            trim_start(c@.skip(i as int)) == trim_start(c@.skip(j as int)),
        decreases c@.len() - j,
    {
        assert(c@.skip(j as int).drop_first() == c@.skip(j + 1));
        j += 1;
    }
    j
}

/// The position after `prefix`, if it stands at position `i`.
pub fn skip_text(c: &Vec<char>, i: usize, prefix: &str) -> (r: Option<usize>)
    requires
        i <= c@.len(),
    ensures
        match r {
            Some(j) => i <= j <= c@.len() && strip_prefix(c@.skip(i as int), prefix@) == Some(
                c@.skip(j as int),
            ),
            None => strip_prefix(c@.skip(i as int), prefix@) is None,
        },
{
    let p = chars_of(prefix);
    if p.len() > c.len() - i {
        return None;
    }
    let mut k: usize = 0;
    while k < p.len()
        invariant
            p@ == prefix@,
            i + p.len() <= c.len(),
            k <= p@.len(),
            forall|m: int| 0 <= m < k ==> #[trigger] p@[m] == c@.skip(i as int)[m],
        decreases p@.len() - k,
    {
        assert(c@.skip(i as int)[k as int] == c@[i + k]);
        if p[k] != c[i + k] {
            return None;
        }
        k += 1;
    }
    assert(prefix@ =~= c@.skip(i as int).take(prefix@.len() as int));
    assert(c@.skip(i as int).skip(prefix@.len() as int) =~= c@.skip(i + p@.len()));
    Some(i + p.len())
}

/// Whether two texts are the same.
pub fn text_eq(a: &str, b: &str) -> (r: bool)
    ensures
        r == (a@ == b@),
{
    let x = chars_of(a);
    let y = chars_of(b);
    chars_eq(&x, &y)
}

pub fn chars_eq(x: &Vec<char>, y: &Vec<char>) -> (r: bool)
    ensures
        r == (x@ == y@),
{
    if x.len() != y.len() {
        return false;
    }
    let mut i: usize = 0;
    while i < x.len()
        invariant
            i <= x@.len(),
            x@.len() == y@.len(),
            forall|k: int| 0 <= k < i ==> x@[k] == y@[k],
        decreases x@.len() - i,
    {
        if x[i] != y[i] {
            return false;
        }
        i += 1;
    }
    assert(x@ =~= y@);
    true
}

/// `s` without its leading and trailing whitespace.
pub fn trim(s: &str) -> (r: String)
    ensures
        r@ == trim_end(trim_start(s@)),
{
    let c = chars_of(s);
    assert(c@.skip(0) =~= c@);
    let i = skip_space(&c, 0);
    let j = end_trimmed(&c, i);
    string_of(&c, i, j)
}

/// `s` without its trailing whitespace.
pub fn trim_right(s: &str) -> (r: String)
    ensures
        r@ == trim_end(s@),
{
    let c = chars_of(s);
    assert(c@.skip(0) =~= c@);
    let j = end_trimmed(&c, 0);
    string_of(&c, 0, j)
}

/// The position after the last character at or after `i` that is no whitespace.
fn end_trimmed(c: &Vec<char>, i: usize) -> (j: usize)
    requires
        i <= c@.len(),
    ensures
        i <= j <= c@.len(),
        trim_end(c@.skip(i as int)) == c@.subrange(i as int, j as int),
{
    let mut j: usize = c.len();
    assert(c@.skip(i as int) =~= c@.subrange(i as int, j as int));
    while j > i && char_is_space(c[j - 1])
        invariant
            i <= j <= c@.len(),
            trim_end(c@.skip(i as int)) == trim_end(c@.subrange(i as int, j as int)),
        decreases j,
    {
        assert(c@.subrange(i as int, j as int).drop_last() =~= c@.subrange(i as int, j - 1));
        j -= 1;
    }
    j
}

/// Whether `part` occurs in `s`.
pub fn contains_text(s: &str, part: &str) -> (r: bool)
    ensures
        r == has_text(s@, part@),
{
    let c = chars_of(s);
    let mut i: usize = 0;
    loop
        invariant
            c@ == s@,
            i <= c@.len(),
            forall|k: int| 0 <= k < i ==> !(#[trigger] part@.is_prefix_of(s@.skip(k))),
        decreases c@.len() - i,
    {
        if skip_text(&c, i, part).is_some() {
            assert(part@.is_prefix_of(s@.skip(i as int)));
            return true;
        }
        if i == c.len() {
            return false;
        }
        i += 1;
    }
}

/// The lines of a text, without their terminators.
pub fn lines_of(s: &str) -> (out: Vec<String>)
    ensures
        views(out@) == lines(s@),
{
    let c = chars_of(s);
    let mut out: Vec<String> = Vec::new();
    let mut i: usize = 0;
    assert(c@.skip(0) =~= c@);
    assert(views(out@) + lines(c@) =~= lines(c@));
    while i < c.len()
        invariant
            c@ == s@,
            i <= c@.len(),
            views(out@) + lines(c@.skip(i as int)) == lines(s@),
        decreases c@.len() - i,
    {
        let ghost rest = c@.skip(i as int);
        let ghost before = out@;
        let n = find_char(&c, i, '\n');
        proof {
            lemma_find_from_skip(c@, '\n', i as int);
        }
        if n < c.len() {
            let e = if n > i && c[n - 1] == '\r' {
                n - 1
            } else {
                n
            };
            let line = string_of(&c, i, e);
            assert(rest.take(n - i) =~= c@.subrange(i as int, n as int));
            assert(strip_cr(rest.take(n - i)) =~= c@.subrange(i as int, e as int));
            assert(rest.skip(n - i + 1) =~= c@.skip(n + 1));
            out.push(line);
            assert(views(out@) =~= views(before).push(line@));
            assert(views(out@) + lines(c@.skip(n + 1)) =~= views(before) + (seq![line@] + lines(
                c@.skip(n + 1),
            )));
            i = n + 1;
        } else {
            let line = string_of(&c, i, n);
            assert(rest =~= c@.subrange(i as int, n as int));
            out.push(line);
            assert(views(out@) =~= views(before).push(line@));
            assert(views(out@) + lines(c@.skip(n as int)) =~= views(before) + seq![line@]);
            i = n;
        }
    }
    assert(c@.skip(i as int).len() == 0);
    assert(views(out@) + lines(c@.skip(i as int)) =~= views(out@));
    out
}

/// The value in `key = "value"` when `line` holds that (whitespace may stand
/// before each of the three parts).
pub open spec fn quoted_value(line: Seq<char>, key: Seq<char>) -> Option<Seq<char>> {
    match strip_prefix(trim_start(line), key) {
        None => None,
        Some(after_key) => match strip_prefix(trim_start(after_key), "="@) {
            None => None,
            Some(after_eq) => match strip_prefix(trim_start(after_eq), "\""@) {
                None => None,
                Some(value) => {
                    let end = find_from(value, '"', 0);
                    if end < value.len() {
                        Some(value.take(end))
                    } else {
                        None
                    }
                },
            },
        },
    }
}

/// The value in `key = "value"` when `line` holds that.
pub fn quoted_value_of<'a>(line: &'a str, key: &str) -> (r: Option<&'a str>)
    ensures
        match r {
            Some(v) => quoted_value(line@, key@) == Some(v@),
            None => quoted_value(line@, key@) is None,
        },
{
    let c = chars_of(line);
    assert(c@.skip(0) =~= c@);
    let i = skip_space(&c, 0);
    let Some(i) = skip_text(&c, i, key) else {
        return None;
    };
    let i = skip_space(&c, i);
    let Some(i) = skip_text(&c, i, "=") else {
        return None;
    };
    let i = skip_space(&c, i);
    let Some(i) = skip_text(&c, i, "\"") else {
        return None;
    };
    let end = find_char(&c, i, '"');
    proof {
        lemma_find_from_skip(c@, '"', i as int);
    }
    if end == c.len() {
        return None;
    }
    assert(c@.skip(i as int).take(end - i) =~= c@.subrange(i as int, end as int));
    Some(line.substring_char(i, end))
}

/// The texts of `parts` with `sep` between any two.
pub open spec fn joined(parts: Seq<Seq<char>>, sep: Seq<char>) -> Seq<char>
    decreases parts.len(),
{
    if parts.len() == 0 {
        Seq::empty()
    } else if parts.len() == 1 {
        parts[0]
    } else {
        joined(parts.drop_last(), sep) + sep + parts.last()
    }
}

/// The texts of `parts` with `sep` between any two.
pub fn join_texts(parts: &Vec<String>, sep: &str) -> (out: String)
    ensures
        out@ == joined(views(parts@), sep@),
{
    let mut out = String::new();
    let mut i: usize = 0;
    assert(views(parts@).take(0) =~= Seq::<Seq<char>>::empty());
    while i < parts.len()
        invariant
            i <= parts@.len(),
            out@ == joined(views(parts@).take(i as int), sep@),
        decreases parts@.len() - i,
    {
        if i > 0 {
            out.append(sep);
        }
        out.append(parts[i].as_str());
        proof {
            let t = views(parts@).take(i + 1);
            assert(t.drop_last() =~= views(parts@).take(i as int));
            assert(t.last() == parts@[i as int]@);
            if i == 0 {
                assert(out@ =~= t[0]);
            }
        }
        i += 1;
    }
    assert(views(parts@).take(i as int) =~= views(parts@));
    out
}

} // verus!
