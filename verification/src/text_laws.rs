//! What holds of every text, of its lines and of the numbers in it.

use crate::bytes::bytes_le;
use crate::manifest::{declares_edition, first_quoted, is_edition_line, text_view};
use crate::number::{decimal, digit_char, digit_value, digits_value, hex, parse_number};
use crate::order::text_le;
use crate::text::{
    find_from, has_text, is_space, joined, lemma_find_from, lemma_find_from_unique, lines,
    quoted_value, strip_prefix, trim_end, trim_start, views,
};
use vstd::prelude::*;

verus! {

/// Whether a text is all whitespace.
pub open spec fn is_blank(t: Seq<char>) -> bool {
    forall|i: int| 0 <= i < t.len() ==> is_space(#[trigger] t[i])
}

/// What a vector of strings holds is what each of them holds.
pub proof fn texts_are_those_of_the_strings(v: Seq<String>)
    ensures
        views(v).len() == v.len(),
        forall|i: int| 0 <= i < v.len() ==> views(v)[i] == (#[trigger] v[i])@,
{
}

/// Among the characters of ASCII, whitespace is the space and the five controls
/// from tab to carriage return; beyond it, the next line, the spaces of other
/// scripts and widths, and the line and paragraph separators.
pub proof fn whitespace_is_that_of_unicode(c: char)
    ensures
        is_space(c) <==> (c == ' ' || c == '\t' || c == '\n' || c == '\x0b' || c == '\x0c' || c
            == '\r' || c == '\u{85}' || c == '\u{a0}' || c == '\u{1680}' || c == '\u{2000}' || c
            == '\u{2001}' || c == '\u{2002}' || c == '\u{2003}' || c == '\u{2004}' || c
            == '\u{2005}' || c == '\u{2006}' || c == '\u{2007}' || c == '\u{2008}' || c
            == '\u{2009}' || c == '\u{200a}' || c == '\u{2028}' || c == '\u{2029}' || c
            == '\u{202f}' || c == '\u{205f}' || c == '\u{3000}'),
{
}

/// Trimming the start drops the whitespace in front and nothing else.
pub proof fn trimming_the_start_drops_whitespace(s: Seq<char>, n: int)
    requires
        0 <= n <= s.len(),
        is_blank(s.take(n)),
        n < s.len() ==> !is_space(s[n]),
    ensures
        trim_start(s) == s.skip(n),
    decreases s.len(),
{
    if n > 0 {
        assert(is_space(s.take(n)[0]));
        let rest = s.drop_first();
        assert forall|i: int| 0 <= i < n - 1 implies is_space(#[trigger] rest.take(n - 1)[i]) by {
            assert(rest.take(n - 1)[i] == s.take(n)[i + 1]);
        }
        trimming_the_start_drops_whitespace(rest, n - 1);
        assert(rest.skip(n - 1) =~= s.skip(n));
    } else {
        assert(s.skip(0) =~= s);
    }
}

/// Trimming the end drops the whitespace behind and nothing else.
pub proof fn trimming_the_end_drops_whitespace(s: Seq<char>, n: int)
    requires
        0 <= n <= s.len(),
        is_blank(s.skip(n)),
        n > 0 ==> !is_space(s[n - 1]),
    ensures
        trim_end(s) == s.take(n),
    decreases s.len(),
{
    if n < s.len() {
        assert(is_space(s.skip(n)[s.len() - 1 - n]));
        let rest = s.drop_last();
        assert forall|i: int| 0 <= i < rest.skip(n).len() implies is_space(
            #[trigger] rest.skip(n)[i],
        ) by {
            assert(rest.skip(n)[i] == s.skip(n)[i]);
        }
        trimming_the_end_drops_whitespace(rest, n);
        assert(rest.take(n) =~= s.take(n));
    } else {
        assert(s.take(n) =~= s);
    }
}

/// What was put in front can be stripped again, and only what stands in front is
/// stripped.
pub proof fn a_prefix_is_stripped_where_it_stands(prefix: Seq<char>, rest: Seq<char>, s: Seq<char>)
    ensures
        strip_prefix(prefix + rest, prefix) == Some(rest),
        strip_prefix(s, prefix) is Some ==> s == prefix + strip_prefix(s, prefix)->0,
{
    assert((prefix + rest).skip(prefix.len() as int) =~= rest);
    assert(prefix.is_prefix_of(prefix + rest));
    if prefix.is_prefix_of(s) {
        assert(s =~= prefix + s.skip(prefix.len() as int));
    }
}

/// A text occurs exactly where something stands before it and something behind it.
pub proof fn a_text_occurs_between_two_others(s: Seq<char>, a: Seq<char>, part: Seq<char>, b: Seq<char>)
    ensures
        has_text(a + part + b, part),
        has_text(s, part) ==> exists|x: Seq<char>, y: Seq<char>| s == #[trigger] (x + part + y),
{
    let t = a + part + b;
    assert(t.skip(a.len() as int) =~= part + b);
    assert(part.is_prefix_of(t.skip(a.len() as int)));
    if has_text(s, part) {
        let i = choose|i: int| 0 <= i <= s.len() && #[trigger] part.is_prefix_of(s.skip(i));
        let x = s.take(i);
        let y = s.skip(i + part.len());
        assert(s =~= x + part + y) by {
            assert forall|k: int| 0 <= k < part.len() implies s[i + k] == part[k] by {
                assert(s.skip(i)[k] == part[k]);
            }
        }
    }
}

/// What occurs in a text occurs in every text that it is a part of.
pub proof fn parts_of_parts_occur(a: Seq<char>, s: Seq<char>, b: Seq<char>, part: Seq<char>)
    requires
        has_text(s, part),
    ensures
        has_text(a + s + b, part),
        has_text(a + s, part),
        has_text(s + b, part),
{
    a_text_occurs_between_two_others(s, a, part, b);
    let (x, y) = choose|x: Seq<char>, y: Seq<char>| s == #[trigger] (x + part + y);
    assert(a + s + b =~= (a + x) + part + (y + b));
    assert(a + s =~= (a + x) + part + y);
    assert(s + b =~= x + part + (y + b));
    a_text_occurs_between_two_others(s, a + x, part, y + b);
    a_text_occurs_between_two_others(s, a + x, part, y);
    a_text_occurs_between_two_others(s, x, part, y + b);
}

/// A line ends at its newline, with or without a carriage return before it; what
/// follows is the rest of the lines. The last line needs no newline.
pub proof fn lines_end_at_newlines(a: Seq<char>, b: Seq<char>)
    requires
        !a.contains('\n'),
    ensures
        lines(Seq::empty()).len() == 0,
        a.len() > 0 ==> lines(a) == seq![a],
        a.len() == 0 || a.last() != '\r' ==> lines(a + seq!['\n'] + b) == seq![a] + lines(b),
        lines(a + seq!['\r', '\n'] + b) == seq![a] + lines(b),
{
    assert forall|i: int| 0 <= i < a.len() implies a[i] != '\n' by {
        assert(a.contains(a[i]));
    }
    lemma_find_from_unique(a, '\n', 0, a.len() as int);
    let t = a + seq!['\n'] + b;
    assert forall|i: int| 0 <= i < a.len() implies t[i] != '\n' by {
        assert(t[i] == a[i]);
    }
    lemma_find_from_unique(t, '\n', 0, a.len() as int);
    assert(t.take(a.len() as int) =~= a);
    assert(t.skip(a.len() as int + 1) =~= b);
    let u = a + seq!['\r', '\n'] + b;
    let n = a.len() as int + 1;
    assert forall|i: int| 0 <= i < n implies u[i] != '\n' by {
        if i < a.len() {
            assert(u[i] == a[i]);
        }
    }
    lemma_find_from_unique(u, '\n', 0, n);
    assert(u.take(n) =~= a.push('\r'));
    assert(a.push('\r').drop_last() =~= a);
    assert(u.skip(n + 1) =~= b);
}

/// Joining puts the separator between any two texts, and nowhere else.
pub proof fn joining_puts_separators_between(parts: Seq<Seq<char>>, last: Seq<char>, sep: Seq<char>)
    ensures
        joined(Seq::empty(), sep).len() == 0,
        parts.len() == 0 ==> joined(parts.push(last), sep) == last,
        parts.len() > 0 ==> joined(parts.push(last), sep) == joined(parts, sep) + sep + last,
{
    assert(parts.push(last).drop_last() =~= parts);
}

/// Each of the texts that are joined occurs in the result.
pub proof fn joining_keeps_each_text(parts: Seq<Seq<char>>, sep: Seq<char>, i: int)
    requires
        0 <= i < parts.len(),
    ensures
        has_text(joined(parts, sep), parts[i]),
    decreases parts.len(),
{
    if parts.len() == 1 {
        a_text_occurs_between_two_others(parts[0], Seq::empty(), parts[0], Seq::empty());
        assert(Seq::<char>::empty() + parts[0] + Seq::<char>::empty() =~= parts[0]);
    } else {
        let front = joined(parts.drop_last(), sep);
        if i < parts.len() - 1 {
            joining_keeps_each_text(parts.drop_last(), sep, i);
            assert(parts.drop_last()[i] == parts[i]);
            parts_of_parts_occur(Seq::empty(), front, sep + parts.last(), parts[i]);
            assert(joined(parts, sep) =~= front + (sep + parts.last()));
        } else {
            let a = front + sep;
            a_text_occurs_between_two_others(a, a, parts.last(), Seq::empty());
            assert(a + parts.last() + Seq::<char>::empty() =~= joined(parts, sep));
        }
    }
}

proof fn lemma_leading(s: Seq<char>) -> (n: int)
    ensures
        0 <= n <= s.len(),
        is_blank(s.take(n)),
        n < s.len() ==> !is_space(s[n]),
        trim_start(s) == s.skip(n),
    decreases s.len(),
{
    if s.len() > 0 && is_space(s[0]) {
        let m = lemma_leading(s.drop_first());
        let n = m + 1;
        assert forall|i: int| 0 <= i < n implies is_space(#[trigger] s.take(n)[i]) by {
            if i > 0 {
                assert(s.take(n)[i] == s.drop_first().take(m)[i - 1]);
            }
        }
        assert(s.drop_first().skip(m) =~= s.skip(n));
        n
    } else {
        assert(s.skip(0) =~= s);
        0
    }
}

/// The start of what `blank` stands before, where that starts with no whitespace.
proof fn lemma_trim_blank(blank: Seq<char>, rest: Seq<char>)
    requires
        is_blank(blank),
        rest.len() > 0 ==> !is_space(rest[0]),
    ensures
        trim_start(blank + rest) == rest,
{
    let s = blank + rest;
    let n = blank.len() as int;
    assert(s.take(n) =~= blank);
    assert(s.skip(n) =~= rest);
    trimming_the_start_drops_whitespace(s, n);
}

/// A line that gives a key a quoted value yields that value, whatever whitespace
/// stands before the key, the equals sign and the quotes, and whatever follows.
pub proof fn a_quoted_value_is_found(
    before: Seq<char>,
    key: Seq<char>,
    middle: Seq<char>,
    after: Seq<char>,
    value: Seq<char>,
    rest: Seq<char>,
)
    requires
        is_blank(before),
        is_blank(middle),
        is_blank(after),
        key.len() > 0,
        !is_space(key[0]),
        !value.contains('"'),
    ensures
        quoted_value(
            before + key + middle + seq!['='] + after + seq!['"'] + value + seq!['"'] + rest,
            key,
        ) == Some(value),
{
    reveal_strlit("=");
    reveal_strlit("\"");
    let tail = value + seq!['"'] + rest;
    let quoted = seq!['"'] + tail;
    let from_eq = seq!['='] + (after + quoted);
    let from_key = key + (middle + from_eq);
    let line = before + key + middle + seq!['='] + after + seq!['"'] + value + seq!['"'] + rest;
    assert(line =~= before + from_key);
    assert("="@ =~= seq!['=']);
    assert("\""@ =~= seq!['"']);
    lemma_trim_blank(before, from_key);
    a_prefix_is_stripped_where_it_stands(key, middle + from_eq, line);
    lemma_trim_blank(middle, from_eq);
    a_prefix_is_stripped_where_it_stands("="@, after + quoted, line);
    lemma_trim_blank(after, quoted);
    a_prefix_is_stripped_where_it_stands("\""@, tail, line);
    assert forall|i: int| 0 <= i < value.len() implies tail[i] != '"' by {
        assert(tail[i] == value[i]);
        assert(value.contains(value[i]));
    }
    lemma_find_from_unique(tail, '"', 0, value.len() as int);
    assert(tail.take(value.len() as int) =~= value);
}

/// A value comes only from a line of that form.
pub proof fn only_a_quoted_value_is_found(line: Seq<char>, key: Seq<char>)
    requires
        quoted_value(line, key) is Some,
    ensures
        !quoted_value(line, key)->0.contains('"'),
        exists|before: Seq<char>, middle: Seq<char>, after: Seq<char>, rest: Seq<char>|
            is_blank(before) && is_blank(middle) && is_blank(after) && line == #[trigger] (before
                + key + middle + seq!['='] + after + seq!['"'] + quoted_value(line, key)->0
                + seq!['"'] + rest),
{
    let v = quoted_value(line, key)->0;
    let before = lemma_blank_and_prefix(line, key);
    let after_key = strip_prefix(trim_start(line), key)->0;
    let middle = lemma_blank_and_prefix(after_key, "="@);
    let after_eq = strip_prefix(trim_start(after_key), "="@)->0;
    let after = lemma_blank_and_prefix(after_eq, "\""@);
    let value = strip_prefix(trim_start(after_eq), "\""@)->0;
    lemma_find_from(value, '"', 0);
    let end = find_from(value, '"', 0);
    let rest = value.skip(end + 1);
    assert(value =~= v + seq!['"'] + rest);
    lemma_assembled(before, key, middle, after, v, rest);
}

proof fn lemma_blank_and_prefix(s: Seq<char>, prefix: Seq<char>) -> (blank: Seq<char>)
    requires
        strip_prefix(trim_start(s), prefix) is Some,
    ensures
        is_blank(blank),
        s == blank + (prefix + strip_prefix(trim_start(s), prefix)->0),
{
    let n = lemma_leading(s);
    a_prefix_is_stripped_where_it_stands(prefix, prefix, s.skip(n));
    assert(s =~= s.take(n) + s.skip(n));
    s.take(n)
}

proof fn lemma_assembled(
    before: Seq<char>,
    key: Seq<char>,
    middle: Seq<char>,
    after: Seq<char>,
    value: Seq<char>,
    rest: Seq<char>,
)
    ensures
        before + (key + (middle + ("="@ + (after + ("\""@ + (value + seq!['"'] + rest))))))
            == before + key + middle + seq!['='] + after + seq!['"'] + value + seq!['"'] + rest,
{
    reveal_strlit("=");
    reveal_strlit("\"");
    assert("="@ =~= seq!['=']);
    assert("\""@ =~= seq!['"']);
    assert(before + (key + (middle + ("="@ + (after + ("\""@ + (value + seq!['"'] + rest))))))
        =~= before + key + middle + seq!['='] + after + seq!['"'] + value + seq!['"'] + rest);
}

/// The first line that gives a key a quoted value decides.
pub proof fn the_first_quoted_line_decides(ls: Seq<Seq<char>>, key: Seq<char>, k: int)
    requires
        0 <= k <= ls.len(),
        forall|i: int| 0 <= i < k ==> quoted_value(#[trigger] ls[i], key) is None,
        k < ls.len() ==> quoted_value(ls[k], key) is Some,
    ensures
        first_quoted(ls, key) == if k < ls.len() {
            quoted_value(ls[k], key)
        } else {
            None
        },
    decreases ls.len(),
{
    if k > 0 {
        assert(quoted_value(ls[0], key) is None);
        let rest = ls.drop_first();
        assert forall|i: int| 0 <= i < k - 1 implies quoted_value(
            #[trigger] rest[i],
            key,
        ) is None by {
            assert(rest[i] == ls[i + 1]);
        }
        the_first_quoted_line_decides(rest, key, k - 1);
    }
}

/// A line is about the edition exactly where, after whitespace, it starts with
/// the key, and then with an equals sign or a dot.
pub proof fn an_edition_line_has_its_form(
    line: Seq<char>,
    before: Seq<char>,
    middle: Seq<char>,
    c: char,
    rest: Seq<char>,
)
    ensures
        is_blank(before) && is_blank(middle) && (c == '=' || c == '.') ==> is_edition_line(
            before + "edition"@ + middle + seq![c] + rest,
        ),
        is_edition_line(line) ==> exists|x: Seq<char>, y: Seq<char>, d: char, z: Seq<char>|
            is_blank(x) && is_blank(y) && (d == '=' || d == '.') && line == #[trigger] (x
                + "edition"@ + y + seq![d] + z),
{
    reveal_strlit("edition");
    if is_blank(before) && is_blank(middle) && (c == '=' || c == '.') {
        let from_mark = seq![c] + rest;
        let from_key = "edition"@ + (middle + from_mark);
        let l = before + "edition"@ + middle + seq![c] + rest;
        assert(l =~= before + from_key);
        lemma_trim_blank(before, from_key);
        a_prefix_is_stripped_where_it_stands("edition"@, middle + from_mark, l);
        lemma_trim_blank(middle, from_mark);
    }
    if is_edition_line(line) {
        let n = lemma_leading(line);
        let x = line.take(n);
        a_prefix_is_stripped_where_it_stands("edition"@, x, line.skip(n));
        let after_key = strip_prefix(trim_start(line), "edition"@)->0;
        let m = lemma_leading(after_key);
        let y = after_key.take(m);
        let r = after_key.skip(m);
        let z = r.skip(1);
        assert(r =~= seq![r[0]] + z);
        assert(after_key =~= y + r);
        assert(line =~= x + "edition"@ + after_key);
        assert(line =~= x + "edition"@ + y + seq![r[0]] + z);
    }
}

/// A manifest declares an edition exactly where one of its lines does; one that
/// could not be read is taken to.
pub proof fn a_manifest_declares_by_one_line(content: Seq<char>)
    ensures
        declares_edition(Some(content)) <==> exists|i: int|
            0 <= i < lines(content).len() && is_edition_line(#[trigger] lines(content)[i]),
        declares_edition(None),
{
}

/// The text of an optional string is that of the string.
pub proof fn an_optional_text_is_that_of_the_string(s: String)
    ensures
        text_view(Some(s)) == Some(s@),
        text_view(None) is None,
{
}

/// The first character in which two texts differ decides their order; where
/// there is none, the shorter goes first.
pub proof fn texts_are_ordered_by_their_first_difference(a: Seq<char>, b: Seq<char>, k: int)
    requires
        0 <= k <= a.len(),
        k <= b.len(),
        forall|i: int| 0 <= i < k ==> a[i] == b[i],
        k < a.len() && k < b.len() ==> a[k] != b[k],
    ensures
        text_le(a, b) <==> (k == a.len() || (k < b.len() && a[k] < b[k])),
    decreases a.len(),
{
    if k > 0 {
        assert(a[0] == b[0]);
        let x = a.drop_first();
        let y = b.drop_first();
        assert forall|i: int| 0 <= i < k - 1 implies x[i] == y[i] by {
            assert(x[i] == a[i + 1] && y[i] == b[i + 1]);
        }
        texts_are_ordered_by_their_first_difference(x, y, k - 1);
    }
}

/// The same, of bytes.
pub proof fn bytes_are_ordered_by_their_first_difference(a: Seq<u8>, b: Seq<u8>, k: int)
    requires
        0 <= k <= a.len(),
        k <= b.len(),
        forall|i: int| 0 <= i < k ==> a[i] == b[i],
        k < a.len() && k < b.len() ==> a[k] != b[k],
    ensures
        bytes_le(a, b) <==> (k == a.len() || (k < b.len() && a[k] < b[k])),
    decreases a.len(),
{
    if k > 0 {
        assert(a[0] == b[0]);
        let x = a.drop_first();
        let y = b.drop_first();
        assert forall|i: int| 0 <= i < k - 1 implies x[i] == y[i] by {
            assert(x[i] == a[i + 1] && y[i] == b[i + 1]);
        }
        bytes_are_ordered_by_their_first_difference(x, y, k - 1);
    }
}

/// The ten digits, and the letters in either case, have their usual values.
pub proof fn digits_have_their_values(c: char, base: nat)
    requires
        base <= 36,
    ensures
        '0' <= c <= '9' && (c as int) - ('0' as int) < base ==> digit_value(c, base) == Some(((c as int) - ('0' as int)) as nat),
        'a' <= c <= 'z' && (c as int) - ('a' as int) + 10 < base ==> digit_value(c, base) == Some(
            ((c as int) - ('a' as int) + 10) as nat,
        ),
        'A' <= c <= 'Z' && (c as int) - ('A' as int) + 10 < base ==> digit_value(c, base) == Some(
            ((c as int) - ('A' as int) + 10) as nat,
        ),
        !('0' <= c <= '9' || 'a' <= c <= 'z' || 'A' <= c <= 'Z') ==> digit_value(c, base) is None,
        digit_value(c, base) is Some ==> digit_value(c, base)->0 < base,
{
}

/// One more digit multiplies by the base and adds the digit, up to the maximum; a
/// text with anything else in it is no number.
pub proof fn one_more_digit_multiplies(s: Seq<char>, c: char, base: nat, max: nat, v: nat)
    requires
        parse_number(s, base, v) == Some(v),
    ensures
        digit_value(c, base) is Some && v * base + digit_value(c, base)->0 <= max ==> parse_number(
            s.push(c),
            base,
            max,
        ) == Some(v * base + digit_value(c, base)->0),
        digit_value(c, base) is Some && v * base + digit_value(c, base)->0 > max ==> parse_number(
            s.push(c),
            base,
            max,
        ) is None,
        digit_value(c, base) is None ==> parse_number(s.push(c), base, max) is None,
{
    let t = s.push(c);
    let signed = s[0] == '+';
    let digits = if signed {
        s.skip(1)
    } else {
        s
    };
    let more = if signed {
        t.skip(1)
    } else {
        t
    };
    assert(t[0] == s[0]);
    assert(more =~= digits.push(c));
    assert(more.drop_last() =~= digits);
}

/// A single digit is its value, a sign in front does not count, and without a
/// digit there is no number.
pub proof fn numbers_start_with_a_digit(s: Seq<char>, c: char, base: nat, max: nat)
    requires
        c != '+',
    ensures
        digit_value(c, base) is Some && digit_value(c, base)->0 <= max ==> parse_number(
            seq![c],
            base,
            max,
        ) == digit_value(c, base),
        digit_value(c, base) is None ==> parse_number(seq![c], base, max) is None,
        parse_number(Seq::empty(), base, max) is None,
        parse_number(seq!['+'], base, max) is None,
        s.len() > 0 && s[0] != '+' ==> parse_number(seq!['+'] + s, base, max) == parse_number(
            s,
            base,
            max,
        ),
        parse_number(s, base, max) is Some ==> parse_number(s, base, max)->0 <= max,
{
    let one = seq![c];
    assert(one.drop_last() =~= Seq::empty());
    assert(digits_value(one.drop_last(), base) == Some(0nat));
    assert(0 * base == 0) by (nonlinear_arith);
    assert(seq!['+'].skip(1) =~= Seq::empty());
    assert((seq!['+'] + s).skip(1) =~= s);
}

/// A number in decimal is the number without its last digit, and then that digit.
pub proof fn decimals_end_with_the_last_digit(n: nat, d: nat)
    requires
        d < 10,
    ensures
        decimal(d).len() == 1,
        (decimal(d)[0] as nat) == ('0' as nat) + d,
        n > 0 ==> decimal(n * 10 + d) == decimal(n) + decimal(d),
{
    let m = n * 10 + d;
    assert(m / 10 == n && m % 10 == d);
    assert(decimal(n).push(decimal(d)[0]) =~= decimal(n) + decimal(d));
}

/// Hexadecimal digits are the ten digits and the first six letters in lower case;
/// the last stands for what remains over a multiple of the base.
pub proof fn hexadecimals_end_with_the_last_digit(n: nat, d: nat, width: nat)
    requires
        d < 16,
    ensures
        hex(n, 0).len() == 0,
        hex(n * 16 + d, width + 1) == hex(n, width).push(hex(d, 1)[0]),
        d < 10 ==> (hex(d, 1)[0] as nat) == ('0' as nat) + d,
        d >= 10 ==> (hex(d, 1)[0] as nat) == ('a' as nat) + d - 10,
{
    let m = n * 16 + d;
    assert(m / 16 == n && m % 16 == d);
    assert(d % 16 == d);
    assert(hex(d, 1) =~= hex(d / 16, 0).push(digit_char(d)));
}

} // verus!
