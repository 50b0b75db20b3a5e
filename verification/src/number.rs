//! Unsigned numbers as text: decimal and fixed-width hexadecimal.

use crate::text::chars_of;
use vstd::arithmetic::power::{lemma_pow_positive, pow};
use vstd::prelude::*;

verus! {

/// The value of `c` as a digit in `base` (at most 36).
pub open spec fn digit_value(c: char, base: nat) -> Option<nat> {
    let u = c as u32;
    let v: nat = if 0x30 <= u <= 0x39 {
        (u - 0x30) as nat
    } else if 0x61 <= u <= 0x7a {
        (u - 0x61 + 10) as nat
    } else if 0x41 <= u <= 0x5a {
        (u - 0x41 + 10) as nat
    } else {
        base
    };
    if v < base {
        Some(v)
    } else {
        None
    }
}

/// The value of a run of digits, most significant first; none if a character
/// is no digit.
pub open spec fn digits_value(s: Seq<char>, base: nat) -> Option<nat>
    decreases s.len(),
{
    if s.len() == 0 {
        Some(0)
    } else {
        match (digits_value(s.drop_last(), base), digit_value(s.last(), base)) {
            (Some(v), Some(d)) => Some(v * base + d),
            _ => None,
        }
    }
}

/// The number that `s` denotes: at least one digit, an optional `+` before
/// them, and a value of at most `max`.
pub open spec fn parse_number(s: Seq<char>, base: nat, max: nat) -> Option<nat> {
    let digits = if s.len() > 0 && s[0] == '+' {
        s.skip(1)
    } else {
        s
    };
    match digits_value(digits, base) {
        Some(v) if digits.len() > 0 && v <= max => Some(v),
        _ => None,
    }
}

/// The digit of value `d` (lower case).
pub open spec fn digit_char(d: nat) -> char {
    if d < 10 {
        (0x30 + d) as u8 as char
    } else {
        (0x61 + d - 10) as u8 as char
    }
}

/// `n` in decimal, without leading zeros.
pub open spec fn decimal(n: nat) -> Seq<char>
    decreases n,
{
    if n < 10 {
        seq![digit_char(n)]
    } else {
        decimal(n / 10).push(digit_char(n % 10))
    }
}

/// The last `width` hexadecimal digits of `n`, padded with zeros.
pub open spec fn hex(n: nat, width: nat) -> Seq<char>
    decreases width,
{
    if width == 0 {
        Seq::empty()
    } else {
        hex(n / 16, (width - 1) as nat).push(digit_char(n % 16))
    }
}

fn digit_of(c: char, base: u128) -> (r: Option<u128>)
    requires
        base <= 36,
    ensures
        match r {
            Some(d) => digit_value(c, base as nat) == Some(d as nat),
            None => digit_value(c, base as nat) is None,
        },
{
    let u = c as u32;
    let v: u128 = if 0x30 <= u && u <= 0x39 {
        (u - 0x30) as u128
    } else if 0x61 <= u && u <= 0x7a {
        (u - 0x61 + 10) as u128
    } else if 0x41 <= u && u <= 0x5a {
        (u - 0x41 + 10) as u128
    } else {
        base
    };
    if v < base {
        Some(v)
    } else {
        None
    }
}

fn char_of(d: u8) -> (c: char)
    requires
        d < 16,
    ensures
        c == digit_char(d as nat),
{
    if d < 10 {
        (0x30 + d) as char
    } else {
        (0x61 + (d - 10)) as char
    }
}

/// A run of digits has a value only if each of its prefixes has one, and that
/// is no larger.
proof fn lemma_prefix_value(s: Seq<char>, base: nat, k: int)
    requires
        0 <= k <= s.len(),
        base >= 1,
        digits_value(s, base) is Some,
    ensures
        digits_value(s.take(k), base) is Some,
        digits_value(s.take(k), base)->0 <= digits_value(s, base)->0,
    decreases s.len(),
{
    if k == s.len() {
        assert(s.take(k) =~= s);
    } else {
        lemma_prefix_value(s.drop_last(), base, k);
        assert(s.drop_last().take(k) =~= s.take(k));
        let v = digits_value(s.drop_last(), base)->0;
        assert(v <= v * base) by (nonlinear_arith)
            requires
                base >= 1,
        ;
    }
}

/// The number that `s` denotes in `base`, if it is at most `max`.
pub fn parse(s: &str, base: u128, max: u128) -> (r: Option<u128>)
    requires
        2 <= base <= 36,
    ensures
        match r {
            Some(v) => parse_number(s@, base as nat, max as nat) == Some(v as nat),
            None => parse_number(s@, base as nat, max as nat) is None,
        },
{
    let c = chars_of(s);
    let first: usize = if c.len() > 0 && c[0] == '+' {
        1
    } else {
        0
    };
    let ghost digits = s@.skip(first as int);
    assert(s@.skip(0) =~= s@);
    if first == c.len() {
        return None;
    }
    let mut v: u128 = 0;
    let mut i: usize = first;
    assert(digits.take(0) =~= Seq::<char>::empty());
    while i < c.len()
        invariant
            2 <= base <= 36,
            c@ == s@,
            first <= i <= c@.len(),
            first < c@.len(),
            digits == s@.skip(first as int),
            first == (if s@.len() > 0 && s@[0] == '+' {
                1int
            } else {
                0int
            }),
            digits_value(digits.take(i - first), base as nat) == Some(v as nat),
        decreases c@.len() - i,
    {
        let ghost k = i - first;
        assert(digits.take(k + 1).drop_last() =~= digits.take(k));
        assert(digits.take(k + 1).last() == c@[i as int]);
        proof {
            if digits_value(digits, base as nat) is Some {
                lemma_prefix_value(digits, base as nat, k + 1);
            }
            assert(s@.skip(0) =~= s@);
        }
        let d = match digit_of(c[i], base) {
            None => {
                return None;
            },
            Some(d) => d,
        };
        let scaled = match v.checked_mul(base) {
            None => {
                return None;
            },
            Some(x) => x,
        };
        let next = match scaled.checked_add(d) {
            None => {
                return None;
            },
            Some(x) => x,
        };
        v = next;
        i += 1;
    }
    assert(digits.take(digits.len() as int) =~= digits);
    assert(s@.skip(0) =~= s@);
    if v <= max {
        Some(v)
    } else {
        None
    }
}

/// Appends `n` in decimal.
pub fn push_decimal(out: &mut String, n: u128)
    ensures
        final(out)@ == old(out)@ + decimal(n as nat),
    decreases n,
{
    if n >= 10 {
        push_decimal(out, n / 10);
    }
    out.push(char_of((n % 10) as u8));
}

/// Appends the last `width` hexadecimal digits of `n`.
pub fn push_hex(out: &mut String, n: u64, width: u8)
    ensures
        final(out)@ == old(out)@ + hex(n as nat, width as nat),
    decreases width,
{
    if width > 0 {
        push_hex(out, n / 16, width - 1);
        out.push(char_of((n % 16) as u8));
    }
}

/// A digit reads back as its value.
proof fn lemma_digit(d: nat, base: nat)
    requires
        d < base <= 16,
    ensures
        digit_value(digit_char(d), base) == Some(d),
        digit_char(d) != '+',
{
}

proof fn lemma_decimal_value(n: nat)
    ensures
        digits_value(decimal(n), 10) == Some(n),
        decimal(n).len() > 0,
        decimal(n)[0] != '+',
        forall|i: int| 0 <= i < decimal(n).len() ==> digit_value(#[trigger] decimal(n)[i], 10) is Some,
    decreases n,
{
    lemma_digit(n % 10, 10);
    if n < 10 {
        assert(decimal(n).drop_last() =~= Seq::<char>::empty());
        assert(digits_value(decimal(n).drop_last(), 10) == Some(0nat));
    } else {
        lemma_decimal_value(n / 10);
        assert(decimal(n).drop_last() =~= decimal(n / 10));
    }
}

proof fn lemma_hex_value(n: nat, width: nat)
    requires
        n < pow(16, width),
    ensures
        digits_value(hex(n, width), 16) == Some(n),
        hex(n, width).len() == width,
        forall|i: int| 0 <= i < width ==> digit_value(#[trigger] hex(n, width)[i], 16) is Some,
    decreases width,
{
    reveal(pow);
    if width > 0 {
        let p = pow(16, (width - 1) as nat);
        lemma_pow_positive(16, (width - 1) as nat);
        assert(n / 16 < p) by (nonlinear_arith)
            requires
                n < 16 * p,
        ;
        lemma_hex_value(n / 16, (width - 1) as nat);
        lemma_digit(n % 16, 16);
        assert(hex(n, width).drop_last() =~= hex(n / 16, (width - 1) as nat));
    }
}

/// A number written in decimal reads back as itself.
pub proof fn decimal_reads_back(n: nat, max: nat)
    requires
        n <= max,
    ensures
        parse_number(decimal(n), 10, max) == Some(n),
        decimal(n).len() > 0,
        forall|i: int| 0 <= i < decimal(n).len() ==> digit_value(#[trigger] decimal(n)[i], 10) is Some,
{
    lemma_decimal_value(n);
}

/// A 64-bit number written in sixteen hexadecimal digits reads back as itself.
pub proof fn hex_reads_back(n: u64)
    ensures
        parse_number(hex(n as nat, 16), 16, u64::MAX as nat) == Some(n as nat),
        hex(n as nat, 16).len() == 16,
        forall|i: int| 0 <= i < 16 ==> digit_value(#[trigger] hex(n as nat, 16)[i], 16) is Some,
{
    assert(pow(16, 16) == 0x1_0000_0000_0000_0000) by {
        reveal_with_fuel(pow, 17);
    }
    lemma_hex_value(n as nat, 16);
    assert(hex(n as nat, 16)[0] != '+') by {
        assert(digit_value(hex(n as nat, 16)[0], 16) is Some);
    }
}

} // verus!
