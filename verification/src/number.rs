//! Numbers as the digits that write them.

use vstd::prelude::*;

use crate::ascii;

verus! {

/// The value of the digit `b` in a base of at most sixteen, letters in either case.
pub open spec fn digit(b: u8, base: nat) -> Option<nat> {
    let v: int = if '0' as u8 <= b <= '9' as u8 {
        b - '0' as u8
    } else if 'a' as u8 <= b <= 'f' as u8 {
        b - 'a' as u8 + 10
    } else if 'A' as u8 <= b <= 'F' as u8 {
        b - 'A' as u8 + 10
    } else {
        16
    };
    if v < base {
        Some(v as nat)
    } else {
        None
    }
}

/// The value that a run of digits writes, most significant first; nothing where one is no digit.
pub open spec fn digits(s: Seq<u8>, base: nat) -> Option<nat>
    decreases s.len(),
{
    if s.len() == 0 {
        Some(0)
    } else {
        match (digits(s.drop_last(), base), digit(s.last(), base)) {
            (Some(high), Some(low)) => Some(high * base + low),
            _ => None,
        }
    }
}

/// The number that one or more digits write.
pub open spec fn number(s: Seq<u8>, base: nat) -> Option<nat> {
    if s.len() == 0 {
        None
    } else {
        digits(s, base)
    }
}

/// The number that the digits write behind a plus sign that may be left out.
pub open spec fn unsigned(s: Seq<u8>, base: nat) -> Option<nat> {
    if s.len() > 0 && s[0] == '+' as u8 {
        number(s.skip(1), base)
    } else {
        number(s, base)
    }
}

/// The number, where it is at most `max`.
pub open spec fn at_most(n: Option<nat>, max: nat) -> Option<nat> {
    match n {
        Some(v) if v <= max => n,
        _ => None,
    }
}

/// The digit of `d` in base ten or sixteen, small letters.
pub open spec fn digit_char(d: nat) -> char {
    if d < 10 {
        ('0' as u8 + d) as char
    } else {
        ('a' as u8 + (d - 10)) as char
    }
}

/// `n` written in `base` without leading zeros.
pub open spec fn written(n: nat, base: nat) -> Seq<char>
    decreases n,
{
    if n < base || base < 2 {
        seq![digit_char(n)]
    } else {
        proof {
            assert(n / base < n) by (nonlinear_arith)
                requires
                    2 <= base <= n,
            ;
        }
        written(n / base, base).push(digit_char(n % base))
    }
}

/// `n` in decimal.
pub open spec fn decimal(n: nat) -> Seq<char> {
    written(n, 10)
}

/// `n` in hexadecimal, small letters.
pub open spec fn hexadecimal(n: nat) -> Seq<char> {
    written(n, 16)
}

/// A longer run of digits writes no smaller a value.
pub proof fn lemma_digits_prefix(s: Seq<u8>, base: nat, n: int)
    requires
        base >= 1,
        0 <= n <= s.len(),
        digits(s, base) is Some,
    ensures
        digits(s.take(n), base) is Some,
        digits(s.take(n), base)->0 <= digits(s, base)->0,
    decreases s.len() - n,
{
    if n < s.len() {
        lemma_digits_prefix(s, base, n + 1);
        let t = s.take(n + 1);
        assert(t.drop_last() =~= s.take(n));
        let high: nat = digits(s.take(n), base)->0;
        assert(high <= high * base) by (nonlinear_arith)
            requires
                base >= 1,
        ;
    } else {
        assert(s.take(n) =~= s);
    }
}

/// The digit that writes a value has that value.
pub proof fn lemma_digit_of_char(d: nat, base: nat)
    requires
        d < base <= 16,
    ensures
        digit(digit_char(d) as u8, base) == Some(d),
        (digit_char(d) as u32) < 128,
{
}

/// What `written` writes is read back as the same number.
pub proof fn lemma_written_reads_back(n: nat, base: nat)
    requires
        2 <= base <= 16,
    ensures
        written(n, base).len() >= 1,
        number(ascii::bytes(written(n, base)), base) == Some(n),
    decreases n,
{
    let w = written(n, base);
    let s = ascii::bytes(w);
    if n < base {
        lemma_digit_of_char(n, base);
        assert(s.drop_last() =~= Seq::<u8>::empty());
        assert(digits(s.drop_last(), base) == Some(0nat));
        assert(0 * base == 0) by (nonlinear_arith);
    } else {
        let q: nat = n / base;
        assert(q < n) by (nonlinear_arith)
            requires
                q == n / base,
                2 <= base <= n,
        ;
        lemma_written_reads_back(q, base);
        let d: nat = n % base;
        assert(d < base) by (nonlinear_arith)
            requires
                d == n % base,
                2 <= base,
        ;
        lemma_digit_of_char(d, base);
        assert(s.drop_last() =~= ascii::bytes(written(q, base)));
        assert(q * base + d == n) by (nonlinear_arith)
            requires
                q == n / base,
                d == n % base,
                base >= 2,
        ;
    }
}

/// The value of a digit, or nothing.
pub fn digit_value(b: u8, base: u64) -> (r: Option<u64>)
    ensures
        match r {
            Some(v) => digit(b, base as nat) == Some(v as nat),
            None => digit(b, base as nat) is None,
        },
{
    let v: u64 = if '0' as u8 <= b && b <= '9' as u8 {
        (b - '0' as u8) as u64
    } else if 'a' as u8 <= b && b <= 'f' as u8 {
        (b - 'a' as u8 + 10) as u64
    } else if 'A' as u8 <= b && b <= 'F' as u8 {
        (b - 'A' as u8 + 10) as u64
    } else {
        16
    };
    if v < base {
        Some(v)
    } else {
        None
    }
}

/// The number that `s` writes in `base`, where it is at most `max`.
pub fn parse_number(s: &[u8], base: u64, max: u64) -> (r: Option<u64>)
    requires
        2 <= base <= 16,
    ensures
        match r {
            Some(v) => at_most(number(s@, base as nat), max as nat) == Some(v as nat),
            None => at_most(number(s@, base as nat), max as nat) is None,
        },
{
    if s.len() == 0 {
        return None;
    }
    let mut value: u64 = 0;
    let mut i: usize = 0;
    assert(s@.take(0) =~= Seq::<u8>::empty());
    while i < s.len()
        invariant
            i <= s@.len(),
            2 <= base <= 16,
            value <= max,
            digits(s@.take(i as int), base as nat) == Some(value as nat),
            s@.len() > 0,
        decreases s@.len() - i,
    {
        let ghost t = s@.take(i + 1);
        assert(t.drop_last() =~= s@.take(i as int));
        assert(t.last() == s@[i as int]);
        let low: u64 = match digit_value(s[i], base) {
            Some(low) => low,
            None => {
                proof {
                    if digits(s@, base as nat) is Some {
                        lemma_digits_prefix(s@, base as nat, i + 1);
                    }
                }
                return None;
            },
        };
        let ghost next: nat = value as nat * base as nat + low as nat;
        assert(digits(t, base as nat) == Some(next));
        let scaled: Option<u64> = value.checked_mul(base);
        let sum: Option<u64> = match scaled {
            Some(high) => high.checked_add(low),
            None => None,
        };
        match sum {
            Some(v) if v <= max => {
                value = v;
            },
            _ => {
                proof {
                    assert(next > max);
                    if digits(s@, base as nat) is Some {
                        lemma_digits_prefix(s@, base as nat, i + 1);
                    }
                }
                return None;
            },
        }
        i += 1;
    }
    assert(s@.take(i as int) =~= s@);
    Some(value)
}

/// The number that `s` writes in `base` behind an optional plus sign, where it is at most `max`.
pub fn parse_unsigned(s: &[u8], base: u64, max: u64) -> (r: Option<u64>)
    requires
        2 <= base <= 16,
    ensures
        match r {
            Some(v) => at_most(unsigned(s@, base as nat), max as nat) == Some(v as nat),
            None => at_most(unsigned(s@, base as nat), max as nat) is None,
        },
{
    if s.len() > 0 && s[0] == '+' as u8 {
        parse_number(ascii::skip(s, 1), base, max)
    } else {
        parse_number(s, base, max)
    }
}

/// The digit character of `d`.
pub fn digit_of(d: u64) -> (c: char)
    requires
        d < 16,
    ensures
        c == digit_char(d as nat),
{
    if d < 10 {
        ('0' as u8 + d as u8) as char
    } else {
        ('a' as u8 + (d - 10) as u8) as char
    }
}

/// Append `n`, written in `base`, to `out`.
pub fn push_written(out: &mut Vec<char>, n: u64, base: u64)
    requires
        2 <= base <= 16,
    ensures
        final(out)@ == old(out)@ + written(n as nat, base as nat),
    decreases n,
{
    if n < base {
        out.push(digit_of(n));
        assert(out@ =~= old(out)@ + written(n as nat, base as nat));
    } else {
        assert(n / base < n) by (nonlinear_arith)
            requires
                2 <= base <= n,
        ;
        assert(n % base < base) by (nonlinear_arith)
            requires
                2 <= base,
        ;
        push_written(out, n / base, base);
        out.push(digit_of(n % base));
        assert(out@ =~= old(out)@ + written(n as nat, base as nat));
    }
}

} // verus!
