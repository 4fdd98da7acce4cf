//! Decimal numbers: reading them from characters and writing them out.
use vstd::prelude::*;

use crate::text::chars_of;

verus! {

pub open spec fn is_digit(c: char) -> bool {
    '0' <= c && c <= '9'
}

pub open spec fn digit_value(c: char) -> nat {
    ((c as u32) - ('0' as u32)) as nat
}

/// A non-empty run of decimal digits.
pub open spec fn is_digit_run(s: Seq<char>) -> bool {
    s.len() > 0 && forall|i: int| 0 <= i < s.len() ==> is_digit(#[trigger] s[i])
}

/// The number that a run of digits spells, most significant digit first.
pub open spec fn digits_value(s: Seq<char>) -> nat
    decreases s.len(),
{
    if s.len() == 0 {
        0
    } else {
        digits_value(s.drop_last()) * 10 + digit_value(s.last())
    }
}

/// The `usize` that `s` spells in decimal (leading zeros allowed, no sign),
/// if it spells one.
pub open spec fn decimal_of(s: Seq<char>) -> Option<usize> {
    if is_digit_run(s) && digits_value(s) <= usize::MAX {
        Some(digits_value(s) as usize)
    } else {
        None
    }
}

/// How `str::parse::<usize>` reads text: an optional `+`, then decimal digits.
pub open spec fn unsigned_of(s: Seq<char>) -> Option<usize> {
    if s.len() > 0 && s[0] == '+' {
        decimal_of(s.drop_first())
    } else {
        decimal_of(s)
    }
}

/// The decimal digits of `n`, without sign or leading zeros.
pub open spec fn decimal_text(n: nat) -> Seq<char>
    decreases n,
{
    if n < 10 {
        seq![digit_char(n)]
    } else {
        decimal_text(n / 10).push(digit_char(n % 10))
    }
}

pub open spec fn digit_char(d: nat) -> char {
    if d == 0 { '0' }
    else if d == 1 { '1' }
    else if d == 2 { '2' }
    else if d == 3 { '3' }
    else if d == 4 { '4' }
    else if d == 5 { '5' }
    else if d == 6 { '6' }
    else if d == 7 { '7' }
    else if d == 8 { '8' }
    else { '9' }
}

proof fn lemma_prefix_value_le(s: Seq<char>, j: int)
    requires
        0 <= j <= s.len(),
    ensures
        digits_value(s.take(j)) <= digits_value(s),
    decreases s.len() - j,
{
    if j < s.len() {
        lemma_prefix_value_le(s, j + 1);
        assert(s.take(j + 1).drop_last() =~= s.take(j));
    } else {
        assert(s.take(j) =~= s);
    }
}

/// Reads `v[lo..hi]` as a decimal number.
pub fn read_decimal(v: &Vec<char>, lo: usize, hi: usize) -> (r: Option<usize>)
    requires
        lo <= hi <= v@.len(),
    ensures
        r == decimal_of(v@.subrange(lo as int, hi as int)),
{
    let ghost s = v@.subrange(lo as int, hi as int);
    if lo == hi {
        return None;
    }
    let mut i: usize = lo;
    while i < hi
        invariant
            lo <= i <= hi <= v@.len(),
            s == v@.subrange(lo as int, hi as int),
            forall|k: int| 0 <= k < i - lo ==> is_digit(#[trigger] s[k]),
        decreases hi - i,
    {
        let c = v[i];
        if !('0' <= c && c <= '9') {
            assert(!is_digit(s[i - lo]));
            return None;
        }
        i = i + 1;
    }
    assert(is_digit_run(s));
    let mut acc: usize = 0;
    let mut i: usize = lo;
    while i < hi
        invariant
            lo <= i <= hi <= v@.len(),
            s == v@.subrange(lo as int, hi as int),
            is_digit_run(s),
            acc as nat == digits_value(s.take(i - lo)),
        decreases hi - i,
    {
        assert(v@[i as int] == s[i - lo]);
        assert(is_digit(s[i - lo]));
        let d = (v[i] as u32 - '0' as u32) as usize;
        assert(s.take(i - lo + 1).drop_last() =~= s.take(i - lo));
        assert(s.take(i - lo + 1).last() == s[i - lo]);
        if acc > (usize::MAX - d) / 10 {
            proof {
                lemma_prefix_value_le(s, i - lo + 1);
            }
            assert(digits_value(s.take(i - lo + 1)) > usize::MAX) by (nonlinear_arith)
                requires
                    acc > (usize::MAX - d) / 10,
                    digits_value(s.take(i - lo + 1)) == acc * 10 + d,
                    d <= 9,
            ;
            return None;
        }
        assert(acc * 10 + d <= usize::MAX) by (nonlinear_arith)
            requires
                acc <= (usize::MAX - d) / 10,
                d <= 9,
        ;
        acc = acc * 10 + d;
        i = i + 1;
    }
    assert(s.take(hi - lo) =~= s);
    Some(acc)
}

/// Appends the decimal digits of `n` to `out`.
pub fn push_decimal(out: &mut String, n: usize)
    ensures
        final(out)@ == old(out)@ + decimal_text(n as nat),
    decreases n,
{
    if n >= 10 {
        push_decimal(out, n / 10);
    }
    let d = n % 10;
    let c = if d == 0 { '0' }
        else if d == 1 { '1' }
        else if d == 2 { '2' }
        else if d == 3 { '3' }
        else if d == 4 { '4' }
        else if d == 5 { '5' }
        else if d == 6 { '6' }
        else if d == 7 { '7' }
        else if d == 8 { '8' }
        else { '9' };
    out.push(c);
    assert(final(out)@ =~= old(out)@ + decimal_text(n as nat));
}

/// Reads a count such as a number of lines: a positive `usize`, written as
/// `str::parse` reads it. The error holds the text that was refused.
pub fn parse_positive_int(val: &str) -> (r: Result<usize, String>)
    ensures
        match r {
            Ok(n) => unsigned_of(val@) == Some(n) && n > 0,
            Err(e) => e@ == val@ && !(unsigned_of(val@) is Some && unsigned_of(val@)->0 > 0),
        },
{
    let v = chars_of(val);
    let n = v.len();
    let parsed = if n > 0 && v[0] == '+' {
        assert(v@.subrange(1, n as int) =~= v@.drop_first());
        read_decimal(&v, 1, n)
    } else {
        assert(v@.subrange(0, n as int) =~= v@);
        read_decimal(&v, 0, n)
    };
    match parsed {
        Some(k) => {
            if k > 0 {
                return Ok(k);
            }
        },
        None => {},
    }
    Err(val.to_owned())
}

/// Relies on `String::push`: the character is added at the end.
pub assume_specification[ String::push ](s: &mut String, ch: char)
    ensures
        final(s)@ == old(s)@.push(ch),
;

} // verus!
