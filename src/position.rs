//! Position lists: the selector syntax `1,3-5,7` read as half-open ranges of
//! 0-based indices, in the order written.
use core::ops::Range;
use vstd::prelude::*;

use crate::number::{decimal_of, is_digit, is_digit_run, push_decimal, read_decimal};
use crate::text::{chars_of, string_of};

verus! {

/// Why a selector string was refused.
#[derive(Debug, PartialEq, Eq)]
pub enum ParseError {
    /// A token that is no position and no range, or a number in it that is
    /// not a positive `usize`; holds the offending text.
    IllegalToken(String),
    /// A range `N-M` with `N >= M`; holds `N` and `M` as numbers.
    RangeOrder(usize, usize),
}

/// What one comma-separated token of a selector stands for.
pub enum TokenMeaning {
    /// The half-open range `[start, end)`.
    Positions(usize, usize),
    /// Refused; holds the offending text.
    Illegal(Seq<char>),
    /// A range whose first number is not below its second.
    Inverted(usize, usize),
}

/// `s` cut at every `sep`; `n` separators give `n + 1` pieces.
pub open spec fn split_on(s: Seq<char>, sep: char) -> Seq<Seq<char>>
    decreases s.len(),
{
    if s.len() == 0 {
        seq![Seq::<char>::empty()]
    } else {
        let prev = split_on(s.drop_last(), sep);
        if s.last() == sep {
            prev.push(Seq::<char>::empty())
        } else {
            prev.update(prev.len() - 1, prev.last().push(s.last()))
        }
    }
}

/// The number `t` spells, if it is a positive `usize` in plain decimal.
pub open spec fn positive_of(t: Seq<char>) -> Option<usize> {
    match decimal_of(t) {
        Some(v) => if v >= 1 { Some(v) } else { None },
        None => None,
    }
}

/// `t` is two runs of digits joined by the hyphen at `k`.
pub open spec fn is_span_at(t: Seq<char>, k: int) -> bool {
    0 <= k < t.len() && t[k] == '-' && is_digit_run(t.take(k)) && is_digit_run(t.skip(k + 1))
}

/// The meaning of one token: a 1-based position `N`, or a 1-based inclusive
/// range `N-M`, each number a positive decimal.
pub open spec fn token_meaning(t: Seq<char>) -> TokenMeaning {
    if t.contains('+') {
        TokenMeaning::Illegal(t)
    } else if positive_of(t) is Some {
        let v = positive_of(t)->0;
        TokenMeaning::Positions((v - 1) as usize, v)
    } else if exists|k: int| is_span_at(t, k) {
        let k = choose|k: int| is_span_at(t, k);
        let a = t.take(k);
        let b = t.skip(k + 1);
        match (positive_of(a), positive_of(b)) {
            (None, _) => TokenMeaning::Illegal(a),
            (Some(_), None) => TokenMeaning::Illegal(b),
            (Some(n), Some(m)) => if n >= m {
                TokenMeaning::Inverted(n, m)
            } else {
                TokenMeaning::Positions((n - 1) as usize, m)
            },
        }
    } else {
        TokenMeaning::Illegal(t)
    }
}

/// The tokens read in order: their ranges, or the first refusal.
pub open spec fn parse_tokens(ts: Seq<Seq<char>>) -> Result<Seq<Range<usize>>, TokenMeaning>
    decreases ts.len(),
{
    if ts.len() == 0 {
        Ok(Seq::empty())
    } else {
        match parse_tokens(ts.drop_last()) {
            Err(e) => Err(e),
            Ok(rs) => match token_meaning(ts.last()) {
                TokenMeaning::Positions(a, b) => Ok(rs.push(Range { start: a, end: b })),
                other => Err(other),
            },
        }
    }
}

/// What a selector string means: its ranges in order, or the first refusal.
pub open spec fn position_list(s: Seq<char>) -> Result<Seq<Range<usize>>, TokenMeaning> {
    parse_tokens(split_on(s, ','))
}

impl ParseError {
    pub open spec fn meaning(&self) -> TokenMeaning {
        match self {
            ParseError::IllegalToken(t) => TokenMeaning::Illegal(t@),
            ParseError::RangeOrder(n, m) => TokenMeaning::Inverted(*n, *m),
        }
    }

    /// The message shown to the user.
    pub fn to_string(&self) -> (r: String)
        ensures
            r@ == error_message(self.meaning()),
    {
        let mut r = String::new();
        match self {
            ParseError::IllegalToken(t) => {
                r.append("illegal list value: \"");
                r.append(t.as_str());
                r.append("\"");
            },
            ParseError::RangeOrder(n, m) => {
                r.append("First number in range (");
                push_decimal(&mut r, *n);
                r.append(") must be lower than second number (");
                push_decimal(&mut r, *m);
                r.append(")");
            },
        }
        r
    }
}

pub open spec fn error_message(m: TokenMeaning) -> Seq<char> {
    match m {
        TokenMeaning::Illegal(t) => "illegal list value: \""@ + t + "\""@,
        TokenMeaning::Inverted(n, m) => "First number in range ("@ + crate::number::decimal_text(
            n as nat,
        ) + ") must be lower than second number ("@ + crate::number::decimal_text(m as nat)
            + ")"@,
        TokenMeaning::Positions(_, _) => Seq::empty(),
    }
}

proof fn lemma_split_keeps_pieces(s: Seq<char>, sep: char, i: int, j: int)
    requires
        0 <= i <= j <= s.len(),
    ensures
        split_on(s.take(i), sep).len() >= 1,
        split_on(s.take(i), sep).len() <= split_on(s.take(j), sep).len(),
        forall|k: int|
            0 <= k < split_on(s.take(i), sep).len() - 1 ==> split_on(s.take(j), sep)[k]
                == split_on(s.take(i), sep)[k],
    decreases j - i,
{
    if i < j {
        lemma_split_keeps_pieces(s, sep, i, j - 1);
        assert(s.take(j).drop_last() =~= s.take(j - 1));
        lemma_split_nonempty(s.take(j - 1), sep);
    } else {
        lemma_split_nonempty(s.take(i), sep);
    }
}

proof fn lemma_split_nonempty(s: Seq<char>, sep: char)
    ensures
        split_on(s, sep).len() >= 1,
    decreases s.len(),
{
    if s.len() > 0 {
        lemma_split_nonempty(s.drop_last(), sep);
    }
}

proof fn lemma_first_error_stays(ts: Seq<Seq<char>>, us: Seq<Seq<char>>)
    requires
        ts.len() <= us.len(),
        us.take(ts.len() as int) == ts,
        parse_tokens(ts) is Err,
    ensures
        parse_tokens(us) == parse_tokens(ts),
    decreases us.len(),
{
    if us.len() > ts.len() {
        assert(us.drop_last().take(ts.len() as int) =~= ts);
        lemma_first_error_stays(ts, us.drop_last());
    } else {
        assert(us =~= ts);
    }
}

/// Whether `v[lo..hi]` is a non-empty run of digits.
fn is_digit_run_at(v: &Vec<char>, lo: usize, hi: usize) -> (r: bool)
    requires
        lo <= hi <= v@.len(),
    ensures
        r == is_digit_run(v@.subrange(lo as int, hi as int)),
{
    let ghost s = v@.subrange(lo as int, hi as int);
    if lo == hi {
        return false;
    }
    let mut i: usize = lo;
    while i < hi
        invariant
            lo <= i <= hi <= v@.len(),
            s == v@.subrange(lo as int, hi as int),
            forall|k: int| 0 <= k < i - lo ==> is_digit(#[trigger] s[k]),
        decreases hi - i,
    {
        if !('0' <= v[i] && v[i] <= '9') {
            assert(!is_digit(s[i - lo]));
            return false;
        }
        i = i + 1;
    }
    true
}

/// The first index in `lo..hi` that holds `c`, if any.
fn find_char(v: &Vec<char>, lo: usize, hi: usize, c: char) -> (r: Option<usize>)
    requires
        lo <= hi <= v@.len(),
    ensures
        r is Some ==> lo <= r->0 < hi && v@[r->0 as int] == c,
        forall|k: int| lo <= k < (if r is Some { r->0 as int } else { hi as int }) ==> v@[k] != c,
{
    let mut i: usize = lo;
    while i < hi
        invariant
            lo <= i <= hi <= v@.len(),
            forall|k: int| lo <= k < i ==> v@[k] != c,
        decreases hi - i,
    {
        if v[i] == c {
            return Some(i);
        }
        i = i + 1;
    }
    None
}

/// Reads the token `v[lo..hi]`.
fn read_token(v: &Vec<char>, lo: usize, hi: usize) -> (r: Result<Range<usize>, ParseError>)
    requires
        lo <= hi <= v@.len(),
    ensures
        match r {
            Ok(p) => token_meaning(v@.subrange(lo as int, hi as int)) == TokenMeaning::Positions(
                p.start,
                p.end,
            ),
            Err(e) => token_meaning(v@.subrange(lo as int, hi as int)) == e.meaning(),
        },
{
    let ghost t = v@.subrange(lo as int, hi as int);
    let plus = find_char(v, lo, hi, '+');
    if plus.is_some() {
        assert(t[plus.unwrap() - lo] == '+');
        assert(t.contains('+'));
        return Err(ParseError::IllegalToken(string_of(v, lo, hi)));
    }
    assert(!t.contains('+')) by {
        if t.contains('+') {
            let k = choose|k: int| 0 <= k < t.len() && t[k] == '+';
            assert(v@[lo + k] == '+');
        }
    }
    match read_decimal(v, lo, hi) {
        Some(n) => {
            if n >= 1 {
                return Ok((n - 1)..n);
            }
        },
        None => {},
    }
    assert(positive_of(t) is None);
    let dash = find_char(v, lo, hi, '-');
    match dash {
        None => {
            assert(!exists|k: int| is_span_at(t, k)) by {
                if exists|k: int| is_span_at(t, k) {
                    let k = choose|k: int| is_span_at(t, k);
                    assert(v@[lo + k] == '-');
                }
            }
            Err(ParseError::IllegalToken(string_of(v, lo, hi)))
        },
        Some(k) => {
            let ghost kk = k - lo;
            assert(t.take(kk) == v@.subrange(lo as int, k as int));
            assert(t.skip(kk + 1) == v@.subrange(k + 1, hi as int));
            if !is_digit_run_at(v, lo, k) || !is_digit_run_at(v, k + 1, hi) {
                assert(!exists|j: int| is_span_at(t, j)) by {
                    if exists|j: int| is_span_at(t, j) {
                        let j = choose|j: int| is_span_at(t, j);
                        if j < kk {
                            assert(v@[lo + j] == '-');
                        } else if j > kk {
                            assert(t.take(j)[kk] == '-');
                        }
                    }
                }
                return Err(ParseError::IllegalToken(string_of(v, lo, hi)));
            }
            assert(is_span_at(t, kk));
            assert forall|j: int| is_span_at(t, j) implies j == kk by {
                if j < kk {
                    assert(v@[lo + j] == '-');
                } else if j > kk {
                    assert(t.take(j)[kk] == '-');
                }
            }
            let first = read_decimal(v, lo, k);
            let second = read_decimal(v, k + 1, hi);
            match first {
                Some(n) if n >= 1 => match second {
                    Some(m) if m >= 1 => {
                        if n >= m {
                            Err(ParseError::RangeOrder(n, m))
                        } else {
                            Ok((n - 1)..m)
                        }
                    },
                    _ => Err(ParseError::IllegalToken(string_of(v, k + 1, hi))),
                },
                _ => Err(ParseError::IllegalToken(string_of(v, lo, k))),
            }
        },
    }
}

/// What a result of `parse_pos` says: the ranges, or the meaning of the error.
pub open spec fn parse_outcome(r: &Result<Vec<Range<usize>>, ParseError>) -> Result<
    Seq<Range<usize>>,
    TokenMeaning,
> {
    match r {
        Ok(v) => Ok(v@),
        Err(e) => Err(e.meaning()),
    }
}

proof fn lemma_tokens_well_formed(ts: Seq<Seq<char>>)
    ensures
        parse_tokens(ts) is Ok ==> parse_tokens(ts)->Ok_0.len() == ts.len() && forall|k: int|
            0 <= k < ts.len() ==> (#[trigger] parse_tokens(ts)->Ok_0[k]).start < parse_tokens(
                ts,
            )->Ok_0[k].end,
    decreases ts.len(),
{
    if ts.len() > 0 {
        lemma_tokens_well_formed(ts.drop_last());
    }
}

/// A selector that parses gives at least one range, and every range it gives
/// is non-empty: its start lies below its end.
pub proof fn lemma_parsed_ranges_well_formed(s: Seq<char>)
    ensures
        position_list(s) is Ok ==> position_list(s)->Ok_0.len() > 0 && forall|k: int|
            0 <= k < position_list(s)->Ok_0.len() ==> (#[trigger] position_list(s)->Ok_0[k]).start
                < position_list(s)->Ok_0[k].end,
{
    lemma_split_nonempty(s, ',');
    lemma_tokens_well_formed(split_on(s, ','));
}

/// Parsing depends on the text alone: any two results that `parse_pos` may
/// give for the same text agree, in their ranges or in their error.
pub proof fn lemma_parse_deterministic(
    text: Seq<char>,
    r1: &Result<Vec<Range<usize>>, ParseError>,
    r2: &Result<Vec<Range<usize>>, ParseError>,
)
    requires
        parse_outcome(r1) == position_list(text),
        parse_outcome(r2) == position_list(text),
    ensures
        r1 is Ok <==> r2 is Ok,
        r1 is Ok ==> r1->Ok_0@ == r2->Ok_0@,
        r1 is Err ==> r1->Err_0.meaning() == r2->Err_0.meaning(),
{
}

/// Parses a selector such as `1,3-5,7` into half-open 0-based ranges, in the
/// order written. The whole selector is refused at its first bad token.
pub fn parse_pos(range: &str) -> (r: Result<Vec<Range<usize>>, ParseError>)
    ensures
        parse_outcome(&r) == position_list(range@),
        r is Ok ==> r->Ok_0@.len() > 0 && forall|k: int|
            0 <= k < r->Ok_0@.len() ==> (#[trigger] r->Ok_0@[k]).start < r->Ok_0@[k].end,
{
    proof {
        lemma_parsed_ranges_well_formed(range@);
    }
    let v = chars_of(range);
    let mut pos: Vec<Range<usize>> = Vec::new();
    let mut lo: usize = 0;
    let mut i: usize = 0;
    let ghost mut done: Seq<Seq<char>> = Seq::empty();
    assert(v@.take(0) =~= Seq::<char>::empty());
    assert(done.push(v@.subrange(0, 0)) =~= seq![Seq::<char>::empty()]);
    while i < v.len()
        invariant
            lo <= i <= v@.len(),
            v@ == range@,
            split_on(v@.take(i as int), ',') == done.push(v@.subrange(lo as int, i as int)),
            parse_tokens(done) == Ok::<Seq<Range<usize>>, TokenMeaning>(pos@),
        decreases v@.len() - i,
    {
        assert(v@.take(i + 1).drop_last() =~= v@.take(i as int));
        assert(v@.take(i + 1).last() == v@[i as int]);
        if v[i] == ',' {
            let ghost t = v@.subrange(lo as int, i as int);
            let ghost done2 = done.push(t);
            assert(done2.drop_last() =~= done);
            match read_token(&v, lo, i) {
                Ok(p) => {
                    pos.push(p);
                },
                Err(e) => {
                    proof {
                        lemma_split_keeps_pieces(v@, ',', i + 1, v@.len() as int);
                        assert(v@.take(v@.len() as int) =~= v@);
                        let all = split_on(v@, ',');
                        assert(split_on(v@.take(i + 1), ',') == done2.push(Seq::empty()));
                        assert(all.take(done2.len() as int) =~= done2);
                        lemma_first_error_stays(done2, all);
                    }
                    return Err(e);
                },
            }
            proof {
                done = done2;
            }
            lo = i + 1;
            assert(v@.subrange(lo as int, i + 1) =~= Seq::<char>::empty());
        } else {
            assert(v@.subrange(lo as int, i + 1) =~= v@.subrange(lo as int, i as int).push(
                v@[i as int],
            ));
        }
        i = i + 1;
    }
    assert(v@.take(v@.len() as int) =~= v@);
    let ghost t = v@.subrange(lo as int, i as int);
    let ghost all = done.push(t);
    assert(all.drop_last() =~= done);
    match read_token(&v, lo, i) {
        Ok(p) => {
            pos.push(p);
            Ok(pos)
        },
        Err(e) => Err(e),
    }
}

} // verus!
