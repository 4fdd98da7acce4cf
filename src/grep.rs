//! Picking the lines of a text that a pattern matches, or does not match.
use regex::Regex;
use vstd::prelude::*;

use crate::text::{chars_of, string_of};

verus! {

/// A compiled pattern of the `regex` crate, opaque here.
#[verifier::external_type_specification]
#[verifier::external_body]
pub struct ExRegex(regex::Regex);

/// Relies on `regex::Regex::is_match`: whether the pattern matches anywhere
/// in the text. Nothing is stated of which texts match.
pub assume_specification[ regex::Regex::is_match ](re: &regex::Regex, haystack: &str) -> bool;

/// The lines of `s` as a line reader hands them out: each with its newline,
/// the last one without a newline if `s` does not end in one.
pub open spec fn lines_of(s: Seq<char>) -> Seq<Seq<char>>
    decreases s.len(),
{
    if s.len() == 0 {
        Seq::empty()
    } else {
        let prev = lines_of(s.drop_last());
        if prev.len() > 0 && prev.last().last() != '\n' {
            prev.update(prev.len() - 1, prev.last().push(s.last()))
        } else {
            prev.push(seq![s.last()])
        }
    }
}

/// The lines whose match result differs from `invert`, in order.
pub open spec fn kept(lines: Seq<Seq<char>>, matched: Seq<bool>, invert: bool) -> Seq<Seq<char>>
    decreases lines.len(),
{
    if lines.len() == 0 {
        Seq::empty()
    } else {
        let rest = kept(lines.drop_last(), matched.take(lines.len() - 1), invert);
        if matched[lines.len() - 1] != invert {
            rest.push(lines.last())
        } else {
            rest
        }
    }
}

proof fn lemma_lines_nonempty(s: Seq<char>)
    ensures
        forall|k: int| 0 <= k < lines_of(s).len() ==> (#[trigger] lines_of(s)[k]).len() > 0,
    decreases s.len(),
{
    if s.len() > 0 {
        lemma_lines_nonempty(s.drop_last());
        let prev = lines_of(s.drop_last());
        assert forall|k: int| 0 <= k < lines_of(s).len() implies (#[trigger] lines_of(s)[k]).len()
            > 0 by {
            if k < prev.len() && !(prev.len() > 0 && prev.last().last() != '\n' && k == prev.len()
                - 1) {
                assert(lines_of(s)[k] == prev[k]);
            }
        }
    }
}

/// Cuts `text` into lines, each keeping its newline.
pub fn split_lines(text: &str) -> (r: Vec<String>)
    ensures
        r.deep_view() == lines_of(text@),
{
    let v = chars_of(text);
    let n = v.len();
    let mut r: Vec<String> = Vec::new();
    let mut lo: usize = 0;
    let mut i: usize = 0;
    assert(v@.take(0) =~= Seq::<char>::empty());
    while i < n
        invariant
            lo <= i <= n == v@.len(),
            v@ == text@,
            lines_of(v@.take(i as int)) == if lo < i {
                r.deep_view().push(v@.subrange(lo as int, i as int))
            } else {
                r.deep_view()
            },
            lo > 0 ==> v@[lo - 1] == '\n',
            forall|k: int| lo <= k < i ==> v@[k] != '\n',
            lo == i ==> (r.deep_view().len() == 0 || r.deep_view().last().last() == '\n'),
        decreases n - i,
    {
        let ghost p = v@.take(i + 1);
        assert(p.drop_last() =~= v@.take(i as int));
        assert(p.last() == v@[i as int]);
        proof {
            lemma_lines_nonempty(v@.take(i as int));
        }
        if lo < i {
            assert(v@.subrange(lo as int, i + 1) =~= v@.subrange(lo as int, i as int).push(
                v@[i as int],
            ));
            assert(v@.subrange(lo as int, i as int).last() == v@[i - 1]);
        } else {
            assert(v@.subrange(lo as int, i + 1) =~= seq![v@[i as int]]);
        }
        if v[i] == '\n' {
            let line = string_of(&v, lo, i + 1);
            let ghost before = r.deep_view();
            r.push(line);
            assert(r.deep_view() =~= before.push(v@.subrange(lo as int, i + 1)));
            lo = i + 1;
        } else {
            if lo < i {
                assert(v@.subrange(lo as int, i as int).last() != '\n');
            }
        }
        i = i + 1;
    }
    assert(v@.take(n as int) =~= v@);
    if lo < n {
        let line = string_of(&v, lo, n);
        let ghost before = r.deep_view();
        r.push(line);
        assert(r.deep_view() =~= before.push(v@.subrange(lo as int, n as int)));
    }
    r
}

/// Keeps the lines whose entry in `matched` differs from `invert_match`.
pub fn select_lines(lines: &Vec<String>, matched: &Vec<bool>, invert_match: bool) -> (r: Vec<
    String,
>)
    requires
        lines@.len() == matched@.len(),
    ensures
        r.deep_view() == kept(lines.deep_view(), matched@, invert_match),
{
    let mut r: Vec<String> = Vec::new();
    let mut i: usize = 0;
    while i < lines.len()
        invariant
            i <= lines@.len() == matched@.len(),
            r.deep_view() == kept(lines.deep_view().take(i as int), matched@.take(i as int), invert_match),
        decreases lines@.len() - i,
    {
        let ghost l = lines.deep_view().take(i + 1);
        assert(l.drop_last() =~= lines.deep_view().take(i as int));
        assert(matched@.take(i + 1).take(i as int) =~= matched@.take(i as int));
        if matched[i] != invert_match {
            let ghost before = r.deep_view();
            r.push(lines[i].clone());
            assert(r.deep_view() =~= before.push(lines.deep_view()[i as int]));
        }
        i = i + 1;
    }
    assert(lines.deep_view().take(i as int) =~= lines.deep_view());
    assert(matched@.take(i as int) =~= matched@);
    r
}

/// The lines of `text` that `pattern` matches, or with `invert_match` those
/// it does not match, each with its newline, in order.
pub fn find_lines(text: &str, pattern: &Regex, invert_match: bool) -> (r: Vec<String>)
    ensures
        exists|matched: Seq<bool>|
            matched.len() == lines_of(text@).len() && r.deep_view() == kept(
                lines_of(text@),
                matched,
                invert_match,
            ),
{
    let lines = split_lines(text);
    let mut matched: Vec<bool> = Vec::new();
    let mut i: usize = 0;
    while i < lines.len()
        invariant
            i <= lines@.len(),
            matched@.len() == i,
        decreases lines@.len() - i,
    {
        matched.push(pattern.is_match(lines[i].as_str()));
        i = i + 1;
    }
    let r = select_lines(&lines, &matched, invert_match);
    assert(lines.deep_view().len() == lines@.len());
    r
}

} // verus!
