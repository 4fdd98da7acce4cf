//! Collapsing runs of adjacent lines that agree but for trailing white space.
use vstd::prelude::*;

use crate::text::chars_of;
use crate::wc::{is_space, is_white_space};

verus! {

/// `s` without its trailing white space.
pub open spec fn trim_end(s: Seq<char>) -> Seq<char>
    decreases s.len(),
{
    if s.len() > 0 && is_space(s.last()) {
        trim_end(s.drop_last())
    } else {
        s
    }
}

/// After reading `lines`: the runs closed so far, each as its size and first
/// line; the first line of the open run; and the size of the open run. Before
/// the first line the open run is an empty line seen zero times, so leading
/// blank lines join it.
pub open spec fn scan(lines: Seq<Seq<char>>) -> (Seq<(usize, Seq<char>)>, Seq<char>, nat)
    decreases lines.len(),
{
    if lines.len() == 0 {
        (Seq::empty(), Seq::empty(), 0)
    } else {
        let (done, first, n) = scan(lines.drop_last());
        let line = lines.last();
        if trim_end(line) != trim_end(first) {
            (if n > 0 { done.push((n as usize, first)) } else { done }, line, 1)
        } else {
            (done, first, n + 1)
        }
    }
}

/// The runs of `lines`, each as its size and its first line, in order.
pub open spec fn groups(lines: Seq<Seq<char>>) -> Seq<(usize, Seq<char>)> {
    let (done, first, n) = scan(lines);
    if n > 0 {
        done.push((n as usize, first))
    } else {
        done
    }
}

proof fn lemma_scan_bounds(lines: Seq<Seq<char>>)
    ensures
        scan(lines).2 <= lines.len(),
    decreases lines.len(),
{
    if lines.len() > 0 {
        lemma_scan_bounds(lines.drop_last());
    }
}

/// The length of `v` without its trailing white space.
fn trimmed_len(v: &Vec<char>) -> (r: usize)
    ensures
        r <= v@.len(),
        trim_end(v@) == v@.take(r as int),
{
    let mut end: usize = v.len();
    assert(v@.take(end as int) =~= v@);
    while end > 0 && is_white_space(v[end - 1])
        invariant
            end <= v@.len(),
            trim_end(v@) == trim_end(v@.take(end as int)),
        decreases end,
    {
        assert(v@.take(end as int).drop_last() =~= v@.take(end - 1));
        end = end - 1;
    }
    end
}

/// Whether `a` and `b` agree once trailing white space is removed.
pub fn same_trimmed(a: &str, b: &str) -> (r: bool)
    ensures
        r == (trim_end(a@) == trim_end(b@)),
{
    let x = chars_of(a);
    let y = chars_of(b);
    let n = trimmed_len(&x);
    let m = trimmed_len(&y);
    if n != m {
        assert(x@.take(n as int).len() != y@.take(m as int).len());
        return false;
    }
    let mut i: usize = 0;
    while i < n
        invariant
            i <= n == m,
            n <= x@.len(),
            m <= y@.len(),
            forall|k: int| 0 <= k < i ==> x@[k] == y@[k],
            trim_end(a@) == x@.take(n as int),
            trim_end(b@) == y@.take(m as int),
        decreases n - i,
    {
        if x[i] != y[i] {
            assert(x@.take(n as int)[i as int] != y@.take(m as int)[i as int]);
            return false;
        }
        i = i + 1;
    }
    assert(x@.take(n as int) =~= y@.take(m as int));
    true
}

/// Collapses each run of adjacent lines that agree but for trailing white
/// space into its size and its first line.
pub fn group_lines(lines: &Vec<String>) -> (r: Vec<(usize, String)>)
    ensures
        r.len() == groups(lines.deep_view()).len(),
        forall|k: int|
            0 <= k < r.len() ==> (#[trigger] r@[k]).0 == groups(lines.deep_view())[k].0 && r@[k].1@
                == groups(lines.deep_view())[k].1,
{
    let ghost ls = lines.deep_view();
    let mut out: Vec<(usize, String)> = Vec::new();
    let mut first = String::new();
    let mut n: usize = 0;
    let mut i: usize = 0;
    while i < lines.len()
        invariant
            i <= lines@.len(),
            ls == lines.deep_view(),
            n as nat == scan(ls.take(i as int)).2,
            first@ == scan(ls.take(i as int)).1,
            out.len() == scan(ls.take(i as int)).0.len(),
            forall|k: int|
                0 <= k < out.len() ==> (#[trigger] out@[k]).0 == scan(ls.take(i as int)).0[k].0
                    && out@[k].1@ == scan(ls.take(i as int)).0[k].1,
        decreases lines@.len() - i,
    {
        proof {
            assert(ls.take(i + 1).drop_last() =~= ls.take(i as int));
            lemma_scan_bounds(ls.take(i + 1));
        }
        if !same_trimmed(lines[i].as_str(), first.as_str()) {
            if n > 0 {
                out.push((n, first));
            }
            first = lines[i].clone();
            n = 1;
        } else {
            n = n + 1;
        }
        i = i + 1;
    }
    assert(ls.take(i as int) =~= ls);
    if n > 0 {
        out.push((n, first));
    }
    out
}

} // verus!
