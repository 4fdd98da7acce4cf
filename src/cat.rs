//! Numbering the lines of a text.
use vstd::prelude::*;

verus! {

/// The number of non-empty lines among `lines`.
pub open spec fn nonblank_count(lines: Seq<Seq<char>>) -> nat
    decreases lines.len(),
{
    if lines.len() == 0 {
        0
    } else {
        nonblank_count(lines.drop_last()) + if lines.last().len() > 0 { 1nat } else { 0nat }
    }
}

/// The number shown before line `k` (0-based): with `nonblank`, non-empty
/// lines are numbered from 1 and empty ones get none; else with `all`, every
/// line is numbered from 1; else no line is.
pub open spec fn line_label(lines: Seq<Seq<char>>, k: int, all: bool, nonblank: bool) -> Option<
    usize,
> {
    if nonblank {
        if lines[k].len() == 0 {
            None
        } else {
            Some(nonblank_count(lines.take(k + 1)) as usize)
        }
    } else if all {
        Some((k + 1) as usize)
    } else {
        None
    }
}

proof fn lemma_nonblank_bound(lines: Seq<Seq<char>>)
    ensures
        nonblank_count(lines) <= lines.len(),
    decreases lines.len(),
{
    if lines.len() > 0 {
        lemma_nonblank_bound(lines.drop_last());
    }
}

/// The number to show before each of `lines` (given without their newlines).
pub fn number_lines(lines: &Vec<String>, all: bool, nonblank: bool) -> (r: Vec<Option<usize>>)
    ensures
        r@.len() == lines@.len(),
        forall|k: int| 0 <= k < r@.len() ==> #[trigger] r@[k] == line_label(lines.deep_view(), k, all, nonblank),
{
    let ghost ls = lines.deep_view();
    let mut r: Vec<Option<usize>> = Vec::new();
    let mut seen: usize = 0;
    let mut i: usize = 0;
    while i < lines.len()
        invariant
            i <= lines@.len(),
            ls == lines.deep_view(),
            r@.len() == i,
            seen as nat == nonblank_count(ls.take(i as int)),
            forall|k: int| 0 <= k < i ==> #[trigger] r@[k] == line_label(ls, k, all, nonblank),
        decreases lines@.len() - i,
    {
        proof {
            assert(ls.take(i + 1).drop_last() =~= ls.take(i as int));
            lemma_nonblank_bound(ls.take(i + 1));
        }
        let empty = lines[i].as_str().is_empty();
        if !empty {
            seen = seen + 1;
        }
        let label = if nonblank {
            if empty { None } else { Some(seen) }
        } else if all {
            Some(i + 1)
        } else {
            None
        };
        r.push(label);
        i = i + 1;
    }
    r
}

} // verus!
