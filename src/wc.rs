//! Counting lines, words, bytes and characters of a text.
use vstd::prelude::*;
use vstd::string::*;

use crate::text::chars_of;

verus! {

/// The counts of one text.
#[derive(Debug, Clone, Copy, PartialEq, Eq, Structural)]
pub struct FileInfo {
    pub num_lines: usize,
    pub num_words: usize,
    pub num_bytes: usize,
    pub num_chars: usize,
}

impl FileInfo {
    /// The counts of two texts together, if each sum fits in a `usize`.
    pub fn checked_add(&self, other: &FileInfo) -> (r: Option<FileInfo>)
        ensures
            r is Some <==> (self.num_lines + other.num_lines <= usize::MAX && self.num_words
                + other.num_words <= usize::MAX && self.num_bytes + other.num_bytes <= usize::MAX
                && self.num_chars + other.num_chars <= usize::MAX),
            r is Some ==> r->0.num_lines == self.num_lines + other.num_lines && r->0.num_words
                == self.num_words + other.num_words && r->0.num_bytes == self.num_bytes
                + other.num_bytes && r->0.num_chars == self.num_chars + other.num_chars,
    {
        if self.num_lines > usize::MAX - other.num_lines || self.num_words > usize::MAX
            - other.num_words || self.num_bytes > usize::MAX - other.num_bytes || self.num_chars
            > usize::MAX - other.num_chars {
            return None;
        }
        Some(
            FileInfo {
                num_lines: self.num_lines + other.num_lines,
                num_words: self.num_words + other.num_words,
                num_bytes: self.num_bytes + other.num_bytes,
                num_chars: self.num_chars + other.num_chars,
            },
        )
    }
}

/// The characters with Unicode's White_Space property.
pub open spec fn is_space(c: char) -> bool {
    ('\u{9}' <= c && c <= '\u{d}') || c == ' ' || c == '\u{85}' || c == '\u{a0}' || c
        == '\u{1680}' || ('\u{2000}' <= c && c <= '\u{200a}') || c == '\u{2028}' || c
        == '\u{2029}' || c == '\u{202f}' || c == '\u{205f}' || c == '\u{3000}'
}

/// Whether a word, a maximal run of non-space characters, starts at `k`.
pub open spec fn starts_word(s: Seq<char>, k: int) -> bool {
    !is_space(s[k]) && (k == 0 || is_space(s[k - 1]))
}

/// The number of words of `s`.
pub open spec fn word_count(s: Seq<char>) -> nat
    decreases s.len(),
{
    if s.len() == 0 {
        0
    } else {
        word_count(s.drop_last()) + if starts_word(s, s.len() - 1) { 1nat } else { 0nat }
    }
}

/// The number of newline characters of `s`.
pub open spec fn newline_count(s: Seq<char>) -> nat
    decreases s.len(),
{
    if s.len() == 0 {
        0
    } else {
        newline_count(s.drop_last()) + if s.last() == '\n' { 1nat } else { 0nat }
    }
}

/// The number of lines of `s`: a last line without a newline counts too.
pub open spec fn line_count(s: Seq<char>) -> nat {
    newline_count(s) + if s.len() > 0 && s.last() != '\n' { 1nat } else { 0nat }
}

/// Whether `c` is white space in Unicode's sense.
pub fn is_white_space(c: char) -> (r: bool)
    ensures
        r == is_space(c),
{
    ('\u{9}' <= c && c <= '\u{d}') || c == ' ' || c == '\u{85}' || c == '\u{a0}' || c
        == '\u{1680}' || ('\u{2000}' <= c && c <= '\u{200a}') || c == '\u{2028}' || c
        == '\u{2029}' || c == '\u{202f}' || c == '\u{205f}' || c == '\u{3000}'
}

/// Counts the lines, words, bytes (in UTF-8) and characters of `text`.
pub fn count(text: &str) -> (r: FileInfo)
    ensures
        r.num_lines == line_count(text@),
        r.num_words == word_count(text@),
        r.num_bytes == text.spec_bytes().len(),
        r.num_chars == text@.len(),
{
    let chars = chars_of(text);
    let n = chars.len();
    let mut newlines: usize = 0;
    let mut words: usize = 0;
    let mut i: usize = 0;
    while i < n
        invariant
            i <= n == chars@.len(),
            chars@ == text@,
            newlines == newline_count(chars@.take(i as int)),
            words == word_count(chars@.take(i as int)),
            newlines + (if i > 0 && chars@[i - 1] != '\n' { 1int } else { 0int }) <= i,
            words <= i,
        decreases n - i,
    {
        let ghost p = chars@.take(i + 1);
        assert(p.drop_last() =~= chars@.take(i as int));
        assert(p.last() == chars@[i as int]);
        assert(i > 0 ==> p[i - 1] == chars@[i - 1]);
        let c = chars[i];
        if c == '\n' {
            newlines = newlines + 1;
        }
        if !is_white_space(c) && (i == 0 || is_white_space(chars[i - 1])) {
            words = words + 1;
        }
        i = i + 1;
    }
    assert(chars@.take(n as int) =~= chars@);
    let last_open: usize = if n > 0 && chars[n - 1] != '\n' { 1 } else { 0 };
    FileInfo {
        num_lines: newlines + last_open,
        num_words: words,
        num_bytes: text.as_bytes().len(),
        num_chars: n,
    }
}

} // verus!
