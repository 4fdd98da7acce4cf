//! Extraction of characters, bytes or fields from one record by a position list.
use core::ops::Range;
use csv::StringRecord;
use vstd::prelude::*;
use vstd::string::*;
use vstd::utf8::*;

use crate::text::chars_of;

verus! {

/// Which unit a run selects, with its positions.
#[derive(Debug)]
pub enum Extract {
    Fields(Vec<Range<usize>>),
    Bytes(Vec<Range<usize>>),
    Chars(Vec<Range<usize>>),
}

impl Extract {
    /// The positions that the selector holds, whatever its unit.
    pub open spec fn positions(&self) -> Seq<Range<usize>> {
        match self {
            Extract::Fields(v) => v@,
            Extract::Bytes(v) => v@,
            Extract::Chars(v) => v@,
        }
    }
}

/// The items of `s` at the indices of `r`; indices past the end give nothing.
pub open spec fn pick<A>(s: Seq<A>, r: Range<usize>) -> Seq<A> {
    if r.start < r.end && r.start < s.len() {
        s.subrange(r.start as int, if r.end <= s.len() { r.end as int } else { s.len() as int })
    } else {
        Seq::empty()
    }
}

/// The items of `s` picked by each range in turn, in the order of the ranges.
pub open spec fn selected<A>(s: Seq<A>, rs: Seq<Range<usize>>) -> Seq<A>
    decreases rs.len(),
{
    if rs.len() == 0 {
        Seq::empty()
    } else {
        selected(s, rs.drop_last()) + pick(s, rs.last())
    }
}

/// What lossy UTF-8 decoding makes of a byte sequence.
pub uninterp spec fn utf8_lossy(b: Seq<u8>) -> Seq<char>;

/// Relies on `String::from_utf8_lossy`: valid UTF-8 is decoded as it is, and
/// each invalid sequence becomes U+FFFD.
#[verifier::external_body]
fn decode_lossy(b: &[u8]) -> (r: String)
    ensures
        r@ == utf8_lossy(b@),
        valid_utf8(b@) ==> r@ == decode_utf8(b@),
        !valid_utf8(b@) ==> r@.contains('\u{FFFD}'),
{
    String::from_utf8_lossy(b).into_owned()
}

/// A record of the `csv` crate, opaque here: its fields are seen through
/// `record_fields`.
#[verifier::external_type_specification]
#[verifier::external_body]
pub struct ExStringRecord(csv::StringRecord);

/// The fields that a record holds, in order.
pub uninterp spec fn record_fields(r: csv::StringRecord) -> Seq<Seq<char>>;

/// Relies on `csv::StringRecord::len`: the number of fields.
pub assume_specification[ csv::StringRecord::len ](r: &csv::StringRecord) -> (n: usize)
    ensures
        n == record_fields(*r).len(),
;

/// Relies on `csv::StringRecord::get`: the field at `i`, or `None` past the end.
pub assume_specification[ csv::StringRecord::get ](r: &csv::StringRecord, i: usize) -> (f:
    Option<&str>)
    ensures
        i < record_fields(*r).len() ==> f is Some && f->0@ == record_fields(*r)[i as int],
        i >= record_fields(*r).len() ==> f is None,
;

proof fn lemma_selected_step<A>(s: Seq<A>, rs: Seq<Range<usize>>, k: int)
    requires
        0 <= k < rs.len(),
    ensures
        selected(s, rs.take(k + 1)) == selected(s, rs.take(k)) + pick(s, rs[k]),
{
    assert(rs.take(k + 1).drop_last() =~= rs.take(k));
}

/// Every item that a selection yields is an item of the source: with
/// characters as the unit, no character is ever split.
pub proof fn lemma_selected_items_come_from_source<A>(s: Seq<A>, rs: Seq<Range<usize>>)
    ensures
        forall|k: int| 0 <= k < selected(s, rs).len() ==> s.contains(#[trigger] selected(s, rs)[k]),
    decreases rs.len(),
{
    if rs.len() > 0 {
        lemma_selected_items_come_from_source(s, rs.drop_last());
        let prev = selected(s, rs.drop_last());
        let p = pick(s, rs.last());
        assert forall|k: int| 0 <= k < selected(s, rs).len() implies s.contains(
            #[trigger] selected(s, rs)[k],
        ) by {
            if k < prev.len() {
                assert(selected(s, rs)[k] == prev[k]);
            } else {
                let st = rs.last().start as int;
                assert(selected(s, rs)[k] == p[k - prev.len()]);
                assert(s[st + k - prev.len()] == p[k - prev.len()]);
            }
        }
    } else {
        assert(selected(s, rs).len() == 0);
    }
}

/// A range that starts at or past the end of the record adds nothing to the
/// selection, and is no error.
pub proof fn lemma_out_of_range_adds_nothing<A>(s: Seq<A>, rs: Seq<Range<usize>>, r: Range<usize>)
    requires
        r.start >= s.len(),
    ensures
        selected(s, rs.push(r)) == selected(s, rs),
{
    assert(rs.push(r).drop_last() =~= rs);
    assert(selected(s, rs.push(r)) =~= selected(s, rs));
}

/// The characters of `line` at the positions of `char_pos`; a position past
/// the end gives nothing. Characters are never split.
pub fn extract_chars(line: &str, char_pos: &[Range<usize>]) -> (r: String)
    ensures
        r@ == selected(line@, char_pos@),
{
    let chars = chars_of(line);
    let n = chars.len();
    let mut result = String::new();
    let mut k: usize = 0;
    while k < char_pos.len()
        invariant
            k <= char_pos@.len(),
            chars@ == line@,
            n == chars@.len(),
            result@ == selected(line@, char_pos@.take(k as int)),
        decreases char_pos@.len() - k,
    {
        proof {
            lemma_selected_step(line@, char_pos@, k as int);
        }
        let start = char_pos[k].start;
        let end = if char_pos[k].end <= n { char_pos[k].end } else { n };
        let ghost before = result@;
        let lo: usize = if start < end { start } else { end };
        let mut i: usize = lo;
        while i < end
            invariant
                lo <= i <= end,
                end <= n,
                chars@ == line@,
                n == chars@.len(),
                result@ == before + chars@.subrange(lo as int, i as int),
            decreases end - i,
        {
            result.push(chars[i]);
            assert(chars@.subrange(lo as int, i + 1) =~= chars@.subrange(lo as int, i as int).push(
                chars@[i as int],
            ));
            i = i + 1;
        }
        assert(pick(line@, char_pos@[k as int]) =~= chars@.subrange(lo as int, end as int));
        k = k + 1;
    }
    assert(char_pos@.take(char_pos@.len() as int) =~= char_pos@);
    result
}

/// Bytes that end on the leading byte of a multi-byte character, as a byte
/// range that cuts such a character does, are never valid UTF-8; so
/// `extract_bytes` shows U+FFFD for them rather than failing.
pub proof fn lemma_cut_character_is_invalid(bs: Seq<u8>)
    requires
        bs.len() > 0,
        bs.last() >= 0xc0,
    ensures
        !valid_utf8(bs),
    decreases bs.len(),
{
    if valid_utf8(bs) {
        let n = length_of_first_scalar(bs);
        let rest = pop_first_scalar(bs);
        assert(1 <= n <= bs.len());
        if n < bs.len() {
            assert(rest.len() == bs.len() - n);
            assert(rest.last() == bs.last());
            lemma_cut_character_is_invalid(rest);
        } else {
            assert(bs.last() == bs[n - 1]);
        }
    }
}

/// The bytes of `line` at the positions of `byte_pos`, a position past the
/// end giving nothing, decoded as UTF-8 with each invalid sequence shown as
/// U+FFFD.
pub fn extract_bytes(line: &str, byte_pos: &[Range<usize>]) -> (r: String)
    ensures
        r@ == utf8_lossy(selected(line.spec_bytes(), byte_pos@)),
        !valid_utf8(selected(line.spec_bytes(), byte_pos@)) ==> r@.contains('\u{FFFD}'),
{
    let bytes = line.as_bytes();
    let n = bytes.len();
    let mut result: Vec<u8> = Vec::new();
    let mut k: usize = 0;
    while k < byte_pos.len()
        invariant
            k <= byte_pos@.len(),
            bytes@ == line.spec_bytes(),
            n == bytes@.len(),
            result@ == selected(bytes@, byte_pos@.take(k as int)),
        decreases byte_pos@.len() - k,
    {
        proof {
            lemma_selected_step(bytes@, byte_pos@, k as int);
        }
        let start = byte_pos[k].start;
        let end = if byte_pos[k].end <= n { byte_pos[k].end } else { n };
        let ghost before = result@;
        let lo: usize = if start < end { start } else { end };
        let mut i: usize = lo;
        while i < end
            invariant
                lo <= i <= end,
                end <= n,
                n == bytes@.len(),
                result@ == before + bytes@.subrange(lo as int, i as int),
            decreases end - i,
        {
            result.push(bytes[i]);
            assert(bytes@.subrange(lo as int, i + 1) =~= bytes@.subrange(lo as int, i as int).push(
                bytes@[i as int],
            ));
            i = i + 1;
        }
        assert(pick(bytes@, byte_pos@[k as int]) =~= bytes@.subrange(lo as int, end as int));
        k = k + 1;
    }
    assert(byte_pos@.take(byte_pos@.len() as int) =~= byte_pos@);
    decode_lossy(result.as_slice())
}

/// The fields of `record` at the positions of `field_pos`, in the order of
/// the ranges; a position past the last field gives nothing.
pub fn extract_fields(record: &StringRecord, field_pos: &[Range<usize>]) -> (r: Vec<String>)
    ensures
        r.deep_view() == selected(record_fields(*record), field_pos@),
{
    let ghost fields = record_fields(*record);
    let n = record.len();
    let mut result: Vec<String> = Vec::new();
    let mut k: usize = 0;
    while k < field_pos.len()
        invariant
            k <= field_pos@.len(),
            fields == record_fields(*record),
            n == fields.len(),
            result.deep_view() == selected(fields, field_pos@.take(k as int)),
        decreases field_pos@.len() - k,
    {
        proof {
            lemma_selected_step(fields, field_pos@, k as int);
        }
        let start = field_pos[k].start;
        let end = if field_pos[k].end <= n { field_pos[k].end } else { n };
        let ghost before = result.deep_view();
        let lo: usize = if start < end { start } else { end };
        let mut i: usize = lo;
        while i < end
            invariant
                lo <= i <= end,
                end <= n,
                fields == record_fields(*record),
                n == fields.len(),
                result.deep_view() == before + fields.subrange(lo as int, i as int),
            decreases end - i,
        {
            let f = record.get(i).unwrap().to_owned();
            let ghost prev = result.deep_view();
            result.push(f);
            assert(result.deep_view() =~= prev.push(fields[i as int]));
            assert(fields.subrange(lo as int, i + 1) =~= fields.subrange(lo as int, i as int).push(
                fields[i as int],
            ));
            i = i + 1;
        }
        assert(pick(fields, field_pos@[k as int]) =~= fields.subrange(lo as int, end as int));
        k = k + 1;
    }
    assert(field_pos@.take(field_pos@.len() as int) =~= field_pos@);
    result
}

} // verus!
