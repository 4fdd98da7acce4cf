//! Choosing the selector and the delimiter of a cut run from its options.
use vstd::prelude::*;
use vstd::string::*;

use crate::extract::Extract;
use crate::position::{parse_pos, position_list, ParseError};

verus! {

/// Why the options of a cut run were refused.
#[derive(Debug, PartialEq, Eq)]
pub enum ConfigError {
    /// None of fields, bytes and characters was given.
    MissingSelector,
    /// More than one of fields, bytes and characters was given.
    ConflictingSelectors,
    /// The delimiter is not exactly one byte; holds it.
    BadDelimiter(String),
    /// The selector was refused.
    Parse(ParseError),
}

impl ConfigError {
    /// The message shown to the user.
    pub fn to_string(&self) -> (r: String)
        ensures
            match self {
                ConfigError::BadDelimiter(d) => r@ == "--delim \""@ + d@ + "\" must be a single byte"@,
                ConfigError::Parse(e) => r@ == crate::position::error_message(e.meaning()),
                ConfigError::MissingSelector => r@ == missing_selector_message(),
                ConfigError::ConflictingSelectors => r@ == conflicting_selectors_message(),
            },
    {
        match self {
            ConfigError::BadDelimiter(d) => {
                let mut r = String::new();
                r.append("--delim \"");
                r.append(d.as_str());
                r.append("\" must be a single byte");
                r
            },
            ConfigError::Parse(e) => e.to_string(),
            ConfigError::MissingSelector => {
                let mut r = String::new();
                r.append(
                    "the following required arguments were not provided:\n  <--fields <FIELDS>|--bytes <BYTES>|--chars <CHARS>>",
                );
                r
            },
            ConfigError::ConflictingSelectors => {
                let mut r = String::new();
                r.append("only one of --fields, --bytes and --chars may be given");
                r
            },
        }
    }
}

pub open spec fn missing_selector_message() -> Seq<char> {
    "the following required arguments were not provided:\n  <--fields <FIELDS>|--bytes <BYTES>|--chars <CHARS>>"@
}

pub open spec fn conflicting_selectors_message() -> Seq<char> {
    "only one of --fields, --bytes and --chars may be given"@
}

/// The delimiter byte of `delim`, which must be exactly one byte long.
pub fn parse_delimiter(delim: &str) -> (r: Result<u8, ConfigError>)
    ensures
        match r {
            Ok(b) => delim.spec_bytes().len() == 1 && b == delim.spec_bytes()[0],
            Err(e) => delim.spec_bytes().len() != 1 && e is BadDelimiter && e->BadDelimiter_0@
                == delim@,
        },
{
    let b = delim.as_bytes();
    if b.len() != 1 {
        return Err(ConfigError::BadDelimiter(delim.to_owned()));
    }
    Ok(b[0])
}

/// `r` is what the selector `text` gives: its ranges, or its parse error.
pub open spec fn parsed_into(r: Result<Extract, ConfigError>, text: Seq<char>) -> bool {
    match position_list(text) {
        Ok(rs) => r is Ok && r->Ok_0.positions() == rs,
        Err(m) => r is Err && r->Err_0 is Parse && r->Err_0->Parse_0.meaning() == m,
    }
}

pub open spec fn given(o: Option<&str>) -> int {
    if o is Some { 1 } else { 0 }
}

fn positions_of(text: &str) -> (r: Result<Vec<core::ops::Range<usize>>, ConfigError>)
    ensures
        match position_list(text@) {
            Ok(rs) => r is Ok && r->Ok_0@ == rs,
            Err(m) => r is Err && r->Err_0 is Parse && r->Err_0->Parse_0.meaning() == m,
        },
{
    match parse_pos(text) {
        Ok(v) => Ok(v),
        Err(e) => Err(ConfigError::Parse(e)),
    }
}

/// The selector of a run from its three options, of which exactly one must
/// be given.
pub fn new_extract(fields: Option<&str>, bytes: Option<&str>, chars: Option<&str>) -> (r: Result<
    Extract,
    ConfigError,
>)
    ensures
        given(fields) + given(bytes) + given(chars) > 1 ==> r == Err::<Extract, ConfigError>(
            ConfigError::ConflictingSelectors,
        ),
        given(fields) + given(bytes) + given(chars) == 0 ==> r == Err::<Extract, ConfigError>(
            ConfigError::MissingSelector,
        ),
        given(fields) + given(bytes) + given(chars) == 1 ==> {
            &&& fields is Some ==> parsed_into(r, fields->0@) && (r is Ok ==> r->Ok_0 is Fields)
            &&& bytes is Some ==> parsed_into(r, bytes->0@) && (r is Ok ==> r->Ok_0 is Bytes)
            &&& chars is Some ==> parsed_into(r, chars->0@) && (r is Ok ==> r->Ok_0 is Chars)
        },
{
    let n: usize = (if fields.is_some() { 1 } else { 0 }) + (if bytes.is_some() { 1 } else { 0 }) + (
    if chars.is_some() { 1 } else { 0 });
    if n > 1 {
        return Err(ConfigError::ConflictingSelectors);
    }
    match (fields, bytes, chars) {
        (Some(f), _, _) => match positions_of(f) {
            Ok(v) => Ok(Extract::Fields(v)),
            Err(e) => Err(e),
        },
        (_, Some(b), _) => match positions_of(b) {
            Ok(v) => Ok(Extract::Bytes(v)),
            Err(e) => Err(e),
        },
        (_, _, Some(c)) => match positions_of(c) {
            Ok(v) => Ok(Extract::Chars(v)),
            Err(e) => Err(e),
        },
        _ => Err(ConfigError::MissingSelector),
    }
}

} // verus!
