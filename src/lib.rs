//! Column selection over text records: a parser for position lists, and
//! extraction of bytes, characters or fields by such a list; with the small
//! line-oriented helpers (counting, matching, numbering, grouping) that the
//! command-line filters around it share.

pub mod cat;
pub mod config;
pub mod extract;
pub mod grep;
pub mod number;
pub mod position;
pub mod text;
pub mod uniq;
pub mod wc;
