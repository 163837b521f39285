//! A verified engine for reading a watch-history export: a streaming UTF-8
//! decoder, a position-tracking scanner over the decoded characters, record
//! extractors for the HTML and JSON export formats, and the record store the
//! extracted rows are folded into.

use vstd::prelude::*;

pub mod dates;
pub mod html_parser;
pub mod json_parser;
pub mod model;
pub mod scan;
pub mod source;
pub mod text;
pub mod utf8;
pub mod utf8_reader;

verus! {

/// Which export format an input file holds.
pub enum ParserType {
    Html,
    Json,
}

} // verus!
