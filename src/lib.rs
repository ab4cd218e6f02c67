//! A position-tracking cursor over immutable UTF-8 text, for the parsers of
//! structured documents: boundary metrics for characters and lines, line
//! navigation after the manner of a text editor, and literal and pattern
//! search.
use vstd::prelude::*;

pub mod cursor;
pub mod lexeme;
pub mod metric;
pub mod pattern;
pub mod table;

verus! {

} // verus!
