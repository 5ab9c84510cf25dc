//! A verified CSV parser: turns a text blob into a rectangular table of
//! string cells, enforcing that every row has the same number of columns
//! and reporting line-numbered errors.

pub mod error;
pub mod grammar;
pub mod laws;
pub mod parser;

use vstd::prelude::*;

verus! {

pub use crate::error::CSVError;
pub use crate::error::SizeError;
pub use crate::parser::parse_csv;
pub use crate::parser::many_cells;
pub use crate::parser::cell;
pub use crate::parser::match_inside_quotes;
pub use crate::parser::consume_newlines;

} // verus!
