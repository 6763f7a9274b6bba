//! Sums lines of text read as signed integers.
//!
//! Each line is trimmed of whitespace and read as a decimal integer; the
//! lines' values are added up, and the first line that cannot be acquired
//! or read stops the summation with an error that says why.
pub mod number;
pub mod summation;

pub use number::{as_number, ParseErrorKind, ParsingError};
pub use summation::{sum, sum_from, sum_strings, ApplicationError};
