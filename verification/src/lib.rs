//! Parser for text files made of record blocks in `Key: Value` line syntax,
//! blocks separated by blank lines (the Debian control-file layout).
//!
//! The byte content of a file is first split into chunk ranges at blank-line
//! boundaries, each chunk is folded into logical lines and parsed into a
//! [`fields::FieldMap`], and a caller-supplied factory turns each map into a
//! typed record.

#![verifier::loop_isolation(false)]

use vstd::prelude::*;

pub mod bytes;
pub mod engine;
pub mod extract;
pub mod fields;
pub mod laws;
pub mod scan;

verus! {

/// The line-break byte that separates physical lines and blocks.
pub open spec fn is_line_break(b: u8) -> bool {
    b == 10u8
}

} // verus!
