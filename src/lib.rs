//! Point lookups into a delimited text file by the integer key in its first
//! column, through an offset index and a key index built from the file bytes.
use vstd::prelude::*;

pub mod key_index;
pub mod offset_index;
pub mod recommend;
pub mod scanner;
pub mod store;

verus! {

/// Failures of index construction and of record fetches.
#[derive(Debug, Clone, Copy, PartialEq, Eq, Structural)]
pub enum StoreError {
    /// A quoted field is not closed, or a closing quote is followed by
    /// something other than a delimiter.
    MalformedRecord,
    /// The first field of a record is not an unsigned 64-bit integer.
    NonNumericKey,
    /// A record number at or past the number of records.
    OutOfRange,
}

} // verus!
