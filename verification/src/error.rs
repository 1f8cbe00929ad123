//! Error conditions reported by the page store.

use vstd::prelude::*;

verus! {

/// Failures that the page store reports to its caller.
///
/// - `OutOfBounds`: a read or write named a page index at or past the
///   current page count.
/// - `InvalidArgument`: a supplied page buffer is not exactly one page long.
/// - `MalformedNumericField`: the stored header claims four fields but one
///   of them is not a parseable non-negative integer (or is too large for
///   this machine to address); the store cannot be opened.
#[derive(Clone, Copy, Debug, PartialEq, Eq, Structural)]
pub enum StoreError {
    OutOfBounds,
    InvalidArgument,
    MalformedNumericField,
}

} // verus!
