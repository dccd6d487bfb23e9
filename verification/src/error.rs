use vstd::prelude::*;

verus! {

/// Why an operation was refused.
#[derive(Debug, Clone, Copy, PartialEq, Eq)]
pub enum Error {
    /// A position at or past the length, or a range that is not
    /// `start <= stop < len`.
    IndexOutOfRange,
    /// A select for the `k`-th bit where `k` is zero or above the number of
    /// such bits.
    SelectOutOfRange,
    /// A width that is not between 1 and 64.
    InvalidWidth,
    /// A value that does not fit the width of the vector.
    ValueTooWide,
}

} // verus!
