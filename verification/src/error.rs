//! Why a scan is given up.

use vstd::prelude::*;

verus! {

/// The reasons for which input is rejected.
#[derive(Clone, Copy, Debug, PartialEq, Eq)]
pub enum ScanError {
    /// A line holds no delimiter.
    MissingDelimiter,
    /// What follows the delimiter is not a decimal of the accepted form, or does not fit.
    MalformedValue,
    /// The line that crosses a chunk's nominal end does not end within the margin.
    LineTooLong,
    /// The window handed in is not the one that the chunk's place in the file calls for.
    WindowLength,
    /// A key would have more than `u64::MAX` observations.
    CountOverflow,
}

} // verus!
