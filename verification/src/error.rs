//! The failures that the codec and the analysers report.

use vstd::prelude::*;

verus! {

/// Why an operation on a pixel grid or a histogram was refused.
#[derive(Clone, Copy, Debug, PartialEq, Eq, Structural)]
pub enum StegoError {
    /// The framed payload does not fit the grid at any bit width up to 8.
    InsufficientCapacity,
    /// The grid has fewer channel bits, at the given bit width, than the framed
    /// payload has bits.
    CapacityExceeded,
    /// The grid ends before the four bytes of the length prefix.
    TruncatedStream,
    /// The length prefix announces more bytes than the grid holds at the given
    /// bit width.
    LengthOverflow,
    /// The grid has no pixel, or the histogram no observation.
    DegenerateInput,
}

} // verus!
