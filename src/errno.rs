//! Errors of the memory-space operations.
use vstd::prelude::*;

verus! {

/// The kinds of failure of a memory-space operation.
#[derive(Clone, Copy, Debug, PartialEq, Eq, Structural)]
pub enum Errno {
    /// An allocation failed: a physical frame, a counter, or an index entry.
    OutOfMemory,
    /// The arguments are invalid: a size of zero, a misaligned address, a region outside the
    /// allocation window.
    InvalidArgument,
}

} // verus!
