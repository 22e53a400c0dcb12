//! The kinds of failure.

use vstd::prelude::*;

verus! {

/// The ways in which an operation on a target can fail.
#[derive(Clone, Copy, Debug, PartialEq, Eq, Structural)]
pub enum MemError {
    /// A byte of the range is unmapped or lacks the needed permission, or the
    /// target is no longer alive.
    AccessError,
    /// The target has no room left, or refuses the requested protection.
    AllocationError,
    /// The instruction stream ended, or stopped being decodable, before the
    /// requested number of bytes was covered.
    DisassemblyError,
    /// An argument is malformed: a bad mask or signature, mismatched lengths,
    /// a zero size where none is allowed, a value too wide for the target.
    InvalidArgument,
    /// A scan went through the whole region without a match.
    NotFound,
}

} // verus!
