use vstd::prelude::*;

verus! {

/// Why an operation on the log failed.
#[derive(Clone, Copy, Debug, PartialEq, Eq, Structural)]
pub enum LogError {
    /// The offset, or the index slot, holds no record.
    NotFound,
    /// A frame or an index entry is cut short or does not fit what surrounds it.
    UnexpectedEof,
    /// There is no room left for one more record.
    CapacityExceeded,
    /// The operating system refused the memory for an index.
    Io,
}

} // verus!
