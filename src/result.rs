use vstd::prelude::*;

verus! {

/// The recoverable failures of a table walk.
#[derive(Debug, Clone, Copy, PartialEq, Eq, Structural)]
pub enum Error {
    /// The frame allocator could not supply a frame.
    NoMemory,
    /// The walk ran into a huge-page mapping where a sub-table was expected.
    Overlap,
}

} // verus!
