use vstd::prelude::*;

verus! {

/// Why an allocator operation failed.
#[derive(Clone, Copy, Debug, PartialEq, Eq, Structural)]
pub enum AllocError {
    /// An extent's end lies beyond the address space.
    InvalidParam,
    /// A new extent intersects memory that is already free.
    MemoryOverlap,
    /// Neither the free list nor the page supplier can serve the request.
    NoMemory,
}

} // verus!
