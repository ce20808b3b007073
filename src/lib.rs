//! A byte-granularity heap allocator that keeps its free memory as an
//! address-ordered list of blocks, carves aligned allocations out of them
//! first-fit, and coalesces neighbouring blocks on release.

mod allocator;
mod error;
mod free_list;
mod laws;

pub use allocator::{
    growth_size, next_power_of_two, page_request, HeapState, MergingAllocator, PageSupplier,
    PAGE_SIZE,
};
pub use error::AllocError;
pub use free_list::{
    align_up, checked_block, find_free_block, insert_free_block, merge_adjacent_blocks, FreeBlock,
};
pub use laws::{
    lemma_overlap_rejected, lemma_release_joins_neighbours, lemma_release_then_fit,
    lemma_take_release_restores_used, lemma_two_disjoint_extents, lemma_used_within_total,
};
