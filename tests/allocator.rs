use std::cell::RefCell;
use std::rc::Rc;

use merging_alloc::{
    align_up, checked_block, find_free_block, growth_size, insert_free_block,
    merge_adjacent_blocks, next_power_of_two, page_request, AllocError, FreeBlock,
    MergingAllocator, PageSupplier, PAGE_SIZE,
};

/// Hands out pages from a fixed window and records every request.
struct Pages {
    next: usize,
    left: usize,
    calls: Rc<RefCell<Vec<(usize, usize)>>>,
}

impl PageSupplier for Pages {
    fn alloc_pages(&mut self, num_pages: usize, align: usize) -> Result<usize, AllocError> {
        self.calls.borrow_mut().push((num_pages, align));
        if num_pages > self.left {
            return Err(AllocError::NoMemory);
        }
        let base = self.next;
        self.next += num_pages * PAGE_SIZE;
        self.left -= num_pages;
        Ok(base)
    }
}

fn supplier(base: usize, pages: usize) -> (Pages, Rc<RefCell<Vec<(usize, usize)>>>) {
    let calls = Rc::new(RefCell::new(Vec::new()));
    (
        Pages {
            next: base,
            left: pages,
            calls: calls.clone(),
        },
        calls,
    )
}

fn blk(addr: usize, size: usize) -> FreeBlock {
    FreeBlock { addr, size }
}

#[test]
fn two_disjoint_extents_are_both_registered() {
    let (pages, _) = supplier(0x100000, 0);
    let mut a = MergingAllocator::new(pages);
    a.init(0x1000, 0x1000);
    assert_eq!(a.add_memory(0x3000, 0x800), Ok(()));
    assert_eq!(a.total_bytes(), 0x1800);
    assert_eq!(a.add_memory(0x0, 0x800), Ok(()));
    assert_eq!(a.total_bytes(), 0x2000);
    assert_eq!(
        a.free_blocks(),
        &vec![blk(0x0, 0x800), blk(0x1000, 0x1000), blk(0x3000, 0x800)]
    );
}

#[test]
fn overlapping_extent_is_refused_and_state_kept() {
    let (pages, _) = supplier(0x100000, 0);
    let mut a = MergingAllocator::new(pages);
    a.init(0x1000, 0x1000);
    assert_eq!(a.add_memory(0x1800, 0x1000), Err(AllocError::MemoryOverlap));
    assert_eq!(a.add_memory(0x800, 0x801), Err(AllocError::MemoryOverlap));
    assert_eq!(a.total_bytes(), 0x1000);
    assert_eq!(a.free_blocks(), &vec![blk(0x1000, 0x1000)]);
    assert_eq!(a.add_memory(0x2000, 0x100), Ok(()));
    assert_eq!(a.add_memory(0x800, 0x800), Ok(()));
}

#[test]
fn extent_past_address_space_is_invalid() {
    let (pages, _) = supplier(0x100000, 0);
    let mut a = MergingAllocator::new(pages);
    a.init(0x1000, 0x1000);
    assert_eq!(
        a.add_memory(usize::MAX - 0xf, 0x20),
        Err(AllocError::InvalidParam)
    );
    assert_eq!(a.total_bytes(), 0x1000);
    assert_eq!(a.add_memory(usize::MAX - 0xfff, 0x800), Ok(()));
    assert_eq!(a.total_bytes(), 0x1800);
}

#[test]
fn total_past_usize_is_invalid() {
    let half = 1usize << (usize::BITS - 1);
    let (pages, _) = supplier(0x100000, 0);
    let mut a = MergingAllocator::new(pages);
    a.init(0, half);
    assert_eq!(a.allocate(half, 1), Ok(0));
    assert_eq!(a.add_memory(0, half), Err(AllocError::InvalidParam));
    assert_eq!(a.total_bytes(), half);
}

#[test]
fn allocation_is_aligned_and_takes_whole_block() {
    let (pages, _) = supplier(0x100000, 0);
    let mut a = MergingAllocator::new(pages);
    a.init(0x1001, 0x1000);
    let p = a.allocate(16, 64).unwrap();
    assert_eq!(p, 0x1040);
    assert_eq!(p % 64, 0);
    assert_eq!(a.used_bytes(), 0x1000 - 0x3f);
    assert!(a.free_blocks().is_empty());
}

#[test]
fn alignment_is_a_lower_bound_on_size() {
    let (pages, _) = supplier(0x100000, 0);
    let mut a = MergingAllocator::new(pages);
    a.init(0x1000, 0x100);
    assert_eq!(a.allocate(8, 0x100), Ok(0x1000));
    assert_eq!(a.used_bytes(), 0x100);
}

#[test]
fn block_too_small_after_padding_is_skipped() {
    let blocks = vec![blk(0x1001, 64), blk(0x2000, 64)];
    assert_eq!(find_free_block(&blocks, 64, 64), Some(1));
    assert_eq!(find_free_block(&blocks, 65, 1), None);
    assert_eq!(find_free_block(&blocks, 64, 1), Some(0));

    let (pages, calls) = supplier(0x100000, 0);
    let mut a = MergingAllocator::new(pages);
    a.init(0x1001, 64);
    assert_eq!(a.add_memory(0x2000, 64), Ok(()));
    assert_eq!(a.allocate(64, 64), Ok(0x2000));
    assert_eq!(a.free_blocks(), &vec![blk(0x1001, 64)]);
    assert!(calls.borrow().is_empty());
}

#[test]
fn released_block_is_reused_without_growth() {
    let (pages, calls) = supplier(0x100000, 16);
    let mut a = MergingAllocator::new(pages);
    a.init(0x10000, 0x1000);
    let p = a.allocate(0x1000, 8).unwrap();
    assert_eq!(p, 0x10000);
    a.deallocate(p, 0x1000, 8);
    assert_eq!(a.used_bytes(), 0);
    assert_eq!(a.allocate(0x1000, 8), Ok(0x10000));
    assert!(calls.borrow().is_empty());
    assert_eq!(a.total_bytes(), 0x1000);
}

#[test]
fn release_chain_coalesces_into_one_block() {
    let base = 0x10000;
    let (pages, _) = supplier(0x100000, 0);
    let mut a = MergingAllocator::new(pages);
    a.init(base, 4096);
    assert_eq!(a.allocate(1024, 8), Ok(base));
    assert_eq!(a.used_bytes(), 4096);
    assert!(a.free_blocks().is_empty());
    a.deallocate(base, 1024, 8);
    a.deallocate(base + 2048, 1024, 8);
    assert_eq!(a.free_blocks(), &vec![blk(base, 1024), blk(base + 2048, 1024)]);
    a.deallocate(base + 1024, 1024, 8);
    assert_eq!(a.free_blocks(), &vec![blk(base, 3072)]);
    assert_eq!(a.used_bytes(), 1024);
    a.deallocate(base + 3072, 1024, 8);
    assert_eq!(a.free_blocks(), &vec![blk(base, 4096)]);
    assert_eq!(a.used_bytes(), 0);
}

#[test]
fn release_chain_coalesces_from_the_top_down() {
    let base = 0x10000;
    let (pages, _) = supplier(0x100000, 0);
    let mut a = MergingAllocator::new(pages);
    a.init(base, 4096);
    assert_eq!(a.allocate(4096, 8), Ok(base));
    a.deallocate(base + 2048, 1024, 8);
    a.deallocate(base + 1024, 1024, 8);
    assert_eq!(a.free_blocks(), &vec![blk(base + 1024, 2048)]);
    a.deallocate(base, 1024, 8);
    assert_eq!(a.free_blocks(), &vec![blk(base, 3072)]);
    assert_eq!(a.used_bytes(), 1024);
}

#[test]
fn released_block_beside_free_one_is_reused() {
    let (pages, calls) = supplier(0x100000, 0);
    let mut a = MergingAllocator::new(pages);
    a.init(0x1000, 0x18);
    assert_eq!(a.allocate(0x18, 16), Ok(0x1000));
    assert_eq!(a.add_memory(0x1018, 1), Ok(()));
    a.deallocate(0x1000, 0x18, 16);
    assert_eq!(a.free_blocks(), &vec![blk(0x1000, 0x19)]);
    assert_eq!(a.allocate(0x18, 16), Ok(0x1000));
    assert!(calls.borrow().is_empty());
}

#[test]
fn release_rules_are_checked() {
    let (pages, _) = supplier(0x100000, 0);
    let mut a = MergingAllocator::new(pages);
    a.init(0x1000, 0x100);
    assert!(!a.release_allowed(0x1000, 0x10, 8));
    assert_eq!(a.allocate(0x80, 8), Ok(0x1000));
    assert!(a.release_allowed(0x1000, 0x80, 8));
    assert!(!a.release_allowed(0x1000, 0x200, 8));
    assert!(!a.release_allowed(usize::MAX - 0x10, 0x80, 8));
    a.deallocate(0x1000, 0x80, 8);
    assert!(!a.release_allowed(0x1000, 0x80, 8));
    assert_eq!(a.free_blocks(), &vec![blk(0x1000, 0x80)]);
}

#[test]
fn exhausted_heap_grows_from_page_supplier() {
    let (pages, calls) = supplier(0x100000, 8);
    let mut a = MergingAllocator::new(pages);
    a.init(0x1000, 0x1000);
    assert_eq!(a.allocate(0x1000, 8), Ok(0x1000));
    assert_eq!(a.allocate(64, 8), Ok(0x100000));
    assert_eq!(calls.borrow().as_slice(), &[(1, PAGE_SIZE)]);
    assert_eq!(a.total_bytes(), 0x2000);
    assert_eq!(a.used_bytes(), 0x2000);
    assert_eq!(a.allocate(0x3000, 8), Ok(0x101000));
    assert_eq!(calls.borrow()[1], (4, PAGE_SIZE));
    assert_eq!(a.total_bytes(), 0x6000);
}

#[test]
fn exhausted_supplier_fails_with_no_memory() {
    let (pages, calls) = supplier(0x100000, 0);
    let mut a = MergingAllocator::new(pages);
    a.init(0x1000, 0x1000);
    assert_eq!(a.allocate(0x1000, 8), Ok(0x1000));
    assert_eq!(a.allocate(64, 8), Err(AllocError::NoMemory));
    assert_eq!(calls.borrow().len(), 1);
    assert_eq!(a.used_bytes(), 0x1000);
    assert_eq!(a.total_bytes(), 0x1000);
}

#[test]
fn pages_answer_decides_outcome() {
    let (pages, _) = supplier(0, 0);
    let mut a = MergingAllocator::new(pages);
    a.init(0x1000, 0x10);
    assert_eq!(
        a.alloc_from_pages(64, 8, 0x1000, Err(AllocError::NoMemory)),
        Err(AllocError::NoMemory)
    );
    assert_eq!(
        a.alloc_from_pages(64, 8, 0x1000, Ok(0x1008)),
        Err(AllocError::NoMemory)
    );
    assert_eq!(a.total_bytes(), 0x10);
    assert_eq!(a.alloc_from_pages(64, 128, 0x1000, Ok(0x8000)), Ok(0x8000));
    assert_eq!(a.total_bytes(), 0x1010);
    assert_eq!(a.used_bytes(), 0x1000);
    assert_eq!(
        a.alloc_from_pages(64, 128, 0x80, Ok(0x9001)),
        Err(AllocError::NoMemory)
    );
    assert_eq!(a.total_bytes(), 0x1090);
    assert_eq!(a.used_bytes(), 0x1000);
}

#[test]
fn counters_stay_consistent() {
    let (pages, _) = supplier(0x100000, 0);
    let mut a = MergingAllocator::new(pages);
    assert_eq!(a.total_bytes(), 0);
    a.init(0x1000, 0x1000);
    assert_eq!(a.available_bytes(), 0x1000);
    let p = a.allocate(0x1000, 8).unwrap();
    assert_eq!(a.used_bytes(), 0x1000);
    assert_eq!(a.available_bytes(), 0);
    a.deallocate(p, 0x1000, 8);
    assert_eq!(a.used_bytes(), 0);
    assert_eq!(a.available_bytes(), a.total_bytes() - a.used_bytes());
    assert_eq!(a.available_bytes(), 0x1000);
}

#[test]
fn growth_size_rounds_to_power_of_two_and_page() {
    assert_eq!(growth_size(0x1000, 64), Some(0x1000));
    assert_eq!(growth_size(0x1800, 0), Some(0x2000));
    assert_eq!(growth_size(10, 20), Some(PAGE_SIZE));
    assert_eq!(growth_size(0x1040, 0x3000), Some(0x4000));
    assert_eq!(growth_size(usize::MAX, 0), None);
    assert_eq!(next_power_of_two(0), 1);
    assert_eq!(next_power_of_two(5), 8);
    assert_eq!(next_power_of_two(8), 8);
    assert_eq!(page_request(0x4000), (4, PAGE_SIZE));
}

#[test]
fn align_up_rounds_to_multiple() {
    assert_eq!(align_up(0x1001, 64), 0x1040);
    assert_eq!(align_up(0x1000, 64), 0x1000);
    assert_eq!(align_up(7, 3), 9);
}

#[test]
fn insert_keeps_address_order() {
    let mut v = vec![blk(0x10, 1), blk(0x30, 1)];
    assert_eq!(insert_free_block(&mut v, blk(0x20, 1)), 1);
    assert_eq!(insert_free_block(&mut v, blk(0x40, 1)), 3);
    assert_eq!(insert_free_block(&mut v, blk(0x10, 2)), 1);
    assert_eq!(
        v,
        vec![blk(0x10, 1), blk(0x10, 2), blk(0x20, 1), blk(0x30, 1), blk(0x40, 1)]
    );
}

#[test]
fn merge_absorbs_predecessor_then_successor() {
    let mut v = vec![blk(0, 16), blk(16, 16), blk(48, 16)];
    merge_adjacent_blocks(&mut v, 1);
    assert_eq!(v, vec![blk(0, 32), blk(48, 16)]);
    let mut u = vec![blk(0, 16), blk(16, 16), blk(32, 16)];
    merge_adjacent_blocks(&mut u, 1);
    assert_eq!(u, vec![blk(0, 48)]);
    let mut w = vec![blk(0, 16), blk(32, 16), blk(100, 1)];
    merge_adjacent_blocks(&mut w, 0);
    assert_eq!(w, vec![blk(0, 16), blk(32, 16), blk(100, 1)]);
}

#[test]
fn checked_block_reports_each_error() {
    let v = vec![blk(0x1000, 0x100)];
    assert_eq!(checked_block(&v, 0x1080, 0x10), Err(AllocError::MemoryOverlap));
    assert_eq!(checked_block(&v, usize::MAX, 1), Err(AllocError::InvalidParam));
    assert_eq!(checked_block(&v, 0x1100, 0x10), Ok(()));
    assert_eq!(checked_block(&v, 0xf00, 0x100), Ok(()));
}
