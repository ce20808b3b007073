use vstd::prelude::*;

use crate::error::AllocError;
use crate::free_list::{
    align_up, aligned_room, checked_block, disjoint, ends_fit, find_free_block, first_fit, fits,
    free_sum, insert_block, insert_free_block, insert_pos, lemma_first_fit, lemma_free_sum_nonneg,
    lemma_insert_keeps, lemma_remove_keeps, lemma_size_le_free_sum, merge_adjacent_blocks,
    merge_scan, overlaps_any, positive, spec_align_up, FreeBlock,
};

verus! {

/// Size of the pages that a page supplier hands out.
pub const PAGE_SIZE: usize = 0x1000;

/// Largest power of two that a `usize` holds.
pub const TOP_POWER_OF_TWO: usize = usize::MAX / 2 + 1;

/// Source of whole pages for an allocator whose free memory has run out.
pub trait PageSupplier {
    /// Hands out `num_pages` contiguous pages whose base address is a multiple
    /// of `align`, and returns that base address.
    fn alloc_pages(&mut self, num_pages: usize, align: usize) -> Result<usize, AllocError>;
}

/// Bytes set aside for a request of `size` bytes at alignment `align`: the
/// alignment is also a lower bound on the size.
pub open spec fn need_of(size: usize, align: usize) -> usize {
    if size >= align {
        size
    } else {
        align
    }
}

/// The smallest power of two, from `p` on by doublings, that is at least `x`.
pub open spec fn pow2_from(p: int, x: int) -> int
    decreases (if p < x { x - p } else { 0 }),
{
    if p <= 0 || p >= x {
        p
    } else {
        pow2_from(2 * p, x)
    }
}

/// The smallest power of two that is at least `x`.
pub open spec fn spec_next_power_of_two(x: int) -> int {
    pow2_from(1, x)
}

/// Bytes asked of the page supplier when no free block fits: the larger of the
/// heap's total and the request, rounded up to a power of two, and at least
/// one page.
pub open spec fn spec_growth_size(total: usize, size: usize) -> Option<usize> {
    let x: int = if total >= size {
        total as int
    } else {
        size as int
    };
    if x > TOP_POWER_OF_TWO {
        None
    } else if spec_next_power_of_two(x) >= PAGE_SIZE {
        Some(spec_next_power_of_two(x) as usize)
    } else {
        Some(PAGE_SIZE)
    }
}

/// The list after registering the extent `[start, start + size)`: an empty
/// extent adds no block.
pub open spec fn with_extent(s: Seq<FreeBlock>, start: usize, size: usize) -> Seq<FreeBlock> {
    if size == 0 {
        s
    } else {
        insert_block(s, FreeBlock { addr: start, size })
    }
}

/// What an allocator holds: its free blocks in address order, the bytes ever
/// registered with it, and the bytes handed out and not yet released.
pub struct HeapState {
    pub blocks: Seq<FreeBlock>,
    pub total: int,
    pub used: int,
}

impl HeapState {
    /// The state of an allocator that has registered no memory.
    pub open spec fn empty() -> HeapState {
        HeapState { blocks: Seq::empty(), total: 0, used: 0 }
    }

    /// The free blocks are non-empty, pairwise disjoint, in address order and
    /// inside the address space; free and used bytes together stay within the
    /// bytes registered.
    pub open spec fn wf(self) -> bool {
        &&& disjoint(self.blocks)
        &&& positive(self.blocks)
        &&& ends_fit(self.blocks)
        &&& 0 <= self.used
        &&& free_sum(self.blocks) + self.used <= self.total
        &&& self.total <= usize::MAX
    }

    /// The state after registering the first extent.
    pub open spec fn init(self, start: usize, size: usize) -> HeapState {
        HeapState {
            blocks: with_extent(self.blocks, start, size),
            total: size as int,
            used: self.used,
        }
    }

    /// The state and outcome of registering a further extent.
    pub open spec fn add_memory(self, start: usize, size: usize) -> (HeapState, Result<(), AllocError>) {
        if start + size > usize::MAX {
            (self, Err(AllocError::InvalidParam))
        } else if overlaps_any(self.blocks, start as int, size as int) {
            (self, Err(AllocError::MemoryOverlap))
        } else if self.total + size > usize::MAX {
            (self, Err(AllocError::InvalidParam))
        } else {
            (
                HeapState {
                    blocks: with_extent(self.blocks, start, size),
                    total: self.total + size,
                    used: self.used,
                },
                Ok(()),
            )
        }
    }

    /// The state and outcome of handing out free block `i` for a request at
    /// alignment `align`: the whole block leaves the list, the bytes from its
    /// first aligned address on count as used, and that address is returned.
    pub open spec fn take(self, i: int, align: int) -> (HeapState, Result<usize, AllocError>) {
        let b = self.blocks[i];
        (
            HeapState {
                blocks: self.blocks.remove(i),
                total: self.total,
                used: self.used + aligned_room(b, align),
            },
            Ok(spec_align_up(b.addr as int, align) as usize),
        )
    }

    /// The state and outcome of a request that no free block could serve,
    /// given the bytes `grow` asked of the page supplier and its answer: the
    /// granted run is registered as an extent of `grow` bytes, and the search
    /// runs once more. Every failure on this path is `NoMemory`.
    pub open spec fn alloc_from_pages(
        self,
        size: usize,
        align: usize,
        grow: usize,
        pages: Result<usize, AllocError>,
    ) -> (HeapState, Result<usize, AllocError>) {
        let need = need_of(size, align);
        match pages {
            Err(_) => (self, Err(AllocError::NoMemory)),
            Ok(base) => {
                let (grown, res) = self.add_memory(base, grow);
                match res {
                    Err(_) => (self, Err(AllocError::NoMemory)),
                    Ok(_) => {
                        let i = first_fit(grown.blocks, need as int, align as int);
                        if i < grown.blocks.len() {
                            grown.take(i, align as int)
                        } else {
                            (grown, Err(AllocError::NoMemory))
                        }
                    },
                }
            },
        }
    }

    /// Whether `need_of(size, align)` bytes at `ptr` may be released: they
    /// are counted as used, end inside the address space, and are not free.
    pub open spec fn can_release(self, ptr: usize, size: usize, align: usize) -> bool {
        &&& need_of(size, align) <= self.used
        &&& ptr + need_of(size, align) <= usize::MAX
        &&& !overlaps_any(self.blocks, ptr as int, need_of(size, align) as int)
    }

    /// The state after releasing `need_of(size, align)` bytes at `ptr`: they
    /// go back on the list as a block in address order, which is then
    /// coalesced with its neighbours.
    pub open spec fn release(self, ptr: usize, size: usize, align: usize) -> HeapState {
        let need = need_of(size, align);
        HeapState {
            blocks: merge_scan(
                insert_block(self.blocks, FreeBlock { addr: ptr, size: need }),
                insert_pos(self.blocks, ptr as int),
                0,
            ),
            total: self.total,
            used: self.used - need,
        }
    }
}

/// What is asked of the page supplier for `grow` bytes: whole pages, aligned
/// to a page.
pub fn page_request(grow: usize) -> (r: (usize, usize))
    ensures
        r == (grow / PAGE_SIZE, PAGE_SIZE),
{
    (grow / PAGE_SIZE, PAGE_SIZE)
}

/// The aligned address is a multiple of the alignment, at or above `addr` and
/// less than one alignment beyond it.
pub proof fn lemma_align_up(addr: int, align: int)
    requires
        addr >= 0,
        align > 0,
    ensures
        spec_align_up(addr, align) % align == 0,
        addr <= spec_align_up(addr, align) < addr + align,
{
    let x = addr + align - 1;
    vstd::arithmetic::div_mod::lemma_fundamental_div_mod(x, align);
    vstd::arithmetic::div_mod::lemma_mod_multiples_basic(x / align, align);
    assert((x / align) * align == align * (x / align)) by (nonlinear_arith);
}

/// Computes `spec_next_power_of_two(x)`, which is a power of two at least `x`.
pub fn next_power_of_two(x: usize) -> (r: usize)
    requires
        x <= TOP_POWER_OF_TWO,
    ensures
        r == spec_next_power_of_two(x as int),
        r >= x,
        r >= 1,
{
    let mut p: usize = 1;
    while p < x
        invariant
            1 <= p,
            x <= TOP_POWER_OF_TWO,
            pow2_from(p as int, x as int) == spec_next_power_of_two(x as int),
        decreases usize::MAX - p,
    {
        p = p * 2;
    }
    p
}

/// How many bytes of pages to ask for when no free block fits a request of
/// `size` bytes in a heap of `total` bytes; `None` where that exceeds the
/// largest power of two a `usize` holds.
pub fn growth_size(total: usize, size: usize) -> (r: Option<usize>)
    ensures
        r == spec_growth_size(total, size),
{
    let x: usize = if total >= size {
        total
    } else {
        size
    };
    if x > TOP_POWER_OF_TWO {
        return None;
    }
    let p = next_power_of_two(x);
    if p >= PAGE_SIZE {
        Some(p)
    } else {
        Some(PAGE_SIZE)
    }
}


/// A first-fit, coalescing byte allocator over an address-ordered free list.
/// It asks its page supplier for more memory when no free block fits.
pub struct MergingAllocator<P: PageSupplier> {
    blocks: Vec<FreeBlock>,
    total_bytes: usize,
    used_bytes: usize,
    palloc: P,
}

impl<P: PageSupplier> View for MergingAllocator<P> {
    type V = HeapState;

    closed spec fn view(&self) -> HeapState {
        HeapState {
            blocks: self.blocks@,
            total: self.total_bytes as int,
            used: self.used_bytes as int,
        }
    }
}

impl<P: PageSupplier> MergingAllocator<P> {
    /// An allocator with no memory yet, which grows through `palloc`.
    pub fn new(palloc: P) -> (r: Self)
        ensures
            r@ == HeapState::empty(),
            r@.wf(),
    {
        MergingAllocator { blocks: Vec::new(), total_bytes: 0, used_bytes: 0, palloc }
    }

    /// Registers the first extent, `[start, start + size)`, as one free block.
    pub fn init(&mut self, start: usize, size: usize)
        requires
            old(self)@ == HeapState::empty(),
            start + size <= usize::MAX,
        ensures
            final(self)@ == old(self)@.init(start, size),
            final(self)@.wf(),
    {
        if size > 0 {
            let b = FreeBlock { addr: start, size };
            proof {
                lemma_insert_keeps(self.blocks@, b);
            }
            insert_free_block(&mut self.blocks, b);
        }
        self.total_bytes = size;
    }

    /// Registers a further extent, `[start, start + size)`. It is refused with
    /// `InvalidParam` where it ends beyond the address space or the heap's
    /// total would no longer fit a `usize`, and with `MemoryOverlap` where it
    /// shares a byte with a free block; the state is then left as it was.
    pub fn add_memory(&mut self, start: usize, size: usize) -> (r: Result<(), AllocError>)
        requires
            old(self)@.wf(),
        ensures
            (final(self)@, r) == old(self)@.add_memory(start, size),
            final(self)@.wf(),
    {
        match checked_block(&self.blocks, start, size) {
            Err(e) => {
                return Err(e);
            },
            Ok(()) => {},
        }
        if self.total_bytes > usize::MAX - size {
            return Err(AllocError::InvalidParam);
        }
        if size > 0 {
            let b = FreeBlock { addr: start, size };
            proof {
                lemma_insert_keeps(self.blocks@, b);
            }
            insert_free_block(&mut self.blocks, b);
        }
        self.total_bytes = self.total_bytes + size;
        Ok(())
    }

    /// Hands out free block `i` whole for a request that fits it at `align`.
    fn take_block(&mut self, i: usize, align: usize) -> (r: Result<usize, AllocError>)
        requires
            old(self)@.wf(),
            i < old(self)@.blocks.len(),
            0 < align,
            align <= old(self)@.blocks[i as int].size,
        ensures
            (final(self)@, r) == old(self)@.take(i as int, align as int),
            final(self)@.wf(),
            r matches Ok(p) ==> p % align == 0,
    {
        proof {
            lemma_size_le_free_sum(self.blocks@, i as int);
            lemma_remove_keeps(self.blocks@, i as int);
        }
        let b = self.blocks[i];
        assert(self.blocks@[i as int].end() <= usize::MAX);
        let up = align_up(b.addr, align);
        let room = b.size - (up - b.addr);
        self.blocks.remove(i);
        self.used_bytes = self.used_bytes + room;
        Ok(up)
    }

    /// Serves a request that no free block could, given the bytes `grow`
    /// asked of the page supplier and its answer `pages`: see
    /// `HeapState::alloc_from_pages`.
    pub fn alloc_from_pages(
        &mut self,
        size: usize,
        align: usize,
        grow: usize,
        pages: Result<usize, AllocError>,
    ) -> (r: Result<usize, AllocError>)
        requires
            old(self)@.wf(),
            0 < align,
        ensures
            (final(self)@, r) == old(self)@.alloc_from_pages(size, align, grow, pages),
            final(self)@.wf(),
            r matches Ok(p) ==> p % align == 0,
            r is Err ==> r == Err::<usize, AllocError>(AllocError::NoMemory),
            r is Err ==> final(self)@.used == old(self)@.used,
    {
        let need: usize = if size >= align {
            size
        } else {
            align
        };
        let ghost st = self@;
        assert(need == need_of(size, align));
        match pages {
            Err(_) => Err(AllocError::NoMemory),
            Ok(base) => {
                match self.add_memory(base, grow) {
                    Err(_) => Err(AllocError::NoMemory),
                    Ok(()) => {
                        assert(self@ == st.add_memory(base, grow).0);
                        proof {
                            lemma_first_fit(self.blocks@, need as int, align as int);
                        }
                        match find_free_block(&self.blocks, need, align) {
                            Some(i) => {
                                assert(i as int == first_fit(self.blocks@, need as int, align as int));
                                assert(fits(self.blocks@[i as int], need as int, align as int));
                                self.take_block(i, align)
                            },
                            None => Err(AllocError::NoMemory),
                        }
                    },
                }
            },
        }
    }

    /// Allocates `size` bytes at alignment `align` (a power of two) and
    /// returns their address.
    ///
    /// The first free block, in address order, that holds
    /// `need_of(size, align)` bytes from its first aligned address on is taken
    /// off the list whole. Where none does, `spec_growth_size` bytes are asked
    /// of the page supplier as `page_request` gives them, and the request goes
    /// on as `alloc_from_pages` describes with whatever the supplier answered.
    /// Every failure is `NoMemory`.
    ///
    /// A block that holds enough bytes but too few once its alignment padding
    /// is skipped is passed over rather than handed out short, so the address
    /// returned always has `need_of(size, align)` bytes of the block behind it.
    pub fn allocate(&mut self, size: usize, align: usize) -> (r: Result<usize, AllocError>)
        requires
            old(self)@.wf(),
            0 < align,
        ensures
            final(self)@.wf(),
            ({
                let i = first_fit(old(self)@.blocks, need_of(size, align) as int, align as int);
                let g = spec_growth_size(old(self)@.total as usize, size);
                &&& i < old(self)@.blocks.len() ==> (final(self)@, r) == old(self)@.take(
                    i,
                    align as int,
                )
                &&& i == old(self)@.blocks.len() && g is None ==> r == Err::<usize, AllocError>(
                    AllocError::NoMemory,
                ) && final(self)@ == old(self)@
                &&& i == old(self)@.blocks.len() && g is Some ==> exists|
                    pages: Result<usize, AllocError>,
                | (final(self)@, r) == #[trigger] old(self)@.alloc_from_pages(
                    size,
                    align,
                    g->Some_0,
                    pages,
                )
            }),
            r matches Ok(p) ==> p % align == 0,
            r is Err ==> r == Err::<usize, AllocError>(AllocError::NoMemory),
            r is Err ==> final(self)@.used == old(self)@.used,
    {
        let need: usize = if size >= align {
            size
        } else {
            align
        };
        proof {
            lemma_first_fit(self.blocks@, need as int, align as int);
        }
        match find_free_block(&self.blocks, need, align) {
            Some(i) => {
                proof {
                    lemma_align_up(self.blocks@[i as int].addr as int, align as int);
                }
                assert(i as int == first_fit(self.blocks@, need as int, align as int));
                assert(fits(self.blocks@[i as int], need as int, align as int));
                self.take_block(i, align)
            },
            None => {
                match growth_size(self.total_bytes, size) {
                    None => Err(AllocError::NoMemory),
                    Some(grow) => {
                        let (num_pages, page_align) = page_request(grow);
                        let pages = self.palloc.alloc_pages(num_pages, page_align);
                        let ghost st = self@;
                        let r = self.alloc_from_pages(size, align, grow, pages);
                        assert((self@, r) == st.alloc_from_pages(size, align, grow, pages));
                        r
                    },
                }
            },
        }
    }

    /// Whether `deallocate(ptr, size, align)` may be called: see
    /// `HeapState::can_release`.
    pub fn release_allowed(&self, ptr: usize, size: usize, align: usize) -> (r: bool)
        requires
            self@.wf(),
        ensures
            r == self@.can_release(ptr, size, align),
    {
        let need: usize = if size >= align {
            size
        } else {
            align
        };
        if need > self.used_bytes {
            return false;
        }
        match checked_block(&self.blocks, ptr, need) {
            Ok(()) => true,
            Err(_) => false,
        }
    }

    /// Releases the `need_of(size, align)` bytes at `ptr` that an earlier
    /// `allocate(size, align)` handed out: they go back on the free list in
    /// address order and are coalesced with their neighbours.
    pub fn deallocate(&mut self, ptr: usize, size: usize, align: usize)
        requires
            old(self)@.wf(),
            0 < align,
            old(self)@.can_release(ptr, size, align),
        ensures
            final(self)@ == old(self)@.release(ptr, size, align),
            final(self)@.wf(),
    {
        let need: usize = if size >= align {
            size
        } else {
            align
        };
        let b = FreeBlock { addr: ptr, size: need };
        proof {
            lemma_insert_keeps(self.blocks@, b);
            crate::free_list::lemma_disjoint_sorted(self.blocks@);
            crate::free_list::lemma_insert_pos(self.blocks@, ptr as int);
        }
        let pos = insert_free_block(&mut self.blocks, b);
        merge_adjacent_blocks(&mut self.blocks, pos);
        self.used_bytes = self.used_bytes - need;
    }

    /// The free blocks, in address order.
    pub fn free_blocks(&self) -> (r: &Vec<FreeBlock>)
        ensures
            r@ == self@.blocks,
    {
        &self.blocks
    }

    /// Bytes ever registered with the allocator.
    pub fn total_bytes(&self) -> (r: usize)
        ensures
            r == self@.total,
    {
        self.total_bytes
    }

    /// Bytes handed out and not yet released.
    pub fn used_bytes(&self) -> (r: usize)
        ensures
            r == self@.used,
    {
        self.used_bytes
    }

    /// Bytes registered and not in use: `total_bytes() - used_bytes()`.
    pub fn available_bytes(&self) -> (r: usize)
        requires
            self@.wf(),
        ensures
            r == self@.total - self@.used,
    {
        proof {
            lemma_free_sum_nonneg(self.blocks@);
        }
        self.total_bytes - self.used_bytes
    }
}

} // verus!
