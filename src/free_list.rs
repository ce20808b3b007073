use vstd::prelude::*;

use crate::error::AllocError;

verus! {

/// A run of `size` unused bytes that starts at address `addr`.
#[derive(Clone, Copy, Debug, PartialEq, Eq, Structural)]
pub struct FreeBlock {
    pub addr: usize,
    pub size: usize,
}

impl FreeBlock {
    /// One past the last byte of the block.
    pub open spec fn end(self) -> int {
        self.addr + self.size
    }
}

/// Blocks appear in ascending order of address.
pub open spec fn sorted(s: Seq<FreeBlock>) -> bool {
    forall|i: int, j: int| 0 <= i <= j < s.len() ==> s[i].addr <= s[j].addr
}

/// Total number of bytes held by the blocks.
pub open spec fn free_sum(s: Seq<FreeBlock>) -> int
    decreases s.len(),
{
    if s.len() == 0 {
        0
    } else {
        free_sum(s.drop_last()) + s.last().size
    }
}

/// Whether the extent `[start, start + size)` shares a byte with block `b`.
pub open spec fn overlaps(b: FreeBlock, start: int, size: int) -> bool {
    start < b.end() && start + size > b.addr
}

/// Whether the extent `[start, start + size)` shares a byte with any block.
pub open spec fn overlaps_any(s: Seq<FreeBlock>, start: int, size: int) -> bool {
    exists|i: int| 0 <= i < s.len() && overlaps(#[trigger] s[i], start, size)
}

/// Position, from `i` on, of the first block that starts above `addr` (or the
/// length of the list if none does).
pub open spec fn insert_pos_from(s: Seq<FreeBlock>, addr: int, i: int) -> int
    decreases s.len() - i,
{
    if i < 0 || i >= s.len() {
        s.len() as int
    } else if s[i].addr > addr {
        i
    } else {
        insert_pos_from(s, addr, i + 1)
    }
}

/// Where a block starting at `addr` is spliced in to keep the list ordered.
pub open spec fn insert_pos(s: Seq<FreeBlock>, addr: int) -> int {
    insert_pos_from(s, addr, 0)
}

/// The list after splicing in `b` at its place in address order.
pub open spec fn insert_block(s: Seq<FreeBlock>, b: FreeBlock) -> Seq<FreeBlock> {
    s.insert(insert_pos(s, b.addr as int), b)
}

/// The smallest multiple of `align` that is at least `addr`.
pub open spec fn spec_align_up(addr: int, align: int) -> int {
    (addr + align - 1) - (addr + align - 1) % align
}

/// Bytes of `b` left after skipping the padding up to the first address that
/// is a multiple of `align`.
pub open spec fn aligned_room(b: FreeBlock, align: int) -> int {
    b.size - (spec_align_up(b.addr as int, align) - b.addr)
}

/// Whether `need` bytes at alignment `align` can be carved out of `b`.
pub open spec fn fits(b: FreeBlock, need: int, align: int) -> bool {
    b.size >= need && aligned_room(b, align) >= need
}

/// Position, from `i` on, of the first block that fits the request (or the
/// length of the list if none does).
pub open spec fn first_fit_from(s: Seq<FreeBlock>, need: int, align: int, i: int) -> int
    decreases s.len() - i,
{
    if i < 0 || i >= s.len() {
        s.len() as int
    } else if fits(s[i], need, align) {
        i
    } else {
        first_fit_from(s, need, align, i + 1)
    }
}

/// Position of the first block, in address order, that fits the request.
pub open spec fn first_fit(s: Seq<FreeBlock>, need: int, align: int) -> int {
    first_fit_from(s, need, align, 0)
}
/// No two blocks share a byte, and each lies wholly before the next.
pub open spec fn disjoint(s: Seq<FreeBlock>) -> bool {
    forall|i: int, j: int| 0 <= i < j < s.len() ==> #[trigger] s[i].end() <= #[trigger] s[j].addr
}

/// Every block holds at least one byte.
pub open spec fn positive(s: Seq<FreeBlock>) -> bool {
    forall|i: int| 0 <= i < s.len() ==> #[trigger] s[i].size > 0
}

/// Every block ends inside the address space.
pub open spec fn ends_fit(s: Seq<FreeBlock>) -> bool {
    forall|i: int| 0 <= i < s.len() ==> #[trigger] s[i].end() <= usize::MAX
}

/// The block that runs from the start of `lo` to the end of `hi`.
pub open spec fn union_of(lo: FreeBlock, hi: FreeBlock) -> FreeBlock {
    FreeBlock { addr: lo.addr, size: (hi.end() - lo.addr) as usize }
}

/// Coalescing of the block at position `b`, scanning from position `i`.
///
/// A block that ends where `b` starts is replaced by the union of the two,
/// which takes `b`'s place, and the scan goes on. The first block that starts
/// where `b` ends is folded into `b` the same way, and the scan stops. The
/// asymmetry is kept from the scan's design: in an ordered, disjoint list each
/// side matches at most once.
pub open spec fn merge_scan(s: Seq<FreeBlock>, b: int, i: int) -> Seq<FreeBlock>
    decreases s.len() - i,
{
    if i < 0 || i >= s.len() || b < 0 || b >= s.len() {
        s
    } else if i != b && s[i].end() == s[b].addr {
        merge_scan(
            s.update(i, union_of(s[i], s[b])).remove(b),
            if b < i { i - 1 } else { i },
            i,
        )
    } else if i != b && s[b].end() == s[i].addr {
        s.update(b, union_of(s[b], s[i])).remove(i)
    } else {
        merge_scan(s, b, i + 1)
    }
}

pub proof fn lemma_free_sum_nonneg(s: Seq<FreeBlock>)
    ensures
        free_sum(s) >= 0,
    decreases s.len(),
{
    if s.len() > 0 {
        lemma_free_sum_nonneg(s.drop_last());
    }
}

pub proof fn lemma_size_le_free_sum(s: Seq<FreeBlock>, i: int)
    requires
        0 <= i < s.len(),
    ensures
        s[i].size <= free_sum(s),
    decreases s.len(),
{
    if i == s.len() - 1 {
        lemma_free_sum_nonneg(s.drop_last());
    } else {
        lemma_size_le_free_sum(s.drop_last(), i);
    }
}

pub proof fn lemma_free_sum_update(s: Seq<FreeBlock>, i: int, b: FreeBlock)
    requires
        0 <= i < s.len(),
    ensures
        free_sum(s.update(i, b)) == free_sum(s) - s[i].size + b.size,
    decreases s.len(),
{
    if i == s.len() - 1 {
        assert(s.update(i, b).drop_last() =~= s.drop_last());
    } else {
        lemma_free_sum_update(s.drop_last(), i, b);
        assert(s.update(i, b).drop_last() =~= s.drop_last().update(i, b));
    }
}

pub proof fn lemma_free_sum_insert(s: Seq<FreeBlock>, i: int, b: FreeBlock)
    requires
        0 <= i <= s.len(),
    ensures
        free_sum(s.insert(i, b)) == free_sum(s) + b.size,
    decreases s.len(),
{
    if i == s.len() {
        assert(s.insert(i, b).drop_last() =~= s);
    } else {
        lemma_free_sum_insert(s.drop_last(), i, b);
        assert(s.insert(i, b).drop_last() =~= s.drop_last().insert(i, b));
    }
}

pub proof fn lemma_free_sum_remove(s: Seq<FreeBlock>, i: int)
    requires
        0 <= i < s.len(),
    ensures
        free_sum(s.remove(i)) == free_sum(s) - s[i].size,
    decreases s.len(),
{
    if i == s.len() - 1 {
        assert(s.remove(i) =~= s.drop_last());
    } else {
        lemma_free_sum_remove(s.drop_last(), i);
        assert(s.remove(i).drop_last() =~= s.drop_last().remove(i));
    }
}

proof fn lemma_insert_pos_from(s: Seq<FreeBlock>, addr: int, i: int)
    requires
        0 <= i <= s.len(),
    ensures
        i <= insert_pos_from(s, addr, i) <= s.len(),
        forall|j: int| i <= j < insert_pos_from(s, addr, i) ==> s[j].addr <= addr,
        insert_pos_from(s, addr, i) < s.len() ==> s[insert_pos_from(s, addr, i)].addr > addr,
    decreases s.len() - i,
{
    if i < s.len() && s[i].addr <= addr {
        lemma_insert_pos_from(s, addr, i + 1);
    }
}

/// The splice position keeps every earlier block at or below `addr` and every
/// later one above it.
pub proof fn lemma_insert_pos(s: Seq<FreeBlock>, addr: int)
    requires
        sorted(s),
    ensures
        0 <= insert_pos(s, addr) <= s.len(),
        forall|j: int| 0 <= j < insert_pos(s, addr) ==> s[j].addr <= addr,
        forall|j: int| insert_pos(s, addr) <= j < s.len() ==> s[j].addr > addr,
{
    lemma_insert_pos_from(s, addr, 0);
}

proof fn lemma_first_fit_from(s: Seq<FreeBlock>, need: int, align: int, i: int)
    requires
        0 <= i <= s.len(),
    ensures
        i <= first_fit_from(s, need, align, i) <= s.len(),
        forall|j: int| i <= j < first_fit_from(s, need, align, i) ==> !fits(s[j], need, align),
        first_fit_from(s, need, align, i) < s.len() ==> fits(
            s[first_fit_from(s, need, align, i)],
            need,
            align,
        ),
    decreases s.len() - i,
{
    if i < s.len() && !fits(s[i], need, align) {
        lemma_first_fit_from(s, need, align, i + 1);
    }
}

/// The first fit is the earliest block that fits, if any does.
pub proof fn lemma_first_fit(s: Seq<FreeBlock>, need: int, align: int)
    ensures
        0 <= first_fit(s, need, align) <= s.len(),
        forall|j: int| 0 <= j < first_fit(s, need, align) ==> !fits(s[j], need, align),
        first_fit(s, need, align) < s.len() ==> fits(s[first_fit(s, need, align)], need, align),
{
    lemma_first_fit_from(s, need, align, 0);
}

/// A disjoint list of non-empty blocks is ordered by address.
pub proof fn lemma_disjoint_sorted(s: Seq<FreeBlock>)
    requires
        disjoint(s),
        positive(s),
    ensures
        sorted(s),
{
    assert forall|i: int, j: int| 0 <= i <= j < s.len() implies s[i].addr <= s[j].addr by {
        if i < j {
            assert(s[i].end() <= s[j].addr);
        }
    }
}

/// Replacing two touching neighbours by their union keeps the list disjoint,
/// non-empty and inside the address space, and keeps its byte count.
pub proof fn lemma_merge_neighbours(s: Seq<FreeBlock>, k: int)
    requires
        0 <= k,
        k + 1 < s.len(),
        disjoint(s),
        positive(s),
        ends_fit(s),
        s[k].end() == s[k + 1].addr,
    ensures
        s.update(k, union_of(s[k], s[k + 1])).remove(k + 1).len() == s.len() - 1,
        disjoint(s.update(k, union_of(s[k], s[k + 1])).remove(k + 1)),
        positive(s.update(k, union_of(s[k], s[k + 1])).remove(k + 1)),
        ends_fit(s.update(k, union_of(s[k], s[k + 1])).remove(k + 1)),
        free_sum(s.update(k, union_of(s[k], s[k + 1])).remove(k + 1)) == free_sum(s),
{
    let u = union_of(s[k], s[k + 1]);
    assert(s[k + 1].end() <= usize::MAX);
    assert(u.size == s[k].size + s[k + 1].size);
    let s1 = s.update(k, u);
    let r = s1.remove(k + 1);
    lemma_free_sum_update(s, k, u);
    lemma_free_sum_remove(s1, k + 1);
    assert forall|m: int| 0 <= m < r.len() implies #[trigger] r[m] == (if m < k {
        s[m]
    } else if m == k {
        u
    } else {
        s[m + 1]
    }) by {}
    assert forall|m1: int, m2: int| 0 <= m1 < m2 < r.len() implies #[trigger] r[m1].end()
        <= #[trigger] r[m2].addr by {
        if m1 < k {
            if m2 == k {
                assert(s[m1].end() <= s[k].addr);
            } else if m2 > k {
                assert(s[m1].end() <= s[m2 + 1].addr);
            } else {
                assert(s[m1].end() <= s[m2].addr);
            }
        } else if m1 == k {
            assert(s[k + 1].end() <= s[m2 + 1].addr);
        } else {
            assert(s[m1 + 1].end() <= s[m2 + 1].addr);
        }
    }
    assert forall|m: int| 0 <= m < r.len() implies #[trigger] r[m].size > 0 by {
        if m > k {
            assert(s[m + 1].size > 0);
        } else if m < k {
            assert(s[m].size > 0);
        }
    }
    assert forall|m: int| 0 <= m < r.len() implies #[trigger] r[m].end() <= usize::MAX by {
        if m > k {
            assert(s[m + 1].end() <= usize::MAX);
        } else if m < k {
            assert(s[m].end() <= usize::MAX);
        }
    }
}

/// Dropping a block keeps the list disjoint, non-empty and inside the address
/// space.
pub proof fn lemma_remove_keeps(s: Seq<FreeBlock>, k: int)
    requires
        0 <= k < s.len(),
        disjoint(s),
        positive(s),
        ends_fit(s),
    ensures
        disjoint(s.remove(k)),
        positive(s.remove(k)),
        ends_fit(s.remove(k)),
        free_sum(s.remove(k)) == free_sum(s) - s[k].size,
{
    let r = s.remove(k);
    lemma_free_sum_remove(s, k);
    assert forall|m1: int, m2: int| 0 <= m1 < m2 < r.len() implies #[trigger] r[m1].end()
        <= #[trigger] r[m2].addr by {
        let a = if m1 < k { m1 } else { m1 + 1 };
        let c = if m2 < k { m2 } else { m2 + 1 };
        assert(r[m1] == s[a] && r[m2] == s[c]);
        assert(s[a].end() <= s[c].addr);
    }
    assert forall|m: int| 0 <= m < r.len() implies #[trigger] r[m].size > 0 by {
        let a = if m < k { m } else { m + 1 };
        assert(r[m] == s[a]);
    }
    assert forall|m: int| 0 <= m < r.len() implies #[trigger] r[m].end() <= usize::MAX by {
        let a = if m < k { m } else { m + 1 };
        assert(r[m] == s[a]);
    }
}

/// Splicing in a non-empty block that overlaps no block keeps the list
/// disjoint, non-empty and inside the address space.
pub proof fn lemma_insert_keeps(s: Seq<FreeBlock>, b: FreeBlock)
    requires
        disjoint(s),
        positive(s),
        ends_fit(s),
        b.size > 0,
        b.end() <= usize::MAX,
        !overlaps_any(s, b.addr as int, b.size as int),
    ensures
        disjoint(insert_block(s, b)),
        positive(insert_block(s, b)),
        ends_fit(insert_block(s, b)),
        free_sum(insert_block(s, b)) == free_sum(s) + b.size,
        insert_block(s, b).len() == s.len() + 1,
{
    lemma_disjoint_sorted(s);
    lemma_insert_pos(s, b.addr as int);
    let p = insert_pos(s, b.addr as int);
    lemma_free_sum_insert(s, p, b);
    let r = insert_block(s, b);
    assert forall|m: int| 0 <= m < r.len() implies #[trigger] r[m] == (if m < p {
        s[m]
    } else if m == p {
        b
    } else {
        s[m - 1]
    }) by {}
    assert forall|m: int| 0 <= m < s.len() implies (m < p ==> s[m].end() <= b.addr) && (m >= p
        ==> b.end() <= s[m].addr) by {
        assert(!overlaps(s[m], b.addr as int, b.size as int));
    }
    assert forall|m1: int, m2: int| 0 <= m1 < m2 < r.len() implies #[trigger] r[m1].end()
        <= #[trigger] r[m2].addr by {
        if m1 < p && m2 < p {
            assert(s[m1].end() <= s[m2].addr);
        } else if m1 < p && m2 > p {
            assert(s[m1].end() <= s[m2 - 1].addr);
        } else if m1 > p {
            assert(s[m1 - 1].end() <= s[m2 - 1].addr);
        }
    }
    assert forall|m: int| 0 <= m < r.len() implies #[trigger] r[m].size > 0 && r[m].end()
        <= usize::MAX by {
        if m < p {
            assert(s[m].size > 0 && s[m].end() <= usize::MAX);
        } else if m > p {
            assert(s[m - 1].size > 0 && s[m - 1].end() <= usize::MAX);
        }
    }
}

/// Computes `spec_align_up(addr, align)`.
pub fn align_up(addr: usize, align: usize) -> (r: usize)
    requires
        align > 0,
        addr + align - 1 <= usize::MAX,
    ensures
        r == spec_align_up(addr as int, align as int),
        r % align == 0,
        addr <= r < addr + align,
{
    let x: usize = addr + (align - 1);
    let r = x - x % align;
    proof {
        vstd::arithmetic::div_mod::lemma_fundamental_div_mod(x as int, align as int);
        vstd::arithmetic::div_mod::lemma_mod_multiples_basic(x as int / align as int, align as int);
        assert(r == align * (x as int / align as int));
        assert((x as int / align as int) * align as int == align * (x as int / align as int))
            by (nonlinear_arith);
    }
    r
}

/// First-fit search: the position of the first block, in address order, out
/// of which `need` bytes aligned to `align` can be carved.
///
/// A block large enough in bytes but too small once its alignment padding is
/// skipped is passed over, and the scan goes on.
pub fn find_free_block(blocks: &Vec<FreeBlock>, need: usize, align: usize) -> (r: Option<usize>)
    requires
        0 < align <= need,
        forall|i: int| 0 <= i < blocks@.len() ==> #[trigger] blocks@[i].end() <= usize::MAX,
    ensures
        r is Some <==> first_fit(blocks@, need as int, align as int) < blocks@.len(),
        r matches Some(i) ==> i == first_fit(blocks@, need as int, align as int),
{
    proof {
        lemma_first_fit(blocks@, need as int, align as int);
    }
    let mut i: usize = 0;
    while i < blocks.len()
        invariant
            0 <= i <= blocks@.len(),
            0 < align <= need,
            forall|k: int| 0 <= k < blocks@.len() ==> #[trigger] blocks@[k].end() <= usize::MAX,
            first_fit_from(blocks@, need as int, align as int, i as int) == first_fit(
                blocks@,
                need as int,
                align as int,
            ),
        decreases blocks@.len() - i,
    {
        let b = blocks[i];
        if b.size >= need {
            assert(blocks@[i as int].end() <= usize::MAX);
            let up = align_up(b.addr, align);
            if b.size - (up - b.addr) >= need {
                return Some(i);
            }
        }
        i = i + 1;
    }
    None
}

/// Splices `b` into the list before the first block that starts above it, and
/// returns the position it took.
pub fn insert_free_block(blocks: &mut Vec<FreeBlock>, b: FreeBlock) -> (pos: usize)
    ensures
        pos == insert_pos(old(blocks)@, b.addr as int),
        final(blocks)@ == insert_block(old(blocks)@, b),
{
    proof {
        lemma_insert_pos_from(blocks@, b.addr as int, 0);
    }
    let mut i: usize = 0;
    while i < blocks.len()
        invariant
            0 <= i <= blocks@.len(),
            blocks@ == old(blocks)@,
            insert_pos_from(blocks@, b.addr as int, i as int) == insert_pos(blocks@, b.addr as int),
        ensures
            i <= blocks@.len(),
            blocks@ == old(blocks)@,
            i == insert_pos(blocks@, b.addr as int),
        decreases blocks@.len() - i,
    {
        if b.addr < blocks[i].addr {
            break;
        }
        i = i + 1;
    }
    blocks.insert(i, b);
    i
}

/// Rejects an extent whose end lies beyond the address space, or that
/// intersects a free block.
pub fn checked_block(blocks: &Vec<FreeBlock>, start: usize, size: usize) -> (r: Result<
    (),
    AllocError,
>)
    requires
        forall|i: int| 0 <= i < blocks@.len() ==> #[trigger] blocks@[i].end() <= usize::MAX,
    ensures
        r == (if start + size > usize::MAX {
            Err::<(), AllocError>(AllocError::InvalidParam)
        } else if overlaps_any(blocks@, start as int, size as int) {
            Err(AllocError::MemoryOverlap)
        } else {
            Ok(())
        }),
{
    if start > usize::MAX - size {
        return Err(AllocError::InvalidParam);
    }
    let new_end = start + size;
    let mut i: usize = 0;
    while i < blocks.len()
        invariant
            0 <= i <= blocks@.len(),
            new_end == start + size,
            forall|k: int| 0 <= k < blocks@.len() ==> #[trigger] blocks@[k].end() <= usize::MAX,
            forall|k: int| 0 <= k < i ==> !overlaps(#[trigger] blocks@[k], start as int, size as int),
        decreases blocks@.len() - i,
    {
        let b = blocks[i];
        assert(blocks@[i as int].end() <= usize::MAX);
        let block_end = b.addr + b.size;
        if start < block_end && new_end > b.addr {
            assert(overlaps(blocks@[i as int], start as int, size as int));
            return Err(AllocError::MemoryOverlap);
        }
        i = i + 1;
    }
    Ok(())
}

/// Coalesces the block at position `b` with its address neighbours, as
/// `merge_scan` describes.
#[verifier::rlimit(40)]
pub fn merge_adjacent_blocks(blocks: &mut Vec<FreeBlock>, b: usize)
    requires
        b < old(blocks)@.len(),
        disjoint(old(blocks)@),
        positive(old(blocks)@),
        ends_fit(old(blocks)@),
    ensures
        final(blocks)@ == merge_scan(old(blocks)@, b as int, 0),
        disjoint(final(blocks)@),
        positive(final(blocks)@),
        ends_fit(final(blocks)@),
        free_sum(final(blocks)@) == free_sum(old(blocks)@),
{
    let ghost s0 = blocks@;
    let ghost b0 = b as int;
    let mut b: usize = b;
    let mut i: usize = 0;
    while i < blocks.len()
        invariant_except_break
            b < blocks@.len(),
            merge_scan(blocks@, b as int, i as int) == merge_scan(s0, b0, 0),
        invariant
            i <= blocks@.len(),
            disjoint(blocks@),
            positive(blocks@),
            ends_fit(blocks@),
            free_sum(blocks@) == free_sum(s0),
        ensures
            blocks@ == merge_scan(s0, b0, 0),
            disjoint(blocks@),
            positive(blocks@),
            ends_fit(blocks@),
            free_sum(blocks@) == free_sum(s0),
        decreases blocks@.len() - i,
    {
        let ghost s = blocks@;
        let cur = blocks[i];
        let blk = blocks[b];
        assert(s[i as int].end() <= usize::MAX && s[b as int].end() <= usize::MAX);
        if i != b && cur.addr + cur.size == blk.addr {
            proof {
                if i > b {
                    assert(s[b as int].end() <= s[i as int].addr);
                    assert(s[b as int].size > 0);
                } else if i + 1 < b {
                    assert(s[i as int].end() <= s[i + 1].addr);
                    assert(s[i + 1].end() <= s[b as int].addr);
                    assert(s[i + 1].size > 0);
                }
                lemma_merge_neighbours(s, i as int);
            }
            let merged = FreeBlock { addr: cur.addr, size: cur.size + blk.size };
            assert(merged == union_of(s[i as int], s[b as int]));
            assert(merge_scan(s, b as int, i as int) == merge_scan(
                s.update(i as int, merged).remove(b as int),
                i as int,
                i as int,
            ));
            blocks.set(i, merged);
            blocks.remove(b);
            b = i;
        } else if i != b && blk.addr + blk.size == cur.addr {
            proof {
                if i < b {
                    assert(s[i as int].end() <= s[b as int].addr);
                    assert(s[i as int].size > 0);
                } else if i > b + 1 {
                    assert(s[b as int].end() <= s[b + 1].addr);
                    assert(s[b + 1].end() <= s[i as int].addr);
                    assert(s[b + 1].size > 0);
                }
                lemma_merge_neighbours(s, b as int);
            }
            let merged = FreeBlock { addr: blk.addr, size: blk.size + cur.size };
            assert(merged == union_of(s[b as int], s[i as int]));
            assert(merge_scan(s, b as int, i as int) == s.update(b as int, merged).remove(i as int));
            blocks.set(b, merged);
            blocks.remove(i);
            break;
        } else {
            assert(merge_scan(s, b as int, i as int) == merge_scan(s, b as int, i as int + 1));
            i = i + 1;
        }
    }
}

} // verus!
