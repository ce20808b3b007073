use vstd::prelude::*;

use crate::allocator::{lemma_align_up, need_of, HeapState};
use crate::error::AllocError;
use crate::free_list::{
    aligned_room, first_fit, fits, free_sum, insert_block, insert_pos, lemma_first_fit,
    ends_fit, lemma_disjoint_sorted, lemma_free_sum_nonneg, lemma_insert_pos, merge_scan, overlaps,
    spec_align_up, union_of, FreeBlock,
};

verus! {

/// In a well-formed state the bytes in use never exceed the bytes registered,
/// so `total - used` is the count of available bytes.
pub proof fn lemma_used_within_total(st: HeapState)
    requires
        st.wf(),
    ensures
        0 <= st.used <= st.total,
        st.total - st.used >= free_sum(st.blocks),
{
    lemma_free_sum_nonneg(st.blocks);
}

/// A block that is handed out with no alignment padding and no bytes beyond
/// the request, and then released with the same layout, leaves the count of
/// used bytes where it was before the allocation.
pub proof fn lemma_take_release_restores_used(st: HeapState, i: int, size: usize, align: usize)
    requires
        st.wf(),
        0 <= i < st.blocks.len(),
        0 < align,
        aligned_room(st.blocks[i], align as int) == need_of(size, align),
    ensures
        st.take(i, align as int).1 is Ok,
        st.take(i, align as int).0.release(st.take(i, align as int).1->Ok_0, size, align).used
            == st.used,
{
}

/// Two extents that do not overlap, registered by `init` and then
/// `add_memory` on a fresh allocator, are both accepted, and the total is
/// their combined size (where that total fits a `usize`).
pub proof fn lemma_two_disjoint_extents(a: usize, n: usize, b: usize, m: usize)
    requires
        a + n <= usize::MAX,
        b + m <= usize::MAX,
        n + m <= usize::MAX,
        a + n <= b || b + m <= a,
    ensures
        HeapState::empty().init(a, n).add_memory(b, m).1 == Ok::<(), AllocError>(()),
        HeapState::empty().init(a, n).add_memory(b, m).0.total == n + m,
{
    let st1 = HeapState::empty().init(a, n);
    let blk = FreeBlock { addr: a, size: n };
    assert(insert_pos(Seq::<FreeBlock>::empty(), a as int) == 0);
    if n > 0 {
        assert(st1.blocks =~= seq![blk]);
        assert(!overlaps(blk, b as int, m as int));
    } else {
        assert(st1.blocks.len() == 0);
    }
}

/// An extent that shares a byte with a free block is refused with
/// `MemoryOverlap`, and the state is left as it was.
pub proof fn lemma_overlap_rejected(st: HeapState, start: usize, size: usize, i: int)
    requires
        0 <= i < st.blocks.len(),
        start + size <= usize::MAX,
        overlaps(st.blocks[i], start as int, size as int),
    ensures
        st.add_memory(start, size) == (st, Err::<(), AllocError>(AllocError::MemoryOverlap)),
{
    assert(overlaps(st.blocks[i], start as int, size as int));
}

/// Whether block `b` holds every byte of `[lo, hi)`.
pub open spec fn covers(b: FreeBlock, lo: int, hi: int) -> bool {
    b.addr <= lo && hi <= b.end()
}

/// Coalescing only ever widens blocks: a range held by one block before is
/// held by one block after.
proof fn lemma_merge_scan_covers(s: Seq<FreeBlock>, b: int, i: int, k: int, lo: int, hi: int)
    requires
        0 <= i,
        0 <= k < s.len(),
        ends_fit(s),
        covers(s[k], lo, hi),
    ensures
        exists|k2: int|
            0 <= k2 < merge_scan(s, b, i).len() && covers(
                #[trigger] merge_scan(s, b, i)[k2],
                lo,
                hi,
            ),
    decreases s.len() - i,
{
    if i >= s.len() || b < 0 || b >= s.len() {
        assert(covers(merge_scan(s, b, i)[k], lo, hi));
    } else if i != b && s[i].end() == s[b].addr {
        let u = union_of(s[i], s[b]);
        assert(s[b].end() <= usize::MAX);
        let r = s.update(i, u).remove(b);
        let ui = if b < i { i - 1 } else { i };
        assert(r[ui] == u);
        let k2 = if k == b || k == i { ui } else if k < b { k } else { k - 1 };
        assert(covers(r[k2], lo, hi));
        assert forall|m: int| 0 <= m < r.len() implies #[trigger] r[m].end() <= usize::MAX by {
            let m2 = if m < b { m } else { m + 1 };
            if m2 != i {
                assert(r[m] == s[m2]);
            }
        }
        lemma_merge_scan_covers(r, ui, i, k2, lo, hi);
        assert(merge_scan(s, b, i) == merge_scan(r, ui, i));
    } else if i != b && s[b].end() == s[i].addr {
        let u = union_of(s[b], s[i]);
        assert(s[i].end() <= usize::MAX);
        let r = s.update(b, u).remove(i);
        let ub = if i < b { b - 1 } else { b };
        assert(r[ub] == u);
        let k2 = if k == b || k == i { ub } else if k < i { k } else { k - 1 };
        assert(covers(r[k2], lo, hi));
        assert(merge_scan(s, b, i) == r);
        assert(covers(merge_scan(s, b, i)[k2], lo, hi));
    } else {
        lemma_merge_scan_covers(s, b, i + 1, k, lo, hi);
        assert(merge_scan(s, b, i) == merge_scan(s, b, i + 1));
    }
}

/// The first aligned address at or above `lo` lies at or below any multiple
/// of the alignment that does.
proof fn lemma_align_up_least(lo: int, align: int, m: int)
    requires
        0 <= lo <= m,
        align > 0,
        m % align == 0,
    ensures
        spec_align_up(lo, align) <= m,
{
    lemma_align_up(lo, align);
    let up = spec_align_up(lo, align);
    vstd::arithmetic::div_mod::lemma_fundamental_div_mod(up, align);
    vstd::arithmetic::div_mod::lemma_fundamental_div_mod(m, align);
    let q = up / align;
    let k = m / align;
    assert(align * q < align * (k + 1)) by (nonlinear_arith)
        requires
            up == align * q,
            m == align * k,
            up < lo + align,
            lo <= m,
    ;
    assert(q <= k) by (nonlinear_arith)
        requires
            align * q < align * (k + 1),
            align > 0,
    ;
    assert(align * q <= align * k) by (nonlinear_arith)
        requires
            q <= k,
            align > 0,
    ;
}

/// Releasing bytes at an address aligned to the layout leaves a free block
/// that serves the same request again: the next allocation of that layout
/// needs no growth.
pub proof fn lemma_release_then_fit(st: HeapState, ptr: usize, size: usize, align: usize)
    requires
        st.wf(),
        0 < align,
        st.can_release(ptr, size, align),
        ptr % align == 0,
    ensures
        first_fit(st.release(ptr, size, align).blocks, need_of(size, align) as int, align as int)
            < st.release(ptr, size, align).blocks.len(),
{
    let need = need_of(size, align);
    let blk = FreeBlock { addr: ptr, size: need };
    let s = st.blocks;
    let pos = insert_pos(s, ptr as int);
    let s1 = insert_block(s, blk);
    lemma_disjoint_sorted(s);
    lemma_insert_pos(s, ptr as int);
    assert(s1[pos] == blk);
    assert forall|m: int| 0 <= m < s1.len() implies #[trigger] s1[m].end() <= usize::MAX by {
        if m < pos {
            assert(s1[m] == s[m]);
        } else if m > pos {
            assert(s1[m] == s[m - 1]);
        }
    }
    lemma_merge_scan_covers(s1, pos, 0, pos, ptr as int, ptr + need);
    let r = merge_scan(s1, pos, 0);
    let k2 = choose|k2: int| 0 <= k2 < r.len() && covers(#[trigger] r[k2], ptr as int, ptr + need);
    lemma_align_up_least(r[k2].addr as int, align as int, ptr as int);
    assert(fits(r[k2], need as int, align as int));
    lemma_first_fit(r, need as int, align as int);
}

proof fn lemma_merge_scan_skip(s: Seq<FreeBlock>, b: int, i: int, j: int)
    requires
        0 <= i <= j <= s.len(),
        0 <= b < s.len(),
        forall|m: int|
            i <= m < j && m != b ==> #[trigger] s[m].end() != s[b].addr && s[b].end()
                != s[m].addr,
    ensures
        merge_scan(s, b, i) == merge_scan(s, b, j),
    decreases j - i,
{
    if i < j {
        if i != b {
            assert(s[i].end() != s[b].addr && s[b].end() != s[i].addr);
        }
        lemma_merge_scan_skip(s, b, i + 1, j);
    }
}

/// Releasing the bytes that lie exactly between two free blocks replaces the
/// three by one block that runs from the start of the lower to the end of the
/// upper; every other block stays as it was.
pub proof fn lemma_release_joins_neighbours(
    st: HeapState,
    ptr: usize,
    size: usize,
    align: usize,
    p: int,
    q: int,
)
    requires
        st.wf(),
        0 < align,
        st.can_release(ptr, size, align),
        0 <= p < st.blocks.len(),
        0 <= q < st.blocks.len(),
        st.blocks[p].end() == ptr,
        st.blocks[q].addr == ptr + need_of(size, align),
    ensures
        q == p + 1,
        st.release(ptr, size, align).blocks == st.blocks.update(
            p,
            FreeBlock {
                addr: st.blocks[p].addr,
                size: (st.blocks[q].end() - st.blocks[p].addr) as usize,
            },
        ).remove(q),
{
    let s = st.blocks;
    let need = need_of(size, align);
    let blk = FreeBlock { addr: ptr, size: need };
    assert(need > 0);
    if q <= p {
        if q < p {
            assert(s[q].end() <= s[p].addr);
        }
        assert(false);
    }
    if q > p + 1 {
        assert(s[p].end() <= s[p + 1].addr);
        assert(s[p + 1].end() <= s[q].addr);
        assert(s[p + 1].size > 0);
        assert(overlaps(s[p + 1], ptr as int, need as int));
        assert(false);
    }
    lemma_disjoint_sorted(s);
    lemma_insert_pos(s, ptr as int);
    let pos = insert_pos(s, ptr as int);
    if pos <= p {
        assert(s[p].addr > ptr);
    }
    if pos > p + 1 {
        assert(s[p + 1].addr <= ptr);
    }
    assert(pos == p + 1);
    let s1 = insert_block(s, blk);
    assert(s1[p] == s[p] && s1[p + 1] == blk && s1[p + 2] == s[p + 1]);
    assert forall|m: int| 0 <= m < p && m != pos implies #[trigger] s1[m].end() != s1[pos].addr
        && s1[pos].end() != s1[m].addr by {
        assert(s1[m] == s[m]);
        assert(s[m].end() <= s[p].addr);
    }
    lemma_merge_scan_skip(s1, pos, 0, p);
    assert(s[p + 1].end() <= usize::MAX);
    let u1 = union_of(s1[p], s1[p + 1]);
    let r1 = s1.update(p, u1).remove(p + 1);
    assert(merge_scan(s1, pos, p) == merge_scan(r1, p, p));
    assert(merge_scan(r1, p, p) == merge_scan(r1, p, p + 1));
    assert(r1[p] == u1 && r1[p + 1] == s[p + 1]);
    let u = union_of(u1, r1[p + 1]);
    assert(merge_scan(r1, p, p + 1) == r1.update(p, u).remove(p + 1));
    assert(r1.update(p, u).remove(p + 1) =~= s.update(
        p,
        FreeBlock { addr: s[p].addr, size: (s[q].end() - s[p].addr) as usize },
    ).remove(q));
}

} // verus!
