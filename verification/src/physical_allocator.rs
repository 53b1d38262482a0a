//! The physical region allocator: it validates, orders and merges the large
//! spans of usable memory that firmware reports at boot.
//!
//! Every region is a contiguous span of backing memory. Its header sits at
//! the first cell-aligned address of the span; the unaligned bytes skipped
//! before the header and left over after the last whole cell are recorded in
//! `pre_size` and `post_size`, so the full span of a region is
//! `[addr - pre_size, addr + size + post_size)`. The allocator keeps its
//! regions sorted by header address, pairwise disjoint, and with a strictly
//! positive gap between neighbours: two spans that touch are merged into one
//! region on insertion.

use vstd::prelude::*;

verus! {

/// The size in bytes of one allocation cell, equal to one block header.
pub const CELL_SIZE: usize = 32;

/// The size in bytes of a region header, equal to one cell.
pub const REGION_HEADER_SIZE: usize = 32;

/// The smallest usable region: a region header, a block header, and one cell.
pub const SMALLEST_REGION_SIZE: usize = REGION_HEADER_SIZE + CELL_SIZE * 2;

/// The tag kept in every block header. A fresh region has one free block;
/// any other value read back from memory would mean the header was
/// overwritten by a non-owning writer.
#[derive(Clone, Copy, Debug, PartialEq, Eq, Structural)]
pub enum BlockStatus {
    Free,
    Used,
}

/// The header of one run of free cells inside a region.
#[derive(Clone, Copy, Debug, PartialEq, Eq, Structural)]
pub struct MemoryBlock {
    /// The number of cells that follow this header, the header excluded.
    pub cell_count: usize,
    pub status: BlockStatus,
}

/// The header of one contiguous span of physical memory.
#[derive(Clone, Copy, Debug, PartialEq, Eq, Structural)]
pub struct MemoryRegion {
    /// Cell-aligned address of the region header itself.
    pub addr: usize,
    /// Bytes spanned by the region including both headers and all cells,
    /// but not the unaligned padding on either side.
    pub size: usize,
    /// Unaligned bytes skipped before the header to reach cell alignment.
    pub pre_size: u32,
    /// Unaligned trailing bytes too small to form a whole cell.
    pub post_size: u32,
    /// The single free block of a region that has not yet allocated.
    pub first_block: MemoryBlock,
}

/// Why a region could not be built or inserted.
#[derive(Clone, Copy, Debug, PartialEq, Eq, Structural)]
pub enum PhysicalAllocatorError {
    /// The span `addr + size` runs past the end of the address space.
    RegionOutOfBounds { addr: usize },
    /// The memory map handed to the allocator was empty.
    NoRegions,
    /// The span starts at address zero.
    NullRegion,
    /// The new region's span intersects a region already in the list.
    OverlappingRegion,
    /// After alignment the span cannot hold both headers and one cell.
    RegionTooSmall { addr: usize, size: usize },
}

/// First address of the full span backing `r`, padding included.
pub open spec fn region_start(r: MemoryRegion) -> int {
    r.addr - r.pre_size
}

/// One past the last address of the full span backing `r`, padding included.
pub open spec fn region_end(r: MemoryRegion) -> int {
    r.addr + r.size + r.post_size
}

/// Internal consistency of one region header.
pub open spec fn region_wf(r: MemoryRegion) -> bool {
    &&& r.addr > 0
    &&& r.addr % CELL_SIZE == 0
    &&& r.pre_size < CELL_SIZE
    &&& r.post_size < CELL_SIZE
    &&& r.size == (r.first_block.cell_count + 2) * CELL_SIZE
    &&& r.first_block.cell_count >= 1
    &&& r.first_block.status == BlockStatus::Free
    &&& region_end(r) <= usize::MAX
}

/// The full spans of `a` and `b` intersect.
pub open spec fn overlaps(a: MemoryRegion, b: MemoryRegion) -> bool {
    region_start(a) < region_end(b) && region_start(b) < region_end(a)
}

/// The span of `b` begins exactly where the span of `a` ends.
pub open spec fn adjacent(a: MemoryRegion, b: MemoryRegion) -> bool {
    region_end(a) == region_start(b)
}

/// The allocator's list invariant: every region is well formed and each
/// region ends strictly before the next one starts, so the list is sorted
/// by address, pairwise disjoint, and no two regions touch.
pub open spec fn regions_wf(s: Seq<MemoryRegion>) -> bool {
    &&& forall|i: int| 0 <= i < s.len() ==> region_wf(#[trigger] s[i])
    &&& forall|i: int| 0 <= i < s.len() - 1 ==> region_end(#[trigger] s[i]) < region_start(s[i + 1])
}

/// Basic bounds of a well-formed region: its header address lies inside its
/// own span, and the span is non-empty.
pub proof fn lemma_region_bounds(r: MemoryRegion)
    requires
        region_wf(r),
    ensures
        r.addr >= CELL_SIZE,
        0 < region_start(r),
        region_start(r) <= r.addr,
        r.addr < region_end(r),
        region_start(r) < region_end(r),
{
    assert(r.addr >= CELL_SIZE) by {
        if r.addr < CELL_SIZE {
            assert(r.addr % CELL_SIZE == r.addr);
        }
    }
    assert(r.size >= 3 * CELL_SIZE);
}

/// Non-overlap and order law: in a well-formed region list, every earlier
/// region ends strictly before every later region starts; hence the list is
/// strictly increasing in header address and all spans are pairwise
/// disjoint.
pub proof fn lemma_regions_ordered(s: Seq<MemoryRegion>, i: int, j: int)
    requires
        regions_wf(s),
        0 <= i < j < s.len(),
    ensures
        region_end(s[i]) < region_start(s[j]),
        s[i].addr < s[j].addr,
        !overlaps(s[i], s[j]),
        !overlaps(s[j], s[i]),
    decreases j - i,
{
    lemma_region_bounds(s[i]);
    lemma_region_bounds(s[j]);
    if j > i + 1 {
        lemma_regions_ordered(s, i, j - 1);
        lemma_region_bounds(s[j - 1]);
    }
}

/// The region described by `MemoryRegion::new(addr, size)`.
///
/// The header goes at the first cell-aligned address at or after `addr`;
/// the skipped bytes become `pre_size`, the trailing bytes below one whole
/// cell become `post_size`, and what remains must still hold a region
/// header, a block header and at least one cell.
pub open spec fn region_new_spec(addr: usize, size: usize) -> Result<
    MemoryRegion,
    PhysicalAllocatorError,
> {
    if usize::MAX - size < addr {
        Err(PhysicalAllocatorError::RegionOutOfBounds { addr })
    } else if addr == 0 {
        Err(PhysicalAllocatorError::NullRegion)
    } else {
        let pre: int = if addr % CELL_SIZE == 0 {
            0
        } else {
            CELL_SIZE - addr % CELL_SIZE
        };
        // The aligned address wraps around the address space the way a
        // pointer offset would; the wrap can only be hit on a span that is
        // rejected as too small below.
        let aligned: usize = if addr + pre > usize::MAX {
            (addr + pre - (usize::MAX + 1)) as usize
        } else {
            (addr + pre) as usize
        };
        if size < REGION_HEADER_SIZE + pre {
            Err(PhysicalAllocatorError::RegionTooSmall { addr: aligned, size })
        } else {
            let post: int = (size - REGION_HEADER_SIZE - pre) % (CELL_SIZE as int);
            let region_size: int = size - pre - post;
            if region_size < SMALLEST_REGION_SIZE {
                Err(PhysicalAllocatorError::RegionTooSmall { addr: aligned, size })
            } else {
                Ok(
                    MemoryRegion {
                        addr: aligned,
                        size: region_size as usize,
                        pre_size: pre as u32,
                        post_size: post as u32,
                        first_block: MemoryBlock {
                            cell_count: (region_size / (CELL_SIZE as int) - 2) as usize,
                            status: BlockStatus::Free,
                        },
                    },
                )
            }
        }
    }
}

/// A successfully built region is well formed and its padded span is exactly
/// the byte range `[addr, addr + size)` that was handed in.
pub proof fn lemma_region_new_wf(addr: usize, size: usize)
    requires
        region_new_spec(addr, size) is Ok,
    ensures
        region_wf(region_new_spec(addr, size)->Ok_0),
        region_start(region_new_spec(addr, size)->Ok_0) == addr,
        region_end(region_new_spec(addr, size)->Ok_0) == addr + size,
{
    let r = region_new_spec(addr, size)->Ok_0;
    let pre: int = if addr % CELL_SIZE == 0 {
        0
    } else {
        CELL_SIZE - addr % CELL_SIZE
    };
    let post: int = (size - REGION_HEADER_SIZE - pre) % (CELL_SIZE as int);
    let region_size: int = size - pre - post;
    assert((addr + pre) % (CELL_SIZE as int) == 0) by (nonlinear_arith)
        requires
            pre == if addr % CELL_SIZE == 0 { 0int } else { CELL_SIZE - addr % CELL_SIZE },
            CELL_SIZE == 32,
    ;
    assert(region_size % (CELL_SIZE as int) == 0) by (nonlinear_arith)
        requires
            post == (size - REGION_HEADER_SIZE - pre) % (CELL_SIZE as int),
            region_size == size - pre - post,
            REGION_HEADER_SIZE == 32,
            CELL_SIZE == 32,
            size >= REGION_HEADER_SIZE + pre,
    ;
    assert(r.size == (r.first_block.cell_count + 2) * CELL_SIZE) by (nonlinear_arith)
        requires
            region_size % (CELL_SIZE as int) == 0,
            region_size >= SMALLEST_REGION_SIZE,
            SMALLEST_REGION_SIZE == 96,
            CELL_SIZE == 32,
            r.size == region_size,
            r.first_block.cell_count == region_size / (CELL_SIZE as int) - 2,
    ;
    assert(r.first_block.cell_count >= 1) by (nonlinear_arith)
        requires
            region_size % (CELL_SIZE as int) == 0,
            region_size >= 96,
            r.first_block.cell_count == region_size / (CELL_SIZE as int) - 2,
    ;
}

/// The region left behind when `b` is absorbed into `a`, for spans that
/// touch (`a` ends exactly where `b` begins). The padding caught between
/// the two regions turns into whole cells of the combined free block.
pub open spec fn merged(a: MemoryRegion, b: MemoryRegion) -> MemoryRegion {
    let gap: int = a.post_size + b.pre_size;
    MemoryRegion {
        addr: a.addr,
        size: (a.size + gap + b.size) as usize,
        pre_size: a.pre_size,
        post_size: b.post_size,
        first_block: MemoryBlock {
            cell_count: (a.first_block.cell_count + b.first_block.cell_count + 2 + gap / (
            CELL_SIZE as int)) as usize,
            status: BlockStatus::Free,
        },
    }
}

/// Merging two touching well-formed regions gives one well-formed region
/// spanning both; the padding between them is zero bytes or exactly one
/// cell, never anything else.
pub proof fn lemma_merged_wf(a: MemoryRegion, b: MemoryRegion)
    requires
        region_wf(a),
        region_wf(b),
        adjacent(a, b),
    ensures
        region_wf(merged(a, b)),
        region_start(merged(a, b)) == region_start(a),
        region_end(merged(a, b)) == region_end(b),
        merged(a, b).size == a.size + a.post_size + b.pre_size + b.size,
        a.post_size + b.pre_size == 0 || a.post_size + b.pre_size == CELL_SIZE,
        merged(a, b).addr == a.addr,
{
    let gap: int = a.post_size + b.pre_size;
    lemma_region_bounds(a);
    lemma_region_bounds(b);
    assert(gap == b.addr - a.addr - a.size);
    assert((a.size as int) % (CELL_SIZE as int) == 0) by (nonlinear_arith)
        requires
            a.size == (a.first_block.cell_count + 2) * CELL_SIZE,
            CELL_SIZE == 32,
    ;
    assert(gap % (CELL_SIZE as int) == 0) by (nonlinear_arith)
        requires
            gap == b.addr - a.addr - a.size,
            a.addr % CELL_SIZE == 0,
            b.addr % CELL_SIZE == 0,
            (a.size as int) % (CELL_SIZE as int) == 0,
            CELL_SIZE == 32,
    ;
    assert(gap == 0 || gap == CELL_SIZE) by (nonlinear_arith)
        requires
            gap % (CELL_SIZE as int) == 0,
            0 <= gap < 2 * CELL_SIZE,
            CELL_SIZE == 32,
    ;
    // The combined span ends where b ends, so the new size fits in usize.
    assert(a.size + gap + b.size == region_end(b) - a.addr - b.post_size);
    let m = merged(a, b);
    assert(m.size == (m.first_block.cell_count + 2) * CELL_SIZE) by (nonlinear_arith)
        requires
            gap == 0 || gap == CELL_SIZE,
            CELL_SIZE == 32,
            m.size == a.size + gap + b.size,
            a.size == (a.first_block.cell_count + 2) * CELL_SIZE,
            b.size == (b.first_block.cell_count + 2) * CELL_SIZE,
            m.first_block.cell_count == a.first_block.cell_count + b.first_block.cell_count + 2
                + gap / (CELL_SIZE as int),
            a.first_block.cell_count >= 1,
            b.first_block.cell_count >= 1,
    ;
}

/// `i` is the position at which a region with header address `addr` belongs:
/// everything before it has a smaller address, everything at or after it a
/// greater or equal one. On a sorted list this position is unique.
pub open spec fn is_insert_index(s: Seq<MemoryRegion>, addr: int, i: int) -> bool {
    &&& 0 <= i <= s.len()
    &&& forall|k: int| 0 <= k < i ==> (#[trigger] s[k]).addr < addr
    &&& forall|k: int| i <= k < s.len() ==> addr <= (#[trigger] s[k]).addr
}

/// The position at which a region with header address `addr` belongs.
pub open spec fn insert_index(s: Seq<MemoryRegion>, addr: int) -> int
    decreases s.len(),
{
    if s.len() == 0 {
        0
    } else if s.last().addr < addr {
        s.len() as int
    } else {
        insert_index(s.drop_last(), addr)
    }
}

/// Any position satisfying `is_insert_index` is the one `insert_index` names.
pub proof fn lemma_insert_index_unique(s: Seq<MemoryRegion>, addr: int, i: int)
    requires
        is_insert_index(s, addr, i),
    ensures
        insert_index(s, addr) == i,
    decreases s.len(),
{
    if s.len() == 0 {
    } else if s.last().addr < addr {
        if i < s.len() {
            assert(addr <= s[s.len() - 1].addr);
            assert(false);
        }
    } else {
        if i == s.len() {
            assert(s[s.len() - 1].addr < addr);
            assert(false);
        }
        let t = s.drop_last();
        assert forall|k: int| 0 <= k < i implies (#[trigger] t[k]).addr < addr by {
            assert(t[k] == s[k]);
        }
        assert forall|k: int| i <= k < t.len() implies addr <= (#[trigger] t[k]).addr by {
            assert(t[k] == s[k]);
        }
        lemma_insert_index_unique(t, addr, i);
    }
}

/// On a sorted list, `insert_index` really is the insertion position.
pub proof fn lemma_insert_index_valid(s: Seq<MemoryRegion>, addr: int)
    requires
        regions_wf(s),
    ensures
        is_insert_index(s, addr, insert_index(s, addr)),
    decreases s.len(),
{
    if s.len() == 0 {
    } else if s.last().addr < addr {
        assert forall|k: int| 0 <= k < s.len() implies (#[trigger] s[k]).addr < addr by {
            if k < s.len() - 1 {
                lemma_regions_ordered(s, k, s.len() - 1);
            }
        }
    } else {
        let t = s.drop_last();
        assert forall|k: int| 0 <= k < t.len() implies region_wf(#[trigger] t[k]) by {
            assert(t[k] == s[k]);
        }
        assert forall|k: int| 0 <= k < t.len() - 1 implies region_end(#[trigger] t[k])
            < region_start(t[k + 1]) by {
            assert(t[k] == s[k]);
            assert(t[k + 1] == s[k + 1]);
        }
        lemma_insert_index_valid(t, addr);
        let i = insert_index(t, addr);
        assert forall|k: int| 0 <= k < i implies (#[trigger] s[k]).addr < addr by {
            assert(s[k] == t[k]);
        }
        assert forall|k: int| i <= k < s.len() implies addr <= (#[trigger] s[k]).addr by {
            if k < s.len() - 1 {
                assert(s[k] == t[k]);
            }
        }
    }
}

/// The region list after placing `r` at position `i`, merging with either
/// neighbour whose span touches the span of `r`.
pub open spec fn inserted(s: Seq<MemoryRegion>, r: MemoryRegion, i: int) -> Seq<MemoryRegion> {
    let left = i > 0 && adjacent(s[i - 1], r);
    let right = i < s.len() && adjacent(r, s[i]);
    if left && right {
        s.subrange(0, i - 1) + seq![merged(merged(s[i - 1], r), s[i])] + s.subrange(
            i + 1,
            s.len() as int,
        )
    } else if left {
        s.update(i - 1, merged(s[i - 1], r))
    } else if right {
        s.update(i, merged(r, s[i]))
    } else {
        s.insert(i, r)
    }
}

/// When the new region does not overlap the neighbours of its insertion
/// position, it overlaps nothing in the list at all, and it lies strictly
/// between (or touching) those neighbours.
pub proof fn lemma_no_overlap_from_neighbors(s: Seq<MemoryRegion>, r: MemoryRegion, i: int)
    requires
        regions_wf(s),
        region_wf(r),
        is_insert_index(s, r.addr as int, i),
        i > 0 ==> !overlaps(s[i - 1], r),
        i < s.len() ==> !overlaps(s[i], r),
    ensures
        forall|k: int| 0 <= k < s.len() ==> !overlaps(#[trigger] s[k], r),
        i > 0 ==> region_end(s[i - 1]) <= region_start(r),
        i < s.len() ==> region_end(r) <= region_start(s[i]),
{
    lemma_region_bounds(r);
    if i > 0 {
        lemma_region_bounds(s[i - 1]);
    }
    if i < s.len() {
        lemma_region_bounds(s[i]);
    }
    assert forall|k: int| 0 <= k < s.len() implies !overlaps(#[trigger] s[k], r) by {
        lemma_region_bounds(s[k]);
        if k < i - 1 {
            lemma_regions_ordered(s, k, i - 1);
        } else if k > i {
            lemma_regions_ordered(s, i, k);
        }
    }
}

/// Plain insertion case: the new region touches neither neighbour.
proof fn lemma_inserted_wf_plain(s: Seq<MemoryRegion>, r: MemoryRegion, i: int)
    requires
        regions_wf(s),
        region_wf(r),
        0 <= i <= s.len(),
        i > 0 ==> region_end(s[i - 1]) < region_start(r),
        i < s.len() ==> region_end(r) < region_start(s[i]),
    ensures
        regions_wf(s.insert(i, r)),
{
    s.insert_ensures(i, r);
    let t = s.insert(i, r);
    assert forall|k: int| 0 <= k < t.len() implies region_wf(#[trigger] t[k]) by {
        if k < i {
            assert(t[k] == s[k]);
        } else if k == i {
            assert(t[k] == r);
        } else {
            assert(t[k] == s[k - 1]);
        }
    }
    assert forall|k: int| 0 <= k < t.len() - 1 implies region_end(#[trigger] t[k]) < region_start(
        t[k + 1],
    ) by {
        if k == i - 1 {
            assert(t[k] == s[k]);
            assert(t[k + 1] == r);
        } else if k == i {
            assert(t[k] == r);
            assert(t[k + 1] == s[k]);
        } else if k < i - 1 {
            assert(t[k] == s[k]);
            assert(t[k + 1] == s[k + 1]);
        } else {
            assert(t[k] == s[k - 1]);
            assert(t[k + 1] == s[k]);
        }
    }
}

/// Single-merge case: a well-formed region replaces position `j` of the
/// list, its span starting where the old one started but ending strictly
/// before the next region starts.
proof fn lemma_inserted_wf_update(s: Seq<MemoryRegion>, m: MemoryRegion, j: int)
    requires
        regions_wf(s),
        region_wf(m),
        0 <= j < s.len(),
        j > 0 ==> region_end(s[j - 1]) < region_start(m),
        j < s.len() - 1 ==> region_end(m) < region_start(s[j + 1]),
    ensures
        regions_wf(s.update(j, m)),
{
    let t = s.update(j, m);
    assert forall|k: int| 0 <= k < t.len() implies region_wf(#[trigger] t[k]) by {
        if k != j {
            assert(t[k] == s[k]);
        }
    }
    assert forall|k: int| 0 <= k < t.len() - 1 implies region_end(#[trigger] t[k]) < region_start(
        t[k + 1],
    ) by {
        if k == j - 1 {
            assert(t[k] == s[k]);
            assert(t[k + 1] == m);
        } else if k == j {
            assert(t[k] == m);
            assert(t[k + 1] == s[k + 1]);
        } else {
            assert(t[k] == s[k]);
            assert(t[k + 1] == s[k + 1]);
        }
    }
}

/// Double-merge case: the new region bridges positions `i - 1` and `i`
/// exactly, and the three spans collapse into one region.
proof fn lemma_inserted_wf_bridge(s: Seq<MemoryRegion>, m: MemoryRegion, i: int)
    requires
        regions_wf(s),
        region_wf(m),
        0 < i < s.len(),
        region_start(m) == region_start(s[i - 1]),
        region_end(m) == region_end(s[i]),
    ensures
        regions_wf(s.subrange(0, i - 1) + seq![m] + s.subrange(i + 1, s.len() as int)),
{
    let t = s.subrange(0, i - 1) + seq![m] + s.subrange(i + 1, s.len() as int);
    assert(t.len() == s.len() - 1);
    assert forall|k: int| 0 <= k < t.len() implies #[trigger] t[k] == (if k < i - 1 {
        s[k]
    } else if k == i - 1 {
        m
    } else {
        s[k + 1]
    }) by {
        if k < i - 1 {
            assert(t[k] == s.subrange(0, i - 1)[k]);
        } else if k > i - 1 {
            assert(t[k] == s.subrange(i + 1, s.len() as int)[k - i]);
        }
    }
    assert forall|k: int| 0 <= k < t.len() implies region_wf(#[trigger] t[k]) by {}
    assert forall|k: int| 0 <= k < t.len() - 1 implies region_end(#[trigger] t[k]) < region_start(
        t[k + 1],
    ) by {
        if k == i - 2 {
            assert(t[k] == s[i - 2]);
            assert(t[k + 1] == m);
        } else if k == i - 1 {
            assert(t[k] == m);
            assert(t[k + 1] == s[i + 1]);
        }
    }
}

/// Inserting a non-overlapping region at its position keeps the list
/// invariant: all regions stay well formed, sorted and separated by a gap.
pub proof fn lemma_inserted_wf(s: Seq<MemoryRegion>, r: MemoryRegion, i: int)
    requires
        regions_wf(s),
        region_wf(r),
        is_insert_index(s, r.addr as int, i),
        i > 0 ==> !overlaps(s[i - 1], r),
        i < s.len() ==> !overlaps(s[i], r),
    ensures
        regions_wf(inserted(s, r, i)),
{
    lemma_no_overlap_from_neighbors(s, r, i);
    lemma_region_bounds(r);
    let left = i > 0 && adjacent(s[i - 1], r);
    let right = i < s.len() && adjacent(r, s[i]);
    if left && right {
        let m1 = merged(s[i - 1], r);
        lemma_merged_wf(s[i - 1], r);
        lemma_merged_wf(m1, s[i]);
        lemma_inserted_wf_bridge(s, merged(m1, s[i]), i);
    } else if left {
        lemma_merged_wf(s[i - 1], r);
        lemma_inserted_wf_update(s, merged(s[i - 1], r), i - 1);
    } else if right {
        lemma_merged_wf(r, s[i]);
        lemma_inserted_wf_update(s, merged(r, s[i]), i);
    } else {
        lemma_inserted_wf_plain(s, r, i);
    }
}

impl MemoryRegion {
    /// Validates a raw span and lays a region header over it.
    ///
    /// Relies on nothing but the numbers: the caller owns the span and is
    /// expected to zero the usable cells of the accepted region before use.
    pub fn new(addr: usize, size: usize) -> (result: Result<
        MemoryRegion,
        PhysicalAllocatorError,
    >)
        ensures
            result == region_new_spec(addr, size),
            result matches Ok(r) ==> region_wf(r) && region_start(r) == addr && region_end(r)
                == addr + size,
    {
        proof {
            if region_new_spec(addr, size) is Ok {
                lemma_region_new_wf(addr, size);
            }
        }
        if usize::MAX - size < addr {
            return Err(PhysicalAllocatorError::RegionOutOfBounds { addr });
        }
        if addr == 0 {
            return Err(PhysicalAllocatorError::NullRegion);
        }
        let rem: usize = addr % CELL_SIZE;
        let pre: usize = if rem == 0 {
            0
        } else {
            CELL_SIZE - rem
        };
        if size < REGION_HEADER_SIZE + pre {
            // The aligned address itself may sit past the end of the span
            // here, so it is reported with wrapping arithmetic, exactly as a
            // pointer offset would land.
            return Err(
                PhysicalAllocatorError::RegionTooSmall { addr: addr.wrapping_add(pre), size },
            );
        }
        let aligned: usize = addr + pre;
        let post: usize = (size - REGION_HEADER_SIZE - pre) % CELL_SIZE;
        let region_size: usize = size - pre - post;
        if region_size < SMALLEST_REGION_SIZE {
            return Err(PhysicalAllocatorError::RegionTooSmall { addr: aligned, size });
        }
        Ok(
            MemoryRegion {
                addr: aligned,
                size: region_size,
                pre_size: pre as u32,
                post_size: post as u32,
                first_block: MemoryBlock {
                    cell_count: region_size / CELL_SIZE - 2,
                    status: BlockStatus::Free,
                },
            },
        )
    }

    /// Unaligned bytes after this region's last whole cell.
    pub fn post_size(&self) -> (r: usize)
        ensures
            r == self.post_size as usize,
    {
        self.post_size as usize
    }

    /// Unaligned bytes skipped before this region's header.
    pub fn pre_size(&self) -> (r: usize)
        ensures
            r == self.pre_size as usize,
    {
        self.pre_size as usize
    }

    /// First address of the full span backing this region.
    pub fn region_start(&self) -> (r: usize)
        requires
            region_wf(*self),
        ensures
            r == region_start(*self),
    {
        proof {
            lemma_region_bounds(*self);
        }
        self.addr - self.pre_size as usize
    }

    /// One past the last address of the full span backing this region.
    pub fn region_end(&self) -> (r: usize)
        requires
            region_wf(*self),
        ensures
            r == region_end(*self),
    {
        self.addr + self.size + self.post_size as usize
    }

    /// True when the span of `other` begins exactly where this span ends.
    pub fn is_directly_after(&self, other: &MemoryRegion) -> (r: bool)
        requires
            region_wf(*self),
            region_wf(*other),
        ensures
            r == adjacent(*self, *other),
    {
        proof {
            lemma_region_bounds(*other);
        }
        self.addr + self.size + self.post_size as usize == other.addr - other.pre_size as usize
    }

    /// True when the spans of the two regions touch with zero gap, in
    /// either order.
    pub fn is_contiguous(&self, other: &MemoryRegion) -> (r: bool)
        requires
            region_wf(*self),
            region_wf(*other),
        ensures
            r == (adjacent(*self, *other) || adjacent(*other, *self)),
    {
        self.is_directly_after(other) || other.is_directly_after(self)
    }

    /// True when the full spans of the two regions intersect.
    pub fn is_overlapping(&self, other: &MemoryRegion) -> (r: bool)
        requires
            region_wf(*self),
            region_wf(*other),
        ensures
            r == overlaps(*self, *other),
    {
        proof {
            lemma_region_bounds(*self);
            lemma_region_bounds(*other);
        }
        let self_start: usize = self.addr - self.pre_size as usize;
        let self_end: usize = self.addr + self.size + self.post_size as usize;
        let other_start: usize = other.addr - other.pre_size as usize;
        let other_end: usize = other.addr + other.size + other.post_size as usize;
        self_start < other_end && other_start < self_end
    }

    /// Absorbs `second` into `first`. The two spans must touch, `first`
    /// ending exactly where `second` begins; the surviving header spans
    /// both, and the absorbed headers and padding become cells of the
    /// single free block.
    pub fn merge(first: MemoryRegion, second: MemoryRegion) -> (r: MemoryRegion)
        requires
            region_wf(first),
            region_wf(second),
            adjacent(first, second),
        ensures
            r == merged(first, second),
            region_wf(r),
    {
        proof {
            lemma_merged_wf(first, second);
        }
        let gap: usize = first.post_size as usize + second.pre_size as usize;
        MemoryRegion {
            addr: first.addr,
            size: first.size + gap + second.size,
            pre_size: first.pre_size,
            post_size: second.post_size,
            first_block: MemoryBlock {
                cell_count: first.first_block.cell_count + second.first_block.cell_count + 2
                    + gap / CELL_SIZE,
                status: BlockStatus::Free,
            },
        }
    }
}


/// `a` is one of the bytes backing region `r`, padding included.
pub open spec fn in_span(r: MemoryRegion, a: int) -> bool {
    region_start(r) <= a < region_end(r)
}

/// `a` is one of the bytes backing some region of the list.
pub open spec fn covers(s: Seq<MemoryRegion>, a: int) -> bool {
    exists|k: int| 0 <= k < s.len() && in_span(#[trigger] s[k], a)
}

/// Coverage law: after an insertion the list covers exactly the bytes it
/// covered before plus the span of the new region. Merging changes the
/// shape of the list, never the memory it tracks.
pub proof fn lemma_inserted_coverage(s: Seq<MemoryRegion>, r: MemoryRegion, i: int, a: int)
    requires
        regions_wf(s),
        region_wf(r),
        is_insert_index(s, r.addr as int, i),
        i > 0 ==> !overlaps(s[i - 1], r),
        i < s.len() ==> !overlaps(s[i], r),
    ensures
        covers(inserted(s, r, i), a) <==> (covers(s, a) || in_span(r, a)),
{
    let t = inserted(s, r, i);
    let left = i > 0 && adjacent(s[i - 1], r);
    let right = i < s.len() && adjacent(r, s[i]);
    if left && right {
        let m1 = merged(s[i - 1], r);
        lemma_merged_wf(s[i - 1], r);
        lemma_merged_wf(m1, s[i]);
        let m2 = merged(m1, s[i]);
        assert(t.len() == s.len() - 1);
        assert(t[i - 1] == m2) by {
            assert(t[i - 1] == (s.subrange(0, i - 1) + seq![m2] + s.subrange(
                i + 1,
                s.len() as int,
            ))[i - 1]);
        }
        assert(in_span(m2, a) <==> (in_span(s[i - 1], a) || in_span(r, a) || in_span(s[i], a)));
        if covers(t, a) {
            let k = choose|k: int| 0 <= k < t.len() && in_span(#[trigger] t[k], a);
            if k < i - 1 {
                assert(t[k] == s[k]);
                assert(in_span(s[k], a));
            } else if k == i - 1 {
                assert(in_span(s[i - 1], a) || in_span(r, a) || in_span(s[i], a));
            } else {
                assert(t[k] == s[k + 1]);
                assert(in_span(s[k + 1], a));
            }
        }
        if covers(s, a) {
            let k = choose|k: int| 0 <= k < s.len() && in_span(#[trigger] s[k], a);
            if k < i - 1 {
                assert(in_span(t[k], a));
            } else if k == i - 1 || k == i {
                assert(in_span(t[i - 1], a));
            } else {
                assert(t[k - 1] == s[k]);
                assert(in_span(t[k - 1], a));
            }
        }
        if in_span(r, a) {
            assert(in_span(t[i - 1], a));
        }
    } else if left {
        let m = merged(s[i - 1], r);
        lemma_merged_wf(s[i - 1], r);
        assert(in_span(m, a) <==> (in_span(s[i - 1], a) || in_span(r, a)));
        if covers(t, a) {
            let k = choose|k: int| 0 <= k < t.len() && in_span(#[trigger] t[k], a);
            if k != i - 1 {
                assert(t[k] == s[k]);
                assert(in_span(s[k], a));
            }
        }
        if covers(s, a) {
            let k = choose|k: int| 0 <= k < s.len() && in_span(#[trigger] s[k], a);
            if k != i - 1 {
                assert(in_span(t[k], a));
            } else {
                assert(in_span(t[i - 1], a));
            }
        }
        if in_span(r, a) {
            assert(in_span(t[i - 1], a));
        }
    } else if right {
        let m = merged(r, s[i]);
        lemma_merged_wf(r, s[i]);
        assert(in_span(m, a) <==> (in_span(r, a) || in_span(s[i], a)));
        if covers(t, a) {
            let k = choose|k: int| 0 <= k < t.len() && in_span(#[trigger] t[k], a);
            if k != i {
                assert(t[k] == s[k]);
                assert(in_span(s[k], a));
            }
        }
        if covers(s, a) {
            let k = choose|k: int| 0 <= k < s.len() && in_span(#[trigger] s[k], a);
            if k != i {
                assert(in_span(t[k], a));
            } else {
                assert(in_span(t[i], a));
            }
        }
        if in_span(r, a) {
            assert(in_span(t[i], a));
        }
    } else {
        s.insert_ensures(i, r);
        if covers(t, a) {
            let k = choose|k: int| 0 <= k < t.len() && in_span(#[trigger] t[k], a);
            if k < i {
                assert(t[k] == s[k]);
                assert(in_span(s[k], a));
            } else if k == i {
                assert(t[k] == r);
            } else {
                assert(t[k] == s[k - 1]);
                assert(in_span(s[k - 1], a));
            }
        }
        if covers(s, a) {
            let k = choose|k: int| 0 <= k < s.len() && in_span(#[trigger] s[k], a);
            if k < i {
                assert(in_span(t[k], a));
            } else {
                assert(t[k + 1] == s[k]);
                assert(in_span(t[k + 1], a));
            }
        }
        if in_span(r, a) {
            assert(in_span(t[i], a));
        }
    }
}

/// Merge completeness law: inserting a region whose span begins exactly
/// where the single existing region ends leaves exactly one region in the
/// list. Its size is the two sizes plus whatever padding was caught between
/// them, which is nothing or exactly one cell.
pub proof fn lemma_merge_completeness(r1: MemoryRegion, r2: MemoryRegion)
    requires
        region_wf(r1),
        region_wf(r2),
        adjacent(r1, r2),
    ensures
        !overlaps(r1, r2),
        insert_index(seq![r1], r2.addr as int) == 1,
        inserted(seq![r1], r2, 1) == seq![merged(r1, r2)],
        merged(r1, r2).size == r1.size + r2.size + (r1.post_size + r2.pre_size),
        r1.post_size + r2.pre_size == 0 || r1.post_size + r2.pre_size == CELL_SIZE,
        regions_wf(seq![merged(r1, r2)]),
{
    lemma_region_bounds(r1);
    lemma_region_bounds(r2);
    lemma_merged_wf(r1, r2);
    let s = seq![r1];
    assert(r1.addr < r2.addr);
    assert(is_insert_index(s, r2.addr as int, 1));
    lemma_insert_index_unique(s, r2.addr as int, 1);
    assert(inserted(s, r2, 1) == s.update(0, merged(r1, r2)));
    assert(s.update(0, merged(r1, r2)) =~= seq![merged(r1, r2)]);
}

/// The allocator that a memory map builds: each entry in turn becomes a
/// region and is placed into the sorted list, the first failure aborting
/// the whole construction with that entry's error.
pub open spec fn build_regions(map: Seq<(usize, usize)>) -> Result<
    Seq<MemoryRegion>,
    PhysicalAllocatorError,
>
    decreases map.len(),
{
    if map.len() == 0 {
        Ok(Seq::empty())
    } else {
        match build_regions(map.drop_last()) {
            Err(e) => Err(e),
            Ok(s) => match region_new_spec(map.last().0, map.last().1) {
                Err(e) => Err(e),
                Ok(r) => if exists|k: int|
                    0 <= k < s.len() && overlaps(#[trigger] s[k], r) {
                    Err(PhysicalAllocatorError::OverlappingRegion)
                } else {
                    Ok(inserted(s, r, insert_index(s, r.addr as int)))
                },
            },
        }
    }
}

/// Once a prefix of the map fails to build, the whole map fails the same way.
proof fn lemma_build_error_persists(map: Seq<(usize, usize)>, i: int)
    requires
        0 <= i <= map.len(),
        build_regions(map.subrange(0, i)) is Err,
    ensures
        build_regions(map) == build_regions(map.subrange(0, i)),
    decreases map.len() - i,
{
    if i == map.len() {
        assert(map.subrange(0, i) =~= map);
    } else {
        assert(map.subrange(0, i + 1).drop_last() =~= map.subrange(0, i));
        lemma_build_error_persists(map, i + 1);
    }
}

/// A region list that a memory map builds is well formed.
pub proof fn lemma_build_regions_wf(map: Seq<(usize, usize)>)
    requires
        build_regions(map) is Ok,
    ensures
        regions_wf(build_regions(map)->Ok_0),
    decreases map.len(),
{
    if map.len() == 0 {
    } else {
        let s = build_regions(map.drop_last())->Ok_0;
        lemma_build_regions_wf(map.drop_last());
        let entry = map.last();
        let r = region_new_spec(entry.0, entry.1)->Ok_0;
        lemma_region_new_wf(entry.0, entry.1);
        let i = insert_index(s, r.addr as int);
        lemma_insert_index_valid(s, r.addr as int);
        lemma_inserted_wf(s, r, i);
    }
}

/// Construction coverage law: an allocator built from a memory map tracks
/// exactly the bytes the map names — every address inside some accepted
/// `(addr, size)` entry and no other, however the entries were ordered
/// and merged.
pub proof fn lemma_build_regions_coverage(map: Seq<(usize, usize)>, a: int)
    requires
        build_regions(map) is Ok,
    ensures
        covers(build_regions(map)->Ok_0, a) <==> exists|k: int|
            0 <= k < map.len() && ((#[trigger] map[k]).0 <= a < map[k].0 + map[k].1),
    decreases map.len(),
{
    if map.len() == 0 {
        assert(!covers(build_regions(map)->Ok_0, a));
    } else {
        let prefix = map.drop_last();
        let s = build_regions(prefix)->Ok_0;
        lemma_build_regions_wf(prefix);
        lemma_build_regions_coverage(prefix, a);
        let entry = map.last();
        let r = region_new_spec(entry.0, entry.1)->Ok_0;
        lemma_region_new_wf(entry.0, entry.1);
        let i = insert_index(s, r.addr as int);
        lemma_insert_index_valid(s, r.addr as int);
        lemma_inserted_coverage(s, r, i, a);
        assert(in_span(r, a) <==> (entry.0 <= a < entry.0 + entry.1));
        if covers(build_regions(map)->Ok_0, a) {
            if in_span(r, a) {
                assert(map[map.len() - 1] == entry);
            } else {
                let k = choose|k: int|
                    0 <= k < prefix.len() && ((#[trigger] prefix[k]).0 <= a < prefix[k].0
                        + prefix[k].1);
                assert(map[k] == prefix[k]);
            }
        }
        if exists|k: int| 0 <= k < map.len() && ((#[trigger] map[k]).0 <= a < map[k].0 + map[k].1) {
            let k = choose|k: int|
                0 <= k < map.len() && ((#[trigger] map[k]).0 <= a < map[k].0 + map[k].1);
            if k < map.len() - 1 {
                assert(prefix[k] == map[k]);
            }
        }
    }
}

/// The address-ordered collection of memory regions that backs all
/// boot-time allocation.
///
/// The allocator has a single owner for its whole life: it is neither
/// copied nor shared, so nothing can race its bookkeeping in an
/// environment with no locks and no memory protection.
#[derive(Debug)]
pub struct PhysicalAllocator {
    regions: Vec<MemoryRegion>,
}

impl View for PhysicalAllocator {
    type V = Seq<MemoryRegion>;

    closed spec fn view(&self) -> Seq<MemoryRegion> {
        self.regions@
    }
}

impl PhysicalAllocator {
    /// The allocator's invariant: its region list is well formed.
    pub open spec fn wf(&self) -> bool {
        regions_wf(self@)
    }

    /// An allocator that tracks no regions yet.
    pub fn empty() -> (r: PhysicalAllocator)
        ensures
            r@ == Seq::<MemoryRegion>::empty(),
            r.wf(),
    {
        PhysicalAllocator { regions: Vec::new() }
    }

    /// The number of regions currently tracked.
    pub fn region_count(&self) -> (n: usize)
        ensures
            n == self@.len(),
    {
        self.regions.len()
    }

    /// The region at position `i` of the address-ordered list.
    pub fn region_at(&self, i: usize) -> (r: MemoryRegion)
        requires
            i < self@.len(),
        ensures
            r == self@[i as int],
    {
        self.regions[i]
    }

    /// Builds an allocator from a firmware memory map: each `(addr, size)`
    /// entry becomes a region, inserted in address order and merged with
    /// any span it touches. The map need not be sorted or disjoint; the
    /// first invalid or overlapping entry aborts the construction with
    /// that entry's error, and an empty map is refused outright.
    pub fn new(memory_map: &[(usize, usize)]) -> (result: Result<
        PhysicalAllocator,
        PhysicalAllocatorError,
    >)
        ensures
            match result {
                Ok(alloc) => {
                    &&& alloc.wf()
                    &&& memory_map@.len() > 0
                    &&& build_regions(memory_map@) == Ok::<
                        Seq<MemoryRegion>,
                        PhysicalAllocatorError,
                    >(alloc@)
                },
                Err(e) => {
                    if memory_map@.len() == 0 {
                        e == PhysicalAllocatorError::NoRegions
                    } else {
                        build_regions(memory_map@) == Err::<
                            Seq<MemoryRegion>,
                            PhysicalAllocatorError,
                        >(e)
                    }
                },
            },
    {
        if memory_map.len() == 0 {
            return Err(PhysicalAllocatorError::NoRegions);
        }
        let n: usize = memory_map.len();
        let mut allocator = PhysicalAllocator { regions: Vec::new() };
        let mut i: usize = 0;
        while i < n
            invariant
                n == memory_map@.len(),
                0 <= i <= n,
                allocator.wf(),
                build_regions(memory_map@.subrange(0, i as int)) == Ok::<
                    Seq<MemoryRegion>,
                    PhysicalAllocatorError,
                >(allocator@),
            decreases n - i,
        {
            let (addr, size) = memory_map[i];
            proof {
                assert(memory_map@.subrange(0, i + 1).drop_last() =~= memory_map@.subrange(
                    0,
                    i as int,
                ));
                assert(memory_map@.subrange(0, i + 1).last() == (addr, size));
            }
            let region = match MemoryRegion::new(addr, size) {
                Ok(r) => r,
                Err(e) => {
                    proof {
                        lemma_build_error_persists(memory_map@, i + 1);
                    }
                    return Err(e);
                },
            };
            match allocator.insert_region(region) {
                Ok(()) => {},
                Err(e) => {
                    proof {
                        lemma_build_error_persists(memory_map@, i + 1);
                    }
                    return Err(e);
                },
            }
            i += 1;
        }
        proof {
            assert(memory_map@.subrange(0, n as int) =~= memory_map@);
        }
        Ok(allocator)
    }

    /// Places a new region into the address-ordered list.
    ///
    /// A region whose span intersects any tracked region is refused whole:
    /// the list is left untouched. A region whose span touches a neighbour
    /// is merged into it rather than inserted, so no two tracked regions
    /// are ever contiguous; every other region is spliced in at the
    /// position that keeps the list sorted by header address.
    pub fn insert_region(&mut self, new_region: MemoryRegion) -> (result: Result<
        (),
        PhysicalAllocatorError,
    >)
        requires
            old(self).wf(),
            region_wf(new_region),
        ensures
            final(self).wf(),
            match result {
                Ok(()) => {
                    &&& forall|k: int|
                        0 <= k < old(self)@.len() ==> !overlaps(
                            #[trigger] old(self)@[k],
                            new_region,
                        )
                    &&& final(self)@ == inserted(
                        old(self)@,
                        new_region,
                        insert_index(old(self)@, new_region.addr as int),
                    )
                },
                Err(e) => {
                    &&& e == PhysicalAllocatorError::OverlappingRegion
                    &&& final(self)@ == old(self)@
                    &&& exists|k: int|
                        0 <= k < old(self)@.len() && overlaps(#[trigger] old(self)@[k], new_region)
                },
            },
    {
        let ghost s = self.regions@;
        let n: usize = self.regions.len();
        let mut idx: usize = 0;
        while idx < n && self.regions[idx].addr < new_region.addr
            invariant
                self.regions@ == s,
                n == s.len(),
                regions_wf(s),
                0 <= idx <= n,
                forall|k: int| 0 <= k < idx ==> (#[trigger] s[k]).addr < new_region.addr,
            decreases n - idx,
        {
            idx += 1;
        }
        proof {
            assert forall|k: int| idx <= k < s.len() implies new_region.addr <= (
            #[trigger] s[k]).addr by {
                if k > idx {
                    lemma_regions_ordered(s, idx as int, k);
                }
            }
            assert(is_insert_index(s, new_region.addr as int, idx as int));
            lemma_insert_index_unique(s, new_region.addr as int, idx as int);
        }
        if idx > 0 && self.regions[idx - 1].is_overlapping(&new_region) {
            return Err(PhysicalAllocatorError::OverlappingRegion);
        }
        if idx < n && self.regions[idx].is_overlapping(&new_region) {
            return Err(PhysicalAllocatorError::OverlappingRegion);
        }
        proof {
            lemma_no_overlap_from_neighbors(s, new_region, idx as int);
            lemma_inserted_wf(s, new_region, idx as int);
        }
        let left_adj = idx > 0 && self.regions[idx - 1].is_directly_after(&new_region);
        let right_adj = idx < n && new_region.is_directly_after(&self.regions[idx]);
        if left_adj && right_adj {
            let prev = self.regions[idx - 1];
            let next = self.regions[idx];
            proof {
                lemma_merged_wf(prev, new_region);
            }
            let m1 = MemoryRegion::merge(prev, new_region);
            let m2 = MemoryRegion::merge(m1, next);
            self.regions[idx - 1] = m2;
            self.regions.remove(idx);
            proof {
                assert(self.regions@ =~= inserted(s, new_region, idx as int));
            }
            Ok(())
        } else if left_adj {
            let prev = self.regions[idx - 1];
            let m = MemoryRegion::merge(prev, new_region);
            self.regions[idx - 1] = m;
            proof {
                assert(self.regions@ =~= inserted(s, new_region, idx as int));
            }
            Ok(())
        } else if right_adj {
            let next = self.regions[idx];
            let m = MemoryRegion::merge(new_region, next);
            self.regions[idx] = m;
            proof {
                assert(self.regions@ =~= inserted(s, new_region, idx as int));
            }
            Ok(())
        } else {
            self.regions.insert(idx, new_region);
            proof {
                assert(self.regions@ =~= inserted(s, new_region, idx as int));
            }
            Ok(())
        }
    }
}

} // verus!
