//! The slab allocator: one contiguous buffer split into equally sized
//! allocation units ("slabs") tracked by a bitmap.
//!
//! The storage is divided in two: a prefix of whole slabs (the buffer) and
//! a suffix of occupancy bits (the bitmap), one bit for every slab-sized
//! piece of the storage, rounded up to whole bytes. A bit value of 0 means
//! the slab is free; 1 means used, or permanently unusable for the bits
//! past the true capacity of the buffer. Free slabs always hold zeroed
//! bytes: the storage is zeroed at creation and every released slab is
//! zeroed again, so no allocation can leak stale data.

use vstd::prelude::*;

use crate::layout::Layout;

verus! {

/// Why a slab allocator could not be created over the given storage.
#[derive(Clone, Copy, Debug, PartialEq, Eq, Structural)]
pub enum SlabAllocatorError {
    /// The storage's base address does not satisfy the slab alignment.
    InvalidAlignment,
    /// The storage cannot hold even two slabs.
    StorageTooSmall,
    /// The storage length is not a whole number of slabs.
    NonDivisibleSize,
}

/// An allocation request the allocator could not serve: the layout did not
/// match the slab layout, or no free slab was left.
#[derive(Clone, Copy, Debug, PartialEq, Eq, Structural)]
pub struct AllocError;

/// Bit `k` of `byte`, with bit 0 the lowest-order bit.
pub open spec fn nth_bit(byte: u8, k: u8) -> bool {
    (byte >> k) & 1 == 1
}

/// Bit `i` of the bitmap that starts at byte `off` of `s`.
pub open spec fn bitmap_bit(s: Seq<u8>, off: int, i: int) -> bool {
    nth_bit(s[off + i / 8], (i % 8) as u8)
}

/// Bytes of bitmap needed for storage of `len` bytes cut into `slab`-sized
/// pieces: one bit per piece, rounded up to whole bytes.
pub open spec fn bitmap_size_of(len: int, slab: int) -> int
    recommends
        slab >= 1,
{
    let count = len / slab;
    if count % 8 == 0 {
        count / 8
    } else {
        count / 8 + 1
    }
}

/// Bytes of storage left for whole slabs once the bitmap took its share.
pub open spec fn buffer_size_of(len: int, slab: int) -> int {
    len - bitmap_size_of(len, slab)
}

/// Number of whole slabs the buffer can hold.
pub open spec fn capacity_of(len: int, slab: int) -> int {
    buffer_size_of(len, slab) / slab
}

/// The mathematical state of a slab allocator: where its storage sits,
/// what the storage holds, and the layout of one slab.
pub struct SlabModel {
    pub base: usize,
    pub storage: Seq<u8>,
    pub slab_layout: Layout,
}

impl SlabModel {
    /// Size in bytes of one slab.
    pub open spec fn slab_size(self) -> int {
        self.slab_layout.size as int
    }

    /// Total storage length in bytes.
    pub open spec fn storage_len(self) -> int {
        self.storage.len() as int
    }

    /// Size in bytes of the occupancy bitmap at the end of the storage.
    pub open spec fn bitmap_size(self) -> int {
        bitmap_size_of(self.storage_len(), self.slab_size())
    }

    /// Size in bytes of the slab buffer at the start of the storage.
    pub open spec fn buffer_size(self) -> int {
        buffer_size_of(self.storage_len(), self.slab_size())
    }

    /// Number of usable slabs.
    pub open spec fn capacity(self) -> int {
        capacity_of(self.storage_len(), self.slab_size())
    }

    /// Occupancy bit of slab `i`: 1 marks it used or permanently unusable.
    pub open spec fn bit_set(self, i: int) -> bool {
        bitmap_bit(self.storage, self.buffer_size(), i)
    }

    /// Slab `i` exists and is free.
    pub open spec fn slab_free(self, i: int) -> bool {
        0 <= i < self.capacity() && !self.bit_set(i)
    }

    /// The indices of all currently free slabs.
    pub open spec fn free_slabs(self) -> Set<int> {
        Set::new(|i: int| self.slab_free(i))
    }

    /// Address of slab `i` inside the buffer.
    pub open spec fn slab_addr(self, i: int) -> int {
        self.base + i * self.slab_size()
    }

    /// Every byte of slab `i` is zero.
    pub open spec fn slab_zeroed(self, i: int) -> bool {
        forall|b: int|
            i * self.slab_size() <= b < (i + 1) * self.slab_size() ==> self.storage[b] == 0
    }

    /// The allocator's invariant.
    ///
    /// The storage is a whole, positive number of slabs, at least two; the
    /// base address satisfies the slab alignment and the storage fits in
    /// the address space. Every bitmap bit past the true capacity is
    /// permanently set, and every free slab holds only zero bytes.
    pub open spec fn wf(self) -> bool {
        &&& self.slab_layout.wf()
        &&& self.slab_layout.size >= 1
        &&& self.storage_len() >= 2 * self.slab_size()
        &&& self.storage_len() % self.slab_size() == 0
        &&& self.base as int % self.slab_layout.align as int == 0
        &&& self.base + self.storage_len() <= usize::MAX
        &&& forall|i: int| self.capacity() <= i < self.bitmap_size() * 8 ==> self.bit_set(i)
        &&& forall|i: int| #[trigger] self.slab_free(i) ==> self.slab_zeroed(i)
    }
}

/// The bitmap never outgrows the storage, and at least one whole slab is
/// always left in front of it.
pub proof fn lemma_slab_geometry(len: int, slab: int)
    requires
        slab >= 1,
        len >= 2 * slab,
        len % slab == 0,
    ensures
        1 <= bitmap_size_of(len, slab) < len,
        1 <= capacity_of(len, slab),
        capacity_of(len, slab) * slab <= buffer_size_of(len, slab),
        capacity_of(len, slab) <= len / slab,
        capacity_of(len, slab) * slab > buffer_size_of(len, slab) - slab,
{
    let count = len / slab;
    let bm = bitmap_size_of(len, slab);
    let cap = capacity_of(len, slab);
    assert(count >= 2) by (nonlinear_arith)
        requires
            slab >= 1,
            len >= 2 * slab,
            count == len / slab,
    ;
    assert(count <= len) by (nonlinear_arith)
        requires
            slab >= 1,
            count == len / slab,
            len >= 0,
    ;
    assert(bm <= count / 8 + 1);
    assert(count / 8 + 1 < count || count < 2 || count <= 8) by (nonlinear_arith)
        requires
            count >= 0,
    ;
    if count <= 8 {
        assert(bm == 1);
        assert(len >= 2);
    }
    assert(bm < len);
    let buf = len - bm;
    assert(cap * slab <= buf && cap * slab > buf - slab) by (nonlinear_arith)
        requires
            slab >= 1,
            buf >= 0,
            cap == buf / slab,
    ;
    assert(cap >= 1) by (nonlinear_arith)
        requires
            slab >= 1,
            buf >= slab,
            cap == buf / slab,
    ;
    assert(buf >= slab) by {
        assert(len >= 2 * slab);
        assert(bm <= count / 8 + 1);
        if count / 8 + 1 > slab {
            assert(count / 8 >= slab);
            assert(count >= 8 * slab) by (nonlinear_arith)
                requires
                    count / 8 >= slab,
                    slab >= 1,
                    count >= 0,
            ;
            assert(len >= 8 * slab * slab) by (nonlinear_arith)
                requires
                    count == len / slab,
                    count >= 8 * slab,
                    slab >= 1,
            ;
            assert(len - (count / 8 + 1) >= slab) by (nonlinear_arith)
                requires
                    len >= 8 * slab * slab,
                    count == len / slab,
                    slab >= 1,
            ;
        }
    }
    assert(cap <= count) by (nonlinear_arith)
        requires
            slab >= 1,
            cap == buf / slab,
            count == len / slab,
            buf <= len,
            buf >= 0,
    ;
}

/// A byte with all eight bits set can only be 0xff.
proof fn lemma_u8_full(b: u8)
    by (bit_vector)
    requires
        nth_bit(b, 0),
        nth_bit(b, 1),
        nth_bit(b, 2),
        nth_bit(b, 3),
        nth_bit(b, 4),
        nth_bit(b, 5),
        nth_bit(b, 6),
        nth_bit(b, 7),
    ensures
        b == 0xff,
{
}

/// Setting bit `j` of a byte raises that bit and leaves the others alone.
proof fn lemma_set_bit(b: u8, j: u8)
    by (bit_vector)
    requires
        j < 8,
    ensures
        nth_bit(b | (1u8 << j), j),
        forall|k: u8| k < 8 && k != j ==> nth_bit(b | (1u8 << j), k) == nth_bit(b, k),
{
}

/// Clearing bit `j` of a byte lowers that bit and leaves the others alone.
proof fn lemma_clear_bit(b: u8, j: u8)
    by (bit_vector)
    requires
        j < 8,
    ensures
        !nth_bit(b & !(1u8 << j), j),
        forall|k: u8| k < 8 && k != j ==> nth_bit(b & !(1u8 << j), k) == nth_bit(b, k),
{
}

/// The mask byte `0xff << m` has exactly its bits at or above `m` set.
proof fn lemma_mask_bits(m: u8)
    by (bit_vector)
    requires
        m < 8,
    ensures
        forall|k: u8| k < 8 ==> nth_bit(0xffu8 << m, k) == (k >= m),
{
}

/// The constant bytes of the bitmap: all bits clear, or all bits set.
proof fn lemma_const_bits()
    by (bit_vector)
    ensures
        forall|k: u8| k < 8 ==> !nth_bit(0u8, k),
        forall|k: u8| k < 8 ==> nth_bit(0xffu8, k),
{
}

/// An allocator of evenly sized memory chunks carved out of one owned
/// buffer, the only dynamic-allocation primitive available before a
/// general-purpose heap exists.
///
/// The allocator owns its storage outright and is mutated only through
/// its single owner: it is neither copied nor shared, so allocation state
/// cannot be raced in an environment with no locks.
#[derive(Debug)]
pub struct SlabAllocator {
    base: usize,
    storage: Vec<u8>,
    slab_layout: Layout,
}

impl View for SlabAllocator {
    type V = SlabModel;

    closed spec fn view(&self) -> SlabModel {
        SlabModel { base: self.base, storage: self.storage@, slab_layout: self.slab_layout }
    }
}

impl SlabAllocator {
    /// Initializes a slab allocator over `storage`, which sits at address
    /// `base` in the machine's memory, with every slab shaped by
    /// `slab_layout`.
    ///
    /// The storage must be a whole, positive number of slabs and hold at
    /// least two of them, and `base` must satisfy the slab alignment. All
    /// storage is zeroed; the bitmap bits past the buffer's true capacity
    /// are permanently set so they can never be handed out.
    pub fn new(base: usize, storage: Vec<u8>, slab_layout: Layout) -> (result: Result<
        SlabAllocator,
        SlabAllocatorError,
    >)
        requires
            slab_layout.wf(),
            slab_layout.size >= 1,
            base + storage@.len() <= usize::MAX,
        ensures
            result matches Ok(s) ==> {
                &&& s@.wf()
                &&& s@.base == base
                &&& s@.slab_layout == slab_layout
                &&& s@.storage.len() == storage@.len()
                &&& forall|i: int| 0 <= i < s@.capacity() ==> !s@.bit_set(i)
                &&& forall|b: int| 0 <= b < s@.buffer_size() ==> s@.storage[b] == 0
            },
            result matches Err(e) ==> {
                &&& (e == SlabAllocatorError::StorageTooSmall <==> storage@.len() < 2 * (
                slab_layout.size as int))
                &&& (e == SlabAllocatorError::NonDivisibleSize <==> storage@.len() >= 2 * (
                slab_layout.size as int) && storage@.len() as int % (slab_layout.size as int) != 0)
                &&& (e == SlabAllocatorError::InvalidAlignment <==> storage@.len() >= 2 * (
                slab_layout.size as int) && storage@.len() as int % (slab_layout.size as int) == 0
                    && base as int % (slab_layout.align as int) != 0)
            },
            result is Err <==> (storage@.len() < 2 * (slab_layout.size as int) || storage@.len() as int
                % (slab_layout.size as int) != 0 || base as int % (slab_layout.align as int) != 0),
    {
        let layout_size: usize = slab_layout.size();
        let storage_size: usize = storage.len();
        if layout_size > storage_size || storage_size - layout_size < layout_size {
            return Err(SlabAllocatorError::StorageTooSmall);
        }
        if storage_size % layout_size != 0 {
            return Err(SlabAllocatorError::NonDivisibleSize);
        }
        if base % slab_layout.align() != 0 {
            return Err(SlabAllocatorError::InvalidAlignment);
        }
        proof {
            lemma_slab_geometry(storage_size as int, layout_size as int);
        }
        let mut storage = storage;
        let mut k: usize = 0;
        while k < storage_size
            invariant
                storage@.len() == storage_size,
                0 <= k <= storage_size,
                forall|b: int| 0 <= b < k ==> storage@[b] == 0,
            decreases storage_size - k,
        {
            storage[k] = 0;
            k += 1;
        }
        let slab_count: usize = storage_size / layout_size;
        let bitmap_size: usize = if slab_count % 8 == 0 {
            slab_count / 8
        } else {
            slab_count / 8 + 1
        };
        let buffer_size: usize = storage_size - bitmap_size;
        let capacity: usize = buffer_size / layout_size;
        let mut k: usize = 0;
        while k < bitmap_size
            invariant
                slab_layout.size == layout_size,
                layout_size >= 1,
                storage@.len() == storage_size,
                bitmap_size as int == bitmap_size_of(storage_size as int, layout_size as int),
                buffer_size == storage_size - bitmap_size,
                capacity as int == capacity_of(storage_size as int, layout_size as int),
                capacity <= 8 * bitmap_size,
                0 <= k <= bitmap_size,
                forall|b: int| 0 <= b < buffer_size ==> storage@[b] == 0,
                forall|b: int| buffer_size + k <= b < storage_size ==> storage@[b] == 0,
                forall|i: int|
                    0 <= i < 8 * k ==> #[trigger] bitmap_bit(storage@, buffer_size as int, i) == (
                    i >= capacity),
            decreases bitmap_size - k,
        {
            let boundary: usize = capacity / 8;
            let v: u8 = if k < boundary {
                0
            } else if k > boundary || capacity % 8 == 0 {
                0xff
            } else {
                0xffu8 << ((capacity % 8) as u8)
            };
            proof {
                lemma_const_bits();
                if k == capacity / 8 && capacity % 8 != 0 {
                    lemma_mask_bits((capacity % 8) as u8);
                }
                assert(capacity as int == 8 * (capacity as int / 8) + capacity as int % 8);
                assert forall|j: u8| j < 8 implies nth_bit(v, j) == (8 * k + j >= capacity) by {
                    if k < capacity / 8 {
                        assert(8 * k + j < capacity);
                    } else if k > capacity / 8 || capacity % 8 == 0 {
                        assert(8 * k + j >= capacity);
                    } else {
                        assert(nth_bit(v, j) == (j >= (capacity % 8) as u8));
                    }
                }
            }
            let ghost old_storage = storage@;
            storage[buffer_size + k] = v;
            proof {
                assert forall|i: int| 0 <= i < 8 * (k + 1) implies #[trigger] bitmap_bit(
                    storage@,
                    buffer_size as int,
                    i,
                ) == (i >= capacity) by {
                    assert(i == 8 * (i / 8) + i % 8);
                    if i < 8 * k {
                        assert(i / 8 < k);
                        assert(bitmap_bit(old_storage, buffer_size as int, i) == (i >= capacity));
                        assert(storage@[buffer_size + i / 8] == old_storage[buffer_size + i / 8]);
                    } else {
                        assert(i / 8 == k);
                        assert(storage@[buffer_size + i / 8] == v);
                        let j = (i % 8) as u8;
                        assert(nth_bit(v, j) == (8 * k + j >= capacity));
                        assert(i == 8 * k + j);
                    }
                }
            }
            k += 1;
        }
        let allocator = SlabAllocator { base, storage, slab_layout };
        proof {
            let m = allocator@;
            assert(m.bitmap_size() == bitmap_size);
            assert(m.buffer_size() == buffer_size);
            assert(m.capacity() == capacity);
            assert forall|i: int| m.capacity() <= i < m.bitmap_size() * 8 implies m.bit_set(i) by {
                assert(bitmap_bit(m.storage, buffer_size as int, i) == (i >= capacity));
            }
            assert forall|i: int| 0 <= i < m.capacity() implies !m.bit_set(i) by {
                assert(bitmap_bit(m.storage, buffer_size as int, i) == (i >= capacity));
            }
            assert forall|i: int| #[trigger] m.slab_free(i) implies m.slab_zeroed(i) by {
                assert((i + 1) * m.slab_size() <= m.capacity() * m.slab_size()) by (nonlinear_arith)
                    requires
                        i + 1 <= m.capacity(),
                        m.slab_size() >= 1,
                ;
                assert forall|b: int|
                    i * m.slab_size() <= b < (i + 1) * m.slab_size() implies m.storage[b] == 0 by {
                    assert(i * m.slab_size() >= 0) by (nonlinear_arith)
                        requires
                            i >= 0,
                            m.slab_size() >= 1,
                    ;
                    assert(b < buffer_size);
                }
            }
            assert(m.wf());
        }
        Ok(allocator)
    }
}


/// The lowest-order clear bit of a byte that is not full.
fn lowest_clear_bit(byte: u8) -> (j: u8)
    requires
        byte != 0xff,
    ensures
        j < 8,
        !nth_bit(byte, j),
        forall|t: u8| t < j ==> nth_bit(byte, t),
{
    let mut j: u8 = 0;
    while j < 8
        invariant
            0 <= j <= 8,
            forall|t: u8| t < j ==> nth_bit(byte, t),
        decreases 8 - j,
    {
        if (byte >> j) & 1 == 0 {
            return j;
        }
        proof {
            assert((byte >> j) & 1 == 0 || (byte >> j) & 1 == 1) by (bit_vector);
        }
        j += 1;
    }
    proof {
        lemma_u8_full(byte);
    }
    0
}

impl SlabAllocator {
    /// Base address of the allocator's storage.
    pub fn base_addr(&self) -> (r: usize)
        ensures
            r == self@.base,
    {
        self.base
    }

    /// The layout every slab of this allocator satisfies.
    pub fn slab_layout(&self) -> (r: Layout)
        ensures
            r == self@.slab_layout,
    {
        self.slab_layout
    }

    /// Size in bytes of the occupancy bitmap, unusable trailing bits
    /// included.
    fn bitmap_size(&self) -> (r: usize)
        requires
            self@.wf(),
        ensures
            r == self@.bitmap_size(),
    {
        let slab_count: usize = self.storage.len() / self.slab_layout.size();
        if slab_count % 8 == 0 {
            slab_count / 8
        } else {
            slab_count / 8 + 1
        }
    }

    /// Size in bytes of the slab buffer in front of the bitmap.
    fn buffer_size(&self) -> (r: usize)
        requires
            self@.wf(),
        ensures
            r == self@.buffer_size(),
    {
        proof {
            lemma_slab_geometry(self@.storage_len(), self@.slab_size());
        }
        let bitmap_size: usize = self.bitmap_size();
        self.storage.len() - bitmap_size
    }

    /// The total number of slabs controlled by this allocator.
    pub fn capacity(&self) -> (r: usize)
        requires
            self@.wf(),
        ensures
            r == self@.capacity(),
    {
        let buffer_size: usize = self.buffer_size();
        buffer_size / self.slab_layout.size()
    }

    /// The byte the storage holds at machine address `addr`.
    ///
    /// Reading is allowed anywhere in the storage, so a caller can observe
    /// a slab's bytes after releasing it.
    pub fn read_byte(&self, addr: usize) -> (r: u8)
        requires
            self@.wf(),
            self@.base <= addr < self@.base + self@.storage_len(),
        ensures
            r == self@.storage[addr - self@.base],
    {
        self.storage[addr - self.base]
    }

    /// Writes one byte at machine address `addr`, which must lie inside a
    /// currently allocated slab: the bitmap and the free slabs' zeroed
    /// bytes stay untouched.
    pub fn write_byte(&mut self, addr: usize, value: u8)
        requires
            old(self)@.wf(),
            old(self)@.base <= addr,
            addr - old(self)@.base < old(self)@.capacity() * old(self)@.slab_size(),
            old(self)@.bit_set((addr - old(self)@.base) / old(self)@.slab_size()),
        ensures
            final(self)@.wf(),
            final(self)@.base == old(self)@.base,
            final(self)@.slab_layout == old(self)@.slab_layout,
            final(self)@.storage == old(self)@.storage.update(addr - old(self)@.base, value),
    {
        proof {
            lemma_slab_geometry(old(self)@.storage_len(), old(self)@.slab_size());
        }
        let off: usize = addr - self.base;
        self.storage[off] = value;
        proof {
            let m0 = old(self)@;
            let m1 = self@;
            let s = m0.slab_size();
            let written = off as int / s;
            assert(m1.bitmap_size() == m0.bitmap_size());
            assert(m1.buffer_size() == m0.buffer_size());
            assert(m1.capacity() == m0.capacity());
            assert(off < m1.buffer_size());
            assert forall|i: int| m1.capacity() <= i < m1.bitmap_size() * 8 implies m1.bit_set(
                i,
            ) by {
                assert(m1.storage[m1.buffer_size() + i / 8] == m0.storage[m0.buffer_size() + i
                    / 8]);
                assert(m0.bit_set(i));
            }
            assert forall|i: int| #[trigger] m1.slab_free(i) implies m1.slab_zeroed(i) by {
                assert(m1.bit_set(i) == m0.bit_set(i)) by {
                    assert(m1.storage[m1.buffer_size() + i / 8] == m0.storage[m0.buffer_size() + i
                        / 8]);
                }
                assert(m0.slab_free(i));
                assert(i != written) by {
                    assert(written * s <= off < (written + 1) * s) by (nonlinear_arith)
                        requires
                            s >= 1,
                            off >= 0,
                            written == off as int / s,
                    ;
                }
                assert forall|b: int| i * s <= b < (i + 1) * s implies m1.storage[b] == 0 by {
                    assert(m0.slab_zeroed(i));
                    assert((i + 1) * s <= m0.capacity() * s) by (nonlinear_arith)
                        requires
                            i + 1 <= m0.capacity(),
                            s >= 1,
                    ;
                    assert(i * s >= 0) by (nonlinear_arith)
                        requires
                            i >= 0,
                            s >= 1,
                    ;
                    assert(m0.capacity() * s <= m0.buffer_size());
                    assert(b != off) by {
                        if i < written {
                            assert((i + 1) * s <= written * s) by (nonlinear_arith)
                                requires
                                    i + 1 <= written,
                                    s >= 1,
                            ;
                            assert(written * s <= off) by (nonlinear_arith)
                                requires
                                    s >= 1,
                                    off >= 0,
                                    written == off as int / s,
                            ;
                        } else {
                            assert(written < i);
                            assert(off < (written + 1) * s) by (nonlinear_arith)
                                requires
                                    s >= 1,
                                    off >= 0,
                                    written == off as int / s,
                            ;
                            assert((written + 1) * s <= i * s) by (nonlinear_arith)
                                requires
                                    written + 1 <= i,
                                    s >= 1,
                            ;
                        }
                    }
                    assert(m1.storage[b] == m0.storage[b]);
                }
            }
        }
    }

    /// Hands out one free slab.
    ///
    /// The request must name the allocator's exact slab layout; any other
    /// layout is refused even while free slabs remain. The lowest-address
    /// free slab is chosen, its bit is raised, and its address and length
    /// are returned; the slab's bytes are zero at that moment. When every
    /// slab is taken the request fails and nothing changes.
    pub fn allocate(&mut self, layout: Layout) -> (result: Result<(usize, usize), AllocError>)
        requires
            old(self)@.wf(),
        ensures
            final(self)@.wf(),
            final(self)@.base == old(self)@.base,
            final(self)@.slab_layout == old(self)@.slab_layout,
            final(self)@.storage.len() == old(self)@.storage.len(),
            result is Err <==> (layout != old(self)@.slab_layout || forall|i: int|
                0 <= i < old(self)@.capacity() ==> old(self)@.bit_set(i)),
            result is Err ==> final(self)@ == old(self)@,
            result matches Ok(r) ==> ({
                let m0 = old(self)@;
                let m1 = final(self)@;
                exists|i: int|
                    {
                        &&& #[trigger] m0.slab_free(i)
                        &&& forall|j: int| 0 <= j < i ==> !m0.slab_free(j)
                        &&& r.0 == m0.base + i * m0.slab_size()
                        &&& r.1 == m0.slab_layout.size
                        &&& m1.bit_set(i)
                        &&& forall|j: int|
                            0 <= j < m1.bitmap_size() * 8 && j != i ==> m1.bit_set(j)
                                == m0.bit_set(j)
                        &&& forall|b: int|
                            0 <= b < m1.buffer_size() ==> m1.storage[b] == m0.storage[b]
                        &&& m0.slab_zeroed(i)
                        &&& m1.slab_zeroed(i)
                    }
            }),
    {
        if layout != self.slab_layout {
            return Err(AllocError);
        }
        proof {
            lemma_slab_geometry(self@.storage_len(), self@.slab_size());
        }
        let ghost m0 = self@;
        let layout_size: usize = self.slab_layout.size();
        let bitmap_size: usize = self.bitmap_size();
        let buffer_size: usize = self.buffer_size();
        let capacity: usize = self.capacity();
        let mut k: usize = 0;
        while k < bitmap_size
            invariant
                self@ == m0,
                m0 == old(self)@,
                m0.wf(),
                layout == m0.slab_layout,
                bitmap_size == m0.bitmap_size(),
                buffer_size == m0.buffer_size(),
                capacity == m0.capacity(),
                layout_size == m0.slab_size(),
                0 <= k <= bitmap_size,
                forall|i: int| 0 <= i < 8 * k ==> m0.bit_set(i),
            decreases bitmap_size - k,
        {
            let byte: u8 = self.storage[buffer_size + k];
            if byte < 0xff {
                let j: u8 = lowest_clear_bit(byte);
                proof {
                    lemma_slab_geometry(m0.storage_len(), m0.slab_size());
                    assert(8 * k + j == 8 * ((8 * k + j) / 8) + (8 * k + j) % 8);
                    assert(!m0.bit_set(8 * k + j));
                    if 8 * k + j >= capacity {
                        assert(m0.bit_set(8 * k + j));
                    }
                    assert(8 * k + j < capacity);
                }
                let idx: usize = 8 * k + j as usize;
                let new_byte: u8 = byte | (1u8 << j);
                proof {
                    lemma_set_bit(byte, j);
                }
                self.storage[buffer_size + k] = new_byte;
                proof {
                    assert((idx + 1) * layout_size <= capacity * layout_size) by (nonlinear_arith)
                        requires
                            idx + 1 <= capacity,
                            layout_size >= 1,
                    ;
                    assert(idx * layout_size >= 0) by (nonlinear_arith)
                        requires
                            idx >= 0,
                            layout_size >= 1,
                    ;
                    assert((idx + 1) * layout_size == idx * layout_size + layout_size)
                        by (nonlinear_arith);
                    lemma_slab_geometry(m0.storage_len(), m0.slab_size());
                    assert(capacity * layout_size <= buffer_size);
                    assert(buffer_size <= m0.storage_len());
                    assert(m0.base + m0.storage_len() <= usize::MAX);
                }
                let addr: usize = self.base + idx * layout_size;
                proof {
                    let m1 = self@;
                    lemma_slab_geometry(m0.storage_len(), m0.slab_size());
                    assert(buffer_size <= m1.storage.len());
                    assert(m1.bitmap_size() == bitmap_size);
                    assert(m1.buffer_size() == buffer_size);
                    assert(m1.capacity() == capacity);
                    // the chosen slab is the lowest free one
                    assert forall|j2: int| 0 <= j2 < idx implies !m0.slab_free(j2) by {
                        assert(j2 == 8 * (j2 / 8) + j2 % 8);
                        if j2 < 8 * k {
                            assert(m0.bit_set(j2));
                        } else {
                            assert(j2 / 8 == k);
                            assert(nth_bit(byte, (j2 % 8) as u8));
                            assert(m0.bit_set(j2));
                        }
                    }
                    // only bit idx changed
                    assert forall|j2: int|
                        0 <= j2 < m1.bitmap_size() * 8 && j2 != idx implies m1.bit_set(j2)
                        == m0.bit_set(j2) by {
                        assert(j2 == 8 * (j2 / 8) + j2 % 8);
                        if j2 / 8 == k {
                            assert(j2 % 8 != j as int);
                            assert(nth_bit(new_byte, (j2 % 8) as u8) == nth_bit(
                                byte,
                                (j2 % 8) as u8,
                            ));
                        } else {
                            assert(m1.storage[buffer_size + j2 / 8] == m0.storage[buffer_size + j2
                                / 8]);
                        }
                    }
                    assert(m1.bit_set(idx as int)) by {
                        assert(idx as int / 8 == k);
                        assert(idx as int % 8 == j as int);
                        assert(nth_bit(new_byte, j));
                    }
                    assert(m0.slab_free(idx as int));
                    assert(m0.slab_zeroed(idx as int));
                    assert(m1.slab_zeroed(idx as int)) by {
                        assert forall|b: int|
                            idx * layout_size <= b < (idx + 1) * layout_size implies m1.storage[b]
                            == 0 by {
                            assert(b < buffer_size);
                            assert(m1.storage[b] == m0.storage[b]);
                        }
                    }
                    assert forall|i: int| m1.capacity() <= i < m1.bitmap_size() * 8 implies
                        m1.bit_set(i) by {
                        assert(m0.bit_set(i));
                    }
                    assert forall|i: int| #[trigger] m1.slab_free(i) implies m1.slab_zeroed(i) by {
                        assert(m1.bit_set(i) == m0.bit_set(i));
                        assert(m0.slab_free(i));
                        assert(m0.slab_zeroed(i));
                        assert((i + 1) * layout_size <= capacity * layout_size)
                            by (nonlinear_arith)
                            requires
                                i + 1 <= capacity,
                                layout_size >= 1,
                        ;
                        assert(i * layout_size >= 0) by (nonlinear_arith)
                            requires
                                i >= 0,
                                layout_size >= 1,
                        ;
                        assert forall|b: int|
                            i * layout_size <= b < (i + 1) * layout_size implies m1.storage[b]
                            == 0 by {
                            assert(b < buffer_size);
                            assert(m1.storage[b] == m0.storage[b]);
                        }
                    }
                    assert(m1.wf());
                }
                return Ok((addr, layout_size));
            }
            proof {
                lemma_const_bits();
                assert forall|i: int| 0 <= i < 8 * (k + 1) implies m0.bit_set(i) by {
                    if i >= 8 * k {
                        assert(i == 8 * (i / 8) + i % 8);
                        assert(i / 8 == k);
                        assert(byte == 0xff);
                        assert(nth_bit(byte, (i % 8) as u8));
                    }
                }
            }
            k += 1;
        }
        proof {
            assert forall|i: int| 0 <= i < m0.capacity() implies m0.bit_set(i) by {
                assert(i == 8 * (i / 8) + i % 8);
                assert(i < 8 * bitmap_size);
            }
        }
        Err(AllocError)
    }

    /// Returns one slab to the pool.
    ///
    /// The address must be the start of one of this allocator's usable
    /// slabs and the layout must be the allocator's own: a caller breaking
    /// that has already corrupted the allocation state, so it is ruled out
    /// rather than detected. The slab's bit is cleared and its bytes are
    /// zeroed, so stale data can never leak into a later allocation.
    pub fn deallocate(&mut self, addr: usize, layout: Layout)
        requires
            old(self)@.wf(),
            layout == old(self)@.slab_layout,
            old(self)@.base <= addr,
            (addr - old(self)@.base) % old(self)@.slab_size() == 0,
            (addr - old(self)@.base) / old(self)@.slab_size() < old(self)@.capacity(),
        ensures
            final(self)@.wf(),
            final(self)@.base == old(self)@.base,
            final(self)@.slab_layout == old(self)@.slab_layout,
            final(self)@.storage.len() == old(self)@.storage.len(),
            ({
                let m0 = old(self)@;
                let m1 = final(self)@;
                let i = (addr - m0.base) / m0.slab_size();
                &&& !m1.bit_set(i)
                &&& forall|j: int|
                    0 <= j < m1.bitmap_size() * 8 && j != i ==> m1.bit_set(j) == m0.bit_set(j)
                &&& m1.slab_zeroed(i)
                &&& forall|b: int|
                    0 <= b < m1.storage.len() && !(i * m1.slab_size() <= b < (i + 1)
                        * m1.slab_size()) && b != m1.buffer_size() + i / 8 ==> m1.storage[b]
                        == m0.storage[b]
            }),
    {
        proof {
            lemma_slab_geometry(self@.storage_len(), self@.slab_size());
        }
        let ghost m0 = self@;
        let layout_size: usize = self.slab_layout.size();
        let bitmap_size: usize = self.bitmap_size();
        let buffer_size: usize = self.buffer_size();
        let capacity: usize = self.capacity();
        let offset: usize = addr - self.base;
        let idx: usize = offset / layout_size;
        let byte_idx: usize = idx / 8;
        let bit_idx: u8 = (idx % 8) as u8;
        proof {
            assert(idx < capacity);
            assert(idx as int == 8 * (idx as int / 8) + idx as int % 8);
            assert(8 * byte_idx <= idx as int);
            assert(byte_idx < bitmap_size) by {
                if byte_idx >= bitmap_size {
                    assert(idx >= 8 * bitmap_size);
                    assert(m0.bit_set(idx as int));
                    assert(idx < capacity);
                    assert(capacity <= 8 * bitmap_size);
                }
            }
            assert(capacity <= 8 * bitmap_size);
        }
        let byte: u8 = self.storage[buffer_size + byte_idx];
        let new_byte: u8 = byte & !(1u8 << bit_idx);
        proof {
            lemma_clear_bit(byte, bit_idx);
        }
        self.storage[buffer_size + byte_idx] = new_byte;
        // zero the freed slab so nothing can leak out of it
        proof {
            assert((idx + 1) * layout_size <= capacity * layout_size) by (nonlinear_arith)
                requires
                    idx + 1 <= capacity,
                    layout_size >= 1,
            ;
            assert(idx * layout_size == offset) by (nonlinear_arith)
                requires
                    layout_size >= 1,
                    offset >= 0,
                    idx == offset as int / (layout_size as int),
                    offset as int % (layout_size as int) == 0,
            ;
            assert((idx + 1) * layout_size == idx * layout_size + layout_size)
                by (nonlinear_arith);
            assert(capacity * layout_size <= buffer_size);
            assert(buffer_size <= m0.storage_len());
            assert(m0.base + m0.storage_len() <= usize::MAX);
        }
        let slab_start: usize = idx * layout_size;
        let slab_end: usize = slab_start + layout_size;
        let ghost m_mid = self@;
        let mut b: usize = slab_start;
        while b < slab_end
            invariant
                self@.storage.len() == m_mid.storage.len(),
                self@.base == m_mid.base,
                self@.slab_layout == m_mid.slab_layout,
                slab_start <= b <= slab_end,
                slab_end <= self@.storage.len(),
                forall|x: int| slab_start <= x < b ==> self@.storage[x] == 0,
                forall|x: int|
                    0 <= x < self@.storage.len() && !(slab_start <= x < b) ==> self@.storage[x]
                        == m_mid.storage[x],
            decreases slab_end - b,
        {
            self.storage[b] = 0;
            b += 1;
        }
        proof {
            let m1 = self@;
            let i = idx as int;
            assert(m1.bitmap_size() == bitmap_size);
            assert(m1.buffer_size() == buffer_size);
            assert(m1.capacity() == capacity);
            assert(slab_end <= capacity * layout_size <= buffer_size);
            assert(!m1.bit_set(i)) by {
                assert(m1.storage[buffer_size + byte_idx] == m_mid.storage[buffer_size + byte_idx]);
                assert(!nth_bit(new_byte, bit_idx));
            }
            assert forall|j: int|
                0 <= j < m1.bitmap_size() * 8 && j != i implies m1.bit_set(j) == m0.bit_set(j) by {
                assert(j == 8 * (j / 8) + j % 8);
                assert(m1.storage[buffer_size + j / 8] == m_mid.storage[buffer_size + j / 8]);
                if j / 8 == byte_idx {
                    assert(j % 8 != bit_idx as int);
                    assert(nth_bit(new_byte, (j % 8) as u8) == nth_bit(byte, (j % 8) as u8));
                } else {
                    assert(m_mid.storage[buffer_size + j / 8] == m0.storage[buffer_size + j / 8]);
                }
            }
            assert(m1.slab_zeroed(i)) by {
                assert((idx + 1) * layout_size == idx * layout_size + layout_size)
                    by (nonlinear_arith);
            }
            assert forall|b2: int|
                0 <= b2 < m1.storage.len() && !(i * m1.slab_size() <= b2 < (i + 1)
                    * m1.slab_size()) && b2 != m1.buffer_size() + i / 8 implies m1.storage[b2]
                == m0.storage[b2] by {
                assert((idx + 1) * layout_size == idx * layout_size + layout_size)
                    by (nonlinear_arith);
                assert(!(slab_start <= b2 < slab_end));
                assert(m1.storage[b2] == m_mid.storage[b2]);
                assert(m_mid.storage[b2] == m0.storage[b2]);
            }
            assert forall|j: int| m1.capacity() <= j < m1.bitmap_size() * 8 implies m1.bit_set(
                j,
            ) by {
                assert(m0.bit_set(j));
            }
            assert forall|j: int| #[trigger] m1.slab_free(j) implies m1.slab_zeroed(j) by {
                if j != i {
                    assert(m1.bit_set(j) == m0.bit_set(j));
                    assert(m0.slab_free(j));
                    assert(m0.slab_zeroed(j));
                    assert((j + 1) * layout_size <= capacity * layout_size) by (nonlinear_arith)
                        requires
                            j + 1 <= capacity,
                            layout_size >= 1,
                    ;
                    assert(j * layout_size >= 0) by (nonlinear_arith)
                        requires
                            j >= 0,
                            layout_size >= 1,
                    ;
                    assert(j * layout_size + layout_size <= slab_start || slab_end <= j
                        * layout_size) by (nonlinear_arith)
                        requires
                            j != i,
                            j >= 0,
                            i >= 0,
                            layout_size >= 1,
                            slab_start == i * layout_size,
                            slab_end == i * layout_size + layout_size,
                    ;
                    assert forall|x: int|
                        j * layout_size <= x < (j + 1) * layout_size implies m1.storage[x]
                        == 0 by {
                        assert((j + 1) * layout_size == j * layout_size + layout_size)
                            by (nonlinear_arith);
                        assert(x < buffer_size);
                        assert(!(slab_start <= x < slab_end));
                        assert(m1.storage[x] == m_mid.storage[x]);
                        assert(m_mid.storage[x] == m0.storage[x]);
                    }
                }
            }
            assert(m1.wf());
        }
    }
}


/// The free-slab set of any allocator state is finite and no larger than
/// the capacity.
pub proof fn lemma_free_slabs_finite(m: SlabModel)
    requires
        m.wf(),
    ensures
        m.free_slabs().finite(),
        m.free_slabs().len() <= m.capacity(),
{
    lemma_slab_geometry(m.storage_len(), m.slab_size());
    vstd::set_lib::lemma_int_range(0, m.capacity());
    assert(m.free_slabs().subset_of(vstd::set_lib::set_int_range(0, m.capacity())));
    vstd::set_lib::lemma_len_subset(
        m.free_slabs(),
        vstd::set_lib::set_int_range(0, m.capacity()),
    );
}

/// Slab capacity law, fresh state: an allocator whose capacity bits are
/// all clear has exactly `capacity` free slabs.
pub proof fn lemma_fresh_free_slabs(m: SlabModel)
    requires
        m.wf(),
        forall|i: int| 0 <= i < m.capacity() ==> !m.bit_set(i),
    ensures
        m.free_slabs() == vstd::set_lib::set_int_range(0, m.capacity()),
        m.free_slabs().finite(),
        m.free_slabs().len() == m.capacity(),
{
    lemma_slab_geometry(m.storage_len(), m.slab_size());
    assert(m.free_slabs() =~= vstd::set_lib::set_int_range(0, m.capacity()));
    vstd::set_lib::lemma_int_range(0, m.capacity());
}

/// Slab capacity law, one step: taking the free slab `i` removes exactly
/// it from the free set, so the set shrinks by one; together with the
/// fresh-state law and the success condition of `allocate`, exactly
/// `capacity` allocations succeed before one fails, in whatever order
/// slabs are taken and returned.
pub proof fn lemma_allocate_shrinks_free_slabs(m0: SlabModel, m1: SlabModel, i: int)
    requires
        m0.wf(),
        m1.wf(),
        m0.capacity() == m1.capacity(),
        forall|j: int| 0 <= j < m0.capacity() && j != i ==> m0.bit_set(j) == m1.bit_set(j),
        0 <= i < m0.capacity(),
        !m0.bit_set(i),
        m1.bit_set(i),
    ensures
        m1.free_slabs() == m0.free_slabs().remove(i),
        m0.free_slabs().finite(),
        m1.free_slabs().finite(),
        m1.free_slabs().len() == m0.free_slabs().len() - 1,
{
    assert(m1.free_slabs() =~= m0.free_slabs().remove(i));
    lemma_free_slabs_finite(m0);
    lemma_free_slabs_finite(m1);
    assert(m0.free_slabs().contains(i));
    assert(m0.free_slabs().remove(i).len() == m0.free_slabs().len() - 1);
}

/// Slab capacity law, the other direction: freeing the taken slab `i`
/// returns exactly it to the free set.
pub proof fn lemma_deallocate_grows_free_slabs(m0: SlabModel, m1: SlabModel, i: int)
    requires
        m0.wf(),
        m1.wf(),
        m0.capacity() == m1.capacity(),
        forall|j: int| 0 <= j < m0.capacity() && j != i ==> m0.bit_set(j) == m1.bit_set(j),
        0 <= i < m0.capacity(),
        m0.bit_set(i),
        !m1.bit_set(i),
    ensures
        m1.free_slabs() == m0.free_slabs().insert(i),
        m1.free_slabs().finite(),
        m1.free_slabs().len() == m0.free_slabs().len() + 1,
{
    assert(m1.free_slabs() =~= m0.free_slabs().insert(i));
    lemma_free_slabs_finite(m0);
    lemma_free_slabs_finite(m1);
    assert(!m0.free_slabs().contains(i));
    assert(m0.free_slabs().insert(i).len() == m0.free_slabs().len() + 1);
}

} // verus!
