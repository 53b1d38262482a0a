//! The shared vocabulary of allocation requests: a size together with an
//! alignment. Every allocator in this crate only ever hands out memory that
//! satisfies both fields of a `Layout`.

use vstd::prelude::*;

verus! {

/// True when `n` is a power of two (1, 2, 4, 8, ...).
pub open spec fn is_power_of_two(n: int) -> bool
    decreases n,
{
    if n <= 0 {
        false
    } else if n == 1 {
        true
    } else {
        n % 2 == 0 && is_power_of_two(n / 2)
    }
}

/// The size and alignment demanded of one allocation.
///
/// Two layouts are equal exactly when both fields match.
#[derive(Clone, Copy, Debug, PartialEq, Eq, Structural)]
pub struct Layout {
    pub size: usize,
    pub align: usize,
}

impl Layout {
    /// A layout is meaningful only when its alignment is a power of two.
    pub open spec fn wf(self) -> bool {
        is_power_of_two(self.align as int)
    }

    /// Builds the layout of an allocation of `size` bytes aligned to `align`.
    pub fn new(size: usize, align: usize) -> (r: Layout)
        requires
            is_power_of_two(align as int),
        ensures
            r.size == size,
            r.align == align,
            r.wf(),
    {
        Layout { size, align }
    }

    /// The size in bytes of an allocation with this layout.
    pub fn size(&self) -> (r: usize)
        ensures
            r == self.size,
    {
        self.size
    }

    /// The alignment in bytes of an allocation with this layout.
    pub fn align(&self) -> (r: usize)
        ensures
            r == self.align,
    {
        self.align
    }
}

} // verus!
