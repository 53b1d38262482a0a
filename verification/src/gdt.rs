//! Parsing of the descriptor-table register image: the ten bytes a
//! processor stores when asked for its global descriptor table register.

use vstd::prelude::*;

verus! {

/// Why a raw descriptor-table register image is invalid.
#[derive(Clone, Copy, Debug, PartialEq, Eq, Structural)]
pub enum GdtrError {
    /// The base address is zero.
    InvalidPointer,
    /// The limit is not one less than a multiple of eight, so the table
    /// would not end on a whole descriptor.
    InvalidLimit,
}

/// The descriptor-table register: a 16-bit table limit followed by a
/// 64-bit base address, both little endian in the stored image.
#[derive(Clone, Copy, Debug, PartialEq, Eq, Structural)]
pub struct Gdtr {
    pub limit: u16,
    pub base: u64,
}

/// The limit held in the first two bytes of a stored register image.
pub open spec fn gdtr_limit_of(b: Seq<u8>) -> int {
    b[0] + 0x100 * b[1]
}

/// The base address held in the last eight bytes of a stored register
/// image.
pub open spec fn gdtr_base_of(b: Seq<u8>) -> int {
    b[2] + 0x100 * b[3] + 0x1_0000 * b[4] + 0x100_0000 * b[5] + 0x1_0000_0000 * b[6]
        + 0x100_0000_0000 * b[7] + 0x1_0000_0000_0000 * b[8] + 0x100_0000_0000_0000 * b[9]
}

impl Gdtr {
    /// The table's base address.
    pub fn base(&self) -> (r: u64)
        ensures
            r == self.base,
    {
        self.base
    }

    /// The table's limit: its size in bytes minus one.
    pub fn limit(&self) -> (r: u16)
        ensures
            r == self.limit,
    {
        self.limit
    }

    /// Reads the two fields out of a stored register image without
    /// validating them.
    pub fn from_array_unchecked(gdtr: [u8; 10]) -> (r: Gdtr)
        ensures
            r.limit == gdtr_limit_of(gdtr@),
            r.base == gdtr_base_of(gdtr@),
    {
        let limit: u16 = gdtr[0] as u16 + 0x100 * gdtr[1] as u16;
        let base: u64 = gdtr[2] as u64 + 0x100 * gdtr[3] as u64 + 0x1_0000 * gdtr[4] as u64
            + 0x100_0000 * gdtr[5] as u64 + 0x1_0000_0000 * gdtr[6] as u64 + 0x100_0000_0000
            * gdtr[7] as u64 + 0x1_0000_0000_0000 * gdtr[8] as u64 + 0x100_0000_0000_0000
            * gdtr[9] as u64;
        Gdtr { limit, base }
    }

    /// Parses a stored register image, refusing a table that does not end
    /// on a whole descriptor or whose base address is zero.
    pub fn try_from(gdtr: [u8; 10]) -> (result: Result<Gdtr, GdtrError>)
        ensures
            gdtr_limit_of(gdtr@) % 8 != 7 <==> result == Err::<Gdtr, GdtrError>(
                GdtrError::InvalidLimit,
            ),
            gdtr_limit_of(gdtr@) % 8 == 7 && gdtr_base_of(gdtr@) == 0 <==> result == Err::<
                Gdtr,
                GdtrError,
            >(GdtrError::InvalidPointer),
            result matches Ok(g) ==> g.limit == gdtr_limit_of(gdtr@) && g.base == gdtr_base_of(
                gdtr@,
            ),
    {
        let gdtr = Self::from_array_unchecked(gdtr);
        if gdtr.limit % 8 != 7 {
            return Err(GdtrError::InvalidLimit);
        }
        if gdtr.base == 0 {
            return Err(GdtrError::InvalidPointer);
        }
        Ok(gdtr)
    }
}

} // verus!
