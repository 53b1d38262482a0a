//! Decoding of values read from system registers. Reading the registers
//! themselves is machine-level work that lives at the boot path's edge;
//! the decoding of what came back is plain arithmetic and lives here.

use vstd::prelude::*;

verus! {

/// The privilege level a processor core is running at.
#[derive(Clone, Copy, Debug, PartialEq, Eq, Structural)]
pub enum ExceptionLevel {
    EL0,
    EL1,
    EL2,
    EL3,
}

/// The exception level encoded in bits 3:2 of the current-level register's
/// low byte.
pub open spec fn exception_level_of(bits: u8) -> ExceptionLevel {
    let level = bits >> 2;
    if level == 0 {
        ExceptionLevel::EL0
    } else if level == 1 {
        ExceptionLevel::EL1
    } else if level == 2 {
        ExceptionLevel::EL2
    } else {
        ExceptionLevel::EL3
    }
}

/// Decodes the current exception level from the low byte of the
/// current-level register. Higher bits of the register are reserved as
/// zero, so a value with any of them set is ruled out.
pub fn current_exception_level(bits: u8) -> (r: ExceptionLevel)
    requires
        bits < 16,
    ensures
        r == exception_level_of(bits),
{
    let level: u8 = bits >> 2;
    if level == 0 {
        ExceptionLevel::EL0
    } else if level == 1 {
        ExceptionLevel::EL1
    } else if level == 2 {
        ExceptionLevel::EL2
    } else {
        ExceptionLevel::EL3
    }
}

/// The physical addressing width, in bits, named by the low nibble of the
/// memory-model feature register's low byte.
pub open spec fn physical_address_width_of(bits: u8) -> u8 {
    let range = bits & 0xf;
    if range == 0 {
        32
    } else if range == 1 {
        36
    } else if range == 2 {
        40
    } else if range == 3 {
        42
    } else if range == 4 {
        44
    } else if range == 5 {
        48
    } else {
        52
    }
}

/// Decodes the physical addressing width from the low byte of the
/// memory-model feature register. Encodings past 6 are not assigned, so
/// they are ruled out rather than decoded.
pub fn physical_address_width(bits: u8) -> (r: u8)
    requires
        bits & 0xf < 7,
    ensures
        r == physical_address_width_of(bits),
{
    let range: u8 = bits & 0xf;
    if range == 0 {
        32
    } else if range == 1 {
        36
    } else if range == 2 {
        40
    } else if range == 3 {
        42
    } else if range == 4 {
        44
    } else if range == 5 {
        48
    } else {
        52
    }
}

} // verus!
