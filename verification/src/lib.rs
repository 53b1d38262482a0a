//! Memory-management core of a bare-metal boot loader.
//!
//! Two allocators carry the whole bootstrap story: a physical region
//! allocator that validates, orders and merges the memory spans reported by
//! firmware, and a fixed-size slab allocator that turns one contiguous
//! buffer into equally sized allocation units tracked by a bitmap.
//! Around them stand the small pieces of shared vocabulary the boot path
//! needs: allocation layouts, port-style register access, descriptor-table,
//! file-record and path parsing, and system-register decoding.

pub mod file_info;
pub mod filesystem;
pub mod gdt;
pub mod io;
pub mod layout;
pub mod physical_allocator;
pub mod slab_allocator;
pub mod system_registers;
