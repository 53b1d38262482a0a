use std::collections::VecDeque;

use caliga_bootloader::layout::Layout;
use caliga_bootloader::slab_allocator::{SlabAllocator, SlabAllocatorError};

/// Initialize a slab allocator over a zeroed buffer of `size` bytes that
/// notionally sits at address `base`.
fn init_slab_alloc(base: usize, size: usize, layout: Layout) -> SlabAllocator {
    let storage: Vec<u8> = vec![0; size];
    SlabAllocator::new(base, storage, layout).expect("Failed to create allocator")
}

fn write_le(alloc: &mut SlabAllocator, addr: usize, bytes: &[u8]) {
    for (i, b) in bytes.iter().enumerate() {
        alloc.write_byte(addr + i, *b);
    }
}

fn read_le(alloc: &SlabAllocator, addr: usize, len: usize) -> Vec<u8> {
    let mut out: Vec<u8> = vec![];
    for i in 0..len {
        out.push(alloc.read_byte(addr + i));
    }
    out
}

fn smallest_allocation_assert(data: u8, slab_allocator: &mut SlabAllocator, layout: Layout) {
    let (addr, len) = slab_allocator.allocate(layout).expect("Failed to allocate");
    assert_eq!(len, 1);
    slab_allocator.write_byte(addr, data);
    assert_eq!(slab_allocator.read_byte(addr), data);

    slab_allocator
        .allocate(layout)
        .expect_err("Should have failed to allocate");

    slab_allocator.deallocate(addr, layout);
}

#[test]
fn smallest_allocation() {
    let layout = Layout::new(1, 1);
    let mut slab_allocator = init_slab_alloc(0x1000, 2, layout);
    assert_eq!(slab_allocator.capacity(), 1);

    // A single allocation should be available
    const DATA: u8 = 0xda;
    smallest_allocation_assert(DATA, &mut slab_allocator, layout);

    // Since the previous allocation was freed, a new one
    // should be available
    smallest_allocation_assert(DATA, &mut slab_allocator, layout);
}

fn sequential_alloc_assert(slab_allocator: &mut SlabAllocator, layout: Layout) {
    // Save allocations in a list so they are all deallocated at once
    let mut saved_allocations: Vec<usize> = vec![];
    let capacity = slab_allocator.capacity();

    // Fill allocator
    for i in 0..capacity {
        let (addr, _) = slab_allocator.allocate(layout).expect("Failed to allocate");
        write_le(slab_allocator, addr, &(i as u16).to_le_bytes());
        saved_allocations.push(addr);
    }

    // Ensure allocations are set correctly
    for i in 0..capacity {
        let bytes = read_le(slab_allocator, saved_allocations[i], 2);
        assert_eq!(i as u16, u16::from_le_bytes([bytes[0], bytes[1]]));
    }

    // This allocation is expected to fail because there should be no more room
    slab_allocator
        .allocate(layout)
        .expect_err("Should have failed to allocate");

    for addr in saved_allocations {
        slab_allocator.deallocate(addr, layout);
    }
}

#[test]
fn sequential_allocations() {
    const SLAB_COUNT: usize = 100;
    let layout = Layout::new(2, 2);
    let mut slab_allocator = init_slab_alloc(0x1000, SLAB_COUNT * 2, layout);
    // 200 bytes cut into 2-byte slabs: 100 slab-sized pieces need 13 bitmap
    // bytes, and the 187 remaining bytes hold 93 whole slabs
    assert_eq!(slab_allocator.capacity(), 93);

    // This is called twice to see if further allocations are successful after being freed
    sequential_alloc_assert(&mut slab_allocator, layout);
    sequential_alloc_assert(&mut slab_allocator, layout);
}

fn complex_alloc_assert(slab_allocator: &mut SlabAllocator, layout: Layout, slab_count: usize) {
    // Save allocations in a deque so they are all deallocated at once
    let mut saved_allocations: VecDeque<usize> = VecDeque::new();

    // Make all allocations
    for i in 0..slab_count {
        let (addr, _) = slab_allocator.allocate(layout).expect("Failed to allocate");
        write_le(slab_allocator, addr, &(i as u32).to_le_bytes());
        saved_allocations.push_back(addr);
    }

    // Ensure allocations are set correctly
    for i in 0..slab_count {
        let bytes = read_le(slab_allocator, saved_allocations[i], 4);
        assert_eq!(
            i as u32,
            u32::from_le_bytes([bytes[0], bytes[1], bytes[2], bytes[3]])
        );
    }

    // Free even-indexed slabs
    for i in (0..slab_count).step_by(2).rev() {
        let addr = saved_allocations.remove(i).unwrap();
        slab_allocator.deallocate(addr, layout);
    }

    // Re-allocate
    for i in 0..slab_count / 2 + 1 {
        let (addr, _) = slab_allocator.allocate(layout).expect("Failed to allocate");
        write_le(slab_allocator, addr, &(i as u32).to_le_bytes());
        saved_allocations.push_back(addr);
    }

    // Allocator should be full
    slab_allocator
        .allocate(layout)
        .expect_err("Should have failed to allocate");

    // Free odd-indexed slabs
    for i in (1..slab_count).step_by(2).rev() {
        let addr = saved_allocations.remove(i).unwrap();
        slab_allocator.deallocate(addr, layout);
    }

    // Re-allocate
    for i in 0..slab_count / 2 {
        let (addr, _) = slab_allocator.allocate(layout).expect("Failed to allocate");
        write_le(slab_allocator, addr, &(i as u32).to_le_bytes());
        saved_allocations.push_back(addr);
    }

    // Allocator should be full
    slab_allocator
        .allocate(layout)
        .expect_err("Should have failed to allocate");

    // Free first half
    for _ in 0..slab_count / 2 {
        let addr = saved_allocations.pop_front().unwrap();
        slab_allocator.deallocate(addr, layout);
    }

    // Free other half
    for _ in 0..saved_allocations.len() {
        let addr = saved_allocations.pop_front().unwrap();
        slab_allocator.deallocate(addr, layout);
    }
}

#[test]
fn complex_allocations() {
    const SLAB_COUNT: usize = 7;
    let layout = Layout::new(4, 4);
    let mut slab_allocator = init_slab_alloc(0x1000, (SLAB_COUNT + 1) * 4, layout);
    assert_eq!(slab_allocator.capacity(), SLAB_COUNT);

    // This is called twice to see if further allocations are successful after being freed
    complex_alloc_assert(&mut slab_allocator, layout, SLAB_COUNT);
    complex_alloc_assert(&mut slab_allocator, layout, SLAB_COUNT);
}

#[test]
fn manual_allocation() {
    let layout = Layout::new(8, 8);
    let mut slab_allocator = init_slab_alloc(0x1000, 8 * 8, layout);

    // Manual allocation
    let (addr, len) = slab_allocator.allocate(layout).expect("Failed to allocate");
    assert_eq!(len, 8);

    // Ensure it's initialized as 0
    const ZERO: u64 = 0;
    let bytes = read_le(&slab_allocator, addr, 8);
    assert_eq!(u64::from_le_bytes(bytes.try_into().unwrap()), ZERO);

    // Ensure it gets set correctly
    const DATA: u64 = 0xdeadbeef;
    write_le(&mut slab_allocator, addr, &DATA.to_le_bytes());
    let bytes = read_le(&slab_allocator, addr, 8);
    assert_eq!(u64::from_le_bytes(bytes.try_into().unwrap()), DATA);

    // Manual deallocation
    slab_allocator.deallocate(addr, layout);

    // Ensure it is set to 0 when deallocated
    let bytes = read_le(&slab_allocator, addr, 8);
    assert_eq!(u64::from_le_bytes(bytes.try_into().unwrap()), 0);
}

#[test]
fn invalid_layouts() {
    const NUM_SLABS: usize = 8;
    let layout = Layout::new(8, 8);

    // Using a size that is not divisible by the slab size should cause an error
    let size = NUM_SLABS * 8 + 1;
    let storage: Vec<u8> = vec![0; size];
    let alloc_err = SlabAllocator::new(0x1000, storage, layout)
        .expect_err("Should have failed to create allocator");
    assert_eq!(alloc_err, SlabAllocatorError::NonDivisibleSize);

    // Using a size that is too small should cause an error
    let size = 1;
    let storage: Vec<u8> = vec![0; size];
    let alloc_err = SlabAllocator::new(0x1000, storage, layout)
        .expect_err("Should have failed to create allocator");
    assert_eq!(alloc_err, SlabAllocatorError::StorageTooSmall);

    // Using an invalid alignment should cause an error
    let size = NUM_SLABS * 8;
    let storage: Vec<u8> = vec![0; size];
    let alloc_err = SlabAllocator::new(0x1001, storage, layout)
        .expect_err("Should have failed to create allocator");
    assert_eq!(alloc_err, SlabAllocatorError::InvalidAlignment);
}

#[test]
fn invalid_allocation() {
    const SLAB_COUNT: usize = 8;
    let layout = Layout::new(1, 1);
    let mut slab_allocator = init_slab_alloc(0x1000, SLAB_COUNT, layout);

    // Using a layout that doesn't match the slab allocator should cause an
    // error, such as allocating a 4-byte, 4-aligned value with a 1-byte
    // allocator
    let wrong_layout = Layout::new(4, 4);
    slab_allocator
        .allocate(wrong_layout)
        .expect_err("Should have failed to allocate");
}

#[test]
fn first_fit_order() {
    // Slabs are handed out lowest address first, and a freed slab is the
    // next one reused when it is the lowest free one
    let layout = Layout::new(4, 4);
    let mut slab_allocator = init_slab_alloc(0x2000, 16, layout);
    assert_eq!(slab_allocator.capacity(), 3);

    let (a0, _) = slab_allocator.allocate(layout).expect("Failed to allocate");
    let (a1, _) = slab_allocator.allocate(layout).expect("Failed to allocate");
    let (a2, _) = slab_allocator.allocate(layout).expect("Failed to allocate");
    assert_eq!(a0, 0x2000);
    assert_eq!(a1, 0x2004);
    assert_eq!(a2, 0x2008);

    slab_allocator.deallocate(a1, layout);
    let (again, _) = slab_allocator.allocate(layout).expect("Failed to allocate");
    assert_eq!(again, a1);
}

#[test]
fn zero_after_deallocate() {
    // Whatever was written into a slab, releasing it zeroes every byte
    let layout = Layout::new(4, 4);
    let mut slab_allocator = init_slab_alloc(0x3000, 16, layout);
    let (addr, _) = slab_allocator.allocate(layout).expect("Failed to allocate");
    write_le(&mut slab_allocator, addr, &[0xff, 0x11, 0x22, 0x33]);
    slab_allocator.deallocate(addr, layout);
    assert_eq!(read_le(&slab_allocator, addr, 4), vec![0, 0, 0, 0]);
}
