use caliga_bootloader::physical_allocator::{
    MemoryRegion, PhysicalAllocator, PhysicalAllocatorError, CELL_SIZE, REGION_HEADER_SIZE,
};

/// Bytes to add to `addr` to reach the next `align`-aligned address.
fn align_offset(addr: usize, align: usize) -> usize {
    (align - addr % align) % align
}

#[test]
fn init_region() {
    // A region header should be the size of 4 pointers
    assert_eq!(REGION_HEADER_SIZE, std::mem::size_of::<usize>() * 4);
    // A cell/block header should be the size of 4 pointers
    assert_eq!(CELL_SIZE, std::mem::size_of::<usize>() * 4);

    // Lay a region over a span that is unaligned at both ends
    const REGION_SIZE: usize = 0x100;
    let region_base: usize = 0x10000;
    let start = 4;
    let from_end = 5;
    let end = REGION_SIZE - from_end;
    let start_addr = region_base + start;
    let end_addr = region_base + end;
    let region =
        MemoryRegion::new(start_addr, end - start).expect("Failed to initialize memory region");

    // Ensure the sizes match up correctly
    assert_eq!(
        region.size,
        REGION_SIZE - start - from_end - region.pre_size() - region.post_size()
    );
    assert_eq!(region.pre_size(), align_offset(start_addr, CELL_SIZE));
    assert_eq!(region.post_size(), CELL_SIZE - align_offset(end_addr, CELL_SIZE));
}

#[test]
fn insert_region() {
    const REGION_SIZE: usize = 0x100;
    let region_base: usize = 0x10000;
    let start = 4;
    let from_end = 5;
    let end = REGION_SIZE - from_end;
    let region = MemoryRegion::new(region_base + start, end - start)
        .expect("Failed to initialize memory region");

    let mut allocator = PhysicalAllocator::empty();
    allocator
        .insert_region(region)
        .expect("Failed to insert new region");

    allocator
        .insert_region(region)
        .expect_err("Should have failed to insert overlapping region");
}

#[test]
fn simple_memory_map() {
    let memory_map = [
        (0x10000usize, 0x100usize),
        (0x20000, 0x1000),
        (0x30000, 0x100),
    ];

    let allocator =
        PhysicalAllocator::new(&memory_map[..]).expect("Failed to initialize allocator");

    assert_eq!(allocator.region_count(), memory_map.len());
    for i in 0..memory_map.len() {
        let (addr, _size) = memory_map[i];
        assert_eq!(allocator.region_at(i).addr, addr);
    }
}

#[test]
fn null_region_rejected() {
    // A memory-map entry at address zero fails the whole construction
    let err = PhysicalAllocator::new(&[(0, 0x100)]).expect_err("Should have failed to build");
    assert_eq!(err, PhysicalAllocatorError::NullRegion);
}

#[test]
fn empty_memory_map_rejected() {
    let err = PhysicalAllocator::new(&[]).expect_err("Should have failed to build");
    assert_eq!(err, PhysicalAllocatorError::NoRegions);
}

#[test]
fn gap_keeps_regions_apart() {
    // Two spans with a gap between them stay two regions, in address order
    let a: usize = 0x10000;
    let b: usize = 0x20000;
    let allocator =
        PhysicalAllocator::new(&[(a, 0x100), (b, 0x1000)]).expect("Failed to initialize allocator");
    assert_eq!(allocator.region_count(), 2);
    assert_eq!(allocator.region_at(0).addr, a);
    assert_eq!(allocator.region_at(0).size, 0x100);
    assert_eq!(allocator.region_at(1).addr, b);
    assert_eq!(allocator.region_at(1).size, 0x1000);

    // The same map in the other order gives the same allocator
    let reversed =
        PhysicalAllocator::new(&[(b, 0x1000), (a, 0x100)]).expect("Failed to initialize allocator");
    assert_eq!(reversed.region_count(), 2);
    assert_eq!(reversed.region_at(0).addr, a);
    assert_eq!(reversed.region_at(1).addr, b);
}

#[test]
fn adjacent_regions_merge() {
    // Two spans that touch exactly become one region spanning both
    let a: usize = 0x10000;
    let b: usize = a + 0x100;
    let allocator =
        PhysicalAllocator::new(&[(a, 0x100), (b, 0x1000)]).expect("Failed to initialize allocator");
    assert_eq!(allocator.region_count(), 1);
    let merged = allocator.region_at(0);
    assert_eq!(merged.addr, a);
    assert_eq!(merged.size, 0x1100);
    assert_eq!(merged.pre_size(), 0);
    assert_eq!(merged.post_size(), 0);

    // Merging happens in whatever order the spans arrive
    let reversed =
        PhysicalAllocator::new(&[(b, 0x1000), (a, 0x100)]).expect("Failed to initialize allocator");
    assert_eq!(reversed.region_count(), 1);
    assert_eq!(reversed.region_at(0).addr, a);
    assert_eq!(reversed.region_at(0).size, 0x1100);
}

#[test]
fn bridging_region_merges_both_sides() {
    // A span that exactly fills the gap between two regions collapses all
    // three into one
    let a: usize = 0x10000;
    let b: usize = a + 0x100;
    let c: usize = b + 0x100;
    let allocator = PhysicalAllocator::new(&[(a, 0x100), (c, 0x100), (b, 0x100)])
        .expect("Failed to initialize allocator");
    assert_eq!(allocator.region_count(), 1);
    assert_eq!(allocator.region_at(0).addr, a);
    assert_eq!(allocator.region_at(0).size, 0x300);
}

#[test]
fn overlapping_region_rejected() {
    // Inserting a span that intersects a tracked region fails and leaves
    // the allocator unchanged
    let mut allocator =
        PhysicalAllocator::new(&[(0x10000, 0x1000)]).expect("Failed to initialize allocator");
    let overlapping =
        MemoryRegion::new(0x10800, 0x1000).expect("Failed to initialize memory region");
    let err = allocator
        .insert_region(overlapping)
        .expect_err("Should have failed to insert overlapping region");
    assert_eq!(err, PhysicalAllocatorError::OverlappingRegion);
    assert_eq!(allocator.region_count(), 1);
    assert_eq!(allocator.region_at(0).addr, 0x10000);
    assert_eq!(allocator.region_at(0).size, 0x1000);
}

#[test]
fn regions_stay_sorted_and_disjoint() {
    // However the memory map is scrambled, the final list is strictly
    // increasing in address and the padded spans never intersect
    let memory_map = [
        (0x40000usize, 0x200usize),
        (0x10007, 0x150),
        (0x30010, 0x400),
        (0x20003, 0x101),
    ];
    let allocator =
        PhysicalAllocator::new(&memory_map[..]).expect("Failed to initialize allocator");
    assert_eq!(allocator.region_count(), 4);
    for i in 0..allocator.region_count() - 1 {
        let here = allocator.region_at(i);
        let next = allocator.region_at(i + 1);
        assert!(here.addr < next.addr);
        assert!(here.region_end() < next.region_start());
    }
}

#[test]
fn too_small_region_rejected() {
    let err = PhysicalAllocator::new(&[(0x10000, 0x40)]).expect_err("Should have failed to build");
    assert_eq!(
        err,
        PhysicalAllocatorError::RegionTooSmall { addr: 0x10000, size: 0x40 }
    );
}

#[test]
fn out_of_bounds_region_rejected() {
    let err =
        PhysicalAllocator::new(&[(usize::MAX - 0x10, 0x100)]).expect_err("Should have failed");
    assert_eq!(
        err,
        PhysicalAllocatorError::RegionOutOfBounds { addr: usize::MAX - 0x10 }
    );
}
