//! Page allocation over EFI-style memory maps.

use rustfw::devicetree::MemoryRegion;
use rustfw::memory::{
    AllocationDirection, FirmwareRanges, PageAllocator, EFI_ALLOCATE_TYPE, EFI_MEMORY_TYPE,
    EMPTY_MEMORY_DESCRIPTOR,
};
use rustfw::memory_map::{MemoryError, EFI_MEMORY_DESCRIPTOR};

const NO_FIRMWARE: FirmwareRanges = FirmwareRanges {
    code_start: 0,
    code_end: 0,
    data_start: 0,
    data_end: 0,
    heap_start: 0,
    heap_end: 0,
    stack_bottom: 0,
    stack_top: 0,
};

const DATA: EFI_MEMORY_TYPE = EFI_MEMORY_TYPE::EfiBootServicesData;

fn region(base: u64, size: u64) -> MemoryRegion {
    MemoryRegion { base, size }
}

fn built<'a>(
    memory: &[MemoryRegion],
    reserved: &[MemoryRegion],
    descriptors: &'a mut [EFI_MEMORY_DESCRIPTOR],
) -> Result<PageAllocator<'a>, MemoryError> {
    PageAllocator::from_regions(memory, reserved, &NO_FIRMWARE, descriptors)
}

/// Type, start and pages of each descriptor.
fn ranges(allocator: &PageAllocator<'_>) -> Vec<(u32, u64, u64)> {
    allocator
        .descriptors()
        .iter()
        .map(|descriptor| (descriptor.Type, descriptor.PhysicalStart, descriptor.NumberOfPages))
        .collect()
}

#[test]
fn memory_is_rounded_inward_and_reservations_outward() {
    let mut descriptors = [EMPTY_MEMORY_DESCRIPTOR(); 8];
    let allocator = built(
        &[region(0x1001, 0xffff)],
        &[region(0x4fff, 2)],
        &mut descriptors,
    )
    .unwrap();
    assert_eq!(
        ranges(&allocator),
        vec![(7, 0x2000, 2), (0, 0x4000, 2), (7, 0x6000, 11)],
    );
    assert_eq!(PageAllocator::descriptor_version(), 1);
    assert_eq!(allocator.descriptor_count(), 3);
}

#[test]
fn adjacent_memory_is_merged() {
    let mut descriptors = [EMPTY_MEMORY_DESCRIPTOR(); 8];
    let allocator = built(
        &[region(0x8000, 0x4000), region(0x1000, 0x3000), region(0x4000, 0x4000)],
        &[],
        &mut descriptors,
    )
    .unwrap();
    assert_eq!(ranges(&allocator), vec![(7, 0x1000, 11)]);
}

#[test]
fn nested_memory_is_kept() {
    let mut descriptors = [EMPTY_MEMORY_DESCRIPTOR(); 8];
    let allocator = built(
        &[region(0x8000_0000, 0x10000), region(0x8000_2000, 0x1000)],
        &[],
        &mut descriptors,
    )
    .unwrap();
    assert_eq!(
        allocator.descriptors().to_vec(),
        vec![EFI_MEMORY_DESCRIPTOR {
            Type: 7,
            PhysicalStart: 0x8000_0000,
            VirtualStart: 0,
            NumberOfPages: 16,
            Attribute: 0,
        }],
    );
}

#[test]
fn freeing_works_in_a_full_map() {
    let mut descriptors = [EMPTY_MEMORY_DESCRIPTOR(); 4];
    let mut allocator = built(&[region(0x1000, 0xf000)], &[], &mut descriptors).unwrap();
    let mut first = 0x3000;
    allocator
        .AllocatePages(EFI_ALLOCATE_TYPE::AllocateAddress, DATA, 1, &mut first)
        .unwrap();
    let before = ranges(&allocator);
    assert_eq!(before.len(), 3);
    let mut second = 0x4000;
    allocator
        .AllocatePages(EFI_ALLOCATE_TYPE::AllocateAddress, DATA, 2, &mut second)
        .unwrap();
    assert_eq!(ranges(&allocator), vec![(7, 0x1000, 2), (4, 0x3000, 3), (7, 0x6000, 10)]);
    assert_eq!(allocator.FreePages(second, 2), Ok(()));
    assert_eq!(ranges(&allocator), before);
}

#[test]
fn highest_pages_come_first() {
    let mut descriptors = [EMPTY_MEMORY_DESCRIPTOR(); 8];
    let mut allocator = built(&[region(0x1000, 0xf000)], &[], &mut descriptors).unwrap();
    let mut memory = 0;
    assert_eq!(
        allocator.AllocatePages(EFI_ALLOCATE_TYPE::AllocateAnyPages, DATA, 2, &mut memory),
        Ok(()),
    );
    assert_eq!(memory, 0xe000);
    assert_eq!(ranges(&allocator), vec![(7, 0x1000, 13), (4, 0xe000, 2)]);
    memory = 0x8fff;
    allocator
        .AllocatePages(EFI_ALLOCATE_TYPE::AllocateMaxAddress, DATA, 1, &mut memory)
        .unwrap();
    assert_eq!(memory, 0x8000);
    memory = 0x3000;
    allocator
        .AllocatePages(EFI_ALLOCATE_TYPE::AllocateAddress, DATA, 1, &mut memory)
        .unwrap();
    assert_eq!(
        ranges(&allocator),
        vec![
            (7, 0x1000, 2),
            (4, 0x3000, 1),
            (7, 0x4000, 4),
            (4, 0x8000, 1),
            (7, 0x9000, 5),
            (4, 0xe000, 2),
        ],
    );
}

#[test]
fn freeing_undoes_an_allocation() {
    let mut descriptors = [EMPTY_MEMORY_DESCRIPTOR(); 8];
    let mut allocator =
        built(&[region(0x1000, 0xf000)], &[region(0x5000, 0x1000)], &mut descriptors).unwrap();
    let before = ranges(&allocator);
    let mut memory = 0;
    allocator
        .AllocatePages(EFI_ALLOCATE_TYPE::AllocateAnyPages, DATA, 3, &mut memory)
        .unwrap();
    assert_ne!(ranges(&allocator), before);
    assert_eq!(allocator.FreePages(memory, 3), Ok(()));
    assert_eq!(ranges(&allocator), before);
}

#[test]
fn refused_requests_change_nothing() {
    let mut descriptors = [EMPTY_MEMORY_DESCRIPTOR(); 8];
    let mut allocator =
        built(&[region(0x1000, 0xf000)], &[region(0x5000, 0x1000)], &mut descriptors).unwrap();
    let before = ranges(&allocator);
    let any = EFI_ALLOCATE_TYPE::AllocateAnyPages;
    let at = EFI_ALLOCATE_TYPE::AllocateAddress;
    let mut memory = 0x5000;
    assert_eq!(
        allocator.AllocatePages(any, DATA, 0, &mut memory),
        Err(MemoryError::InvalidParameter),
    );
    assert_eq!(
        allocator.AllocatePages(any, EFI_MEMORY_TYPE::EfiMaxMemoryType, 1, &mut memory),
        Err(MemoryError::InvalidParameter),
    );
    assert_eq!(
        allocator.AllocatePages(EFI_ALLOCATE_TYPE::MaxAllocateType, DATA, 1, &mut memory),
        Err(MemoryError::InvalidParameter),
    );
    assert_eq!(
        allocator.AllocatePages(any, DATA, 64, &mut memory),
        Err(MemoryError::OutOfResources),
    );
    assert_eq!(
        allocator.AllocatePages(at, DATA, 1, &mut memory),
        Err(MemoryError::OutOfResources),
    );
    memory = 0x1234;
    assert_eq!(
        allocator.AllocatePages(at, DATA, 1, &mut memory),
        Err(MemoryError::InvalidParameter),
    );
    memory = 0x10_0000;
    assert_eq!(allocator.AllocatePages(at, DATA, 1, &mut memory), Err(MemoryError::NotFound));
    assert_eq!(
        allocator.AllocatePages(any, DATA, usize::MAX, &mut memory),
        Err(MemoryError::AddressOverflow),
    );
    assert_eq!(memory, 0x10_0000);
    assert_eq!(allocator.FreePages(0x1000, 1), Err(MemoryError::InvalidParameter));
    assert_eq!(allocator.FreePages(0x5000, 1), Err(MemoryError::InvalidParameter));
    assert_eq!(allocator.FreePages(0x1001, 1), Err(MemoryError::InvalidParameter));
    assert_eq!(allocator.FreePages(0x10_0000, 1), Err(MemoryError::NotFound));
    assert_eq!(ranges(&allocator), before);
}

#[test]
fn descriptors_run_out() {
    let mut descriptors = [EMPTY_MEMORY_DESCRIPTOR(); 2];
    let mut allocator = built(&[region(0x1000, 0xf000)], &[], &mut descriptors).unwrap();
    let mut memory = 0x5000;
    assert_eq!(
        allocator.AllocatePages(EFI_ALLOCATE_TYPE::AllocateAddress, DATA, 1, &mut memory),
        Err(MemoryError::BufferTooSmall),
    );
    assert_eq!(ranges(&allocator), vec![(7, 0x1000, 15)]);
    let mut one = [EMPTY_MEMORY_DESCRIPTOR(); 1];
    assert_eq!(
        built(&[region(0, 0x1000), region(0x2000, 0x1000)], &[], &mut one).err(),
        Some(MemoryError::BufferTooSmall),
    );
}

#[test]
fn sizes_are_rounded_to_pages() {
    let mut descriptors = [EMPTY_MEMORY_DESCRIPTOR(); 8];
    let mut allocator = built(&[region(0x1000, 0xf000)], &[], &mut descriptors).unwrap();
    assert_eq!(allocator.allocate_pages_for_size(DATA, 4097), Ok(0xe000));
    assert_eq!(allocator.allocate_pages_for_size(DATA, 0), Ok(0xd000));
    assert_eq!(
        allocator.allocate_pages_for_size(DATA, usize::MAX),
        Err(MemoryError::AddressOverflow),
    );
}

#[test]
fn aligned_pages_from_both_ends() {
    let mut descriptors = [EMPTY_MEMORY_DESCRIPTOR(); 8];
    let mut allocator = built(&[region(0x3000, 0x1_0000)], &[], &mut descriptors).unwrap();
    assert_eq!(
        allocator.allocate_aligned_pages(DATA, 1, 0x4000, AllocationDirection::Low),
        Ok(0x4000),
    );
    assert_eq!(
        allocator.allocate_aligned_pages(DATA, 2, 0x4000, AllocationDirection::High),
        Ok(0x1_0000),
    );
    assert_eq!(
        allocator.allocate_aligned_pages_for_size(DATA, 1, 0x3000, AllocationDirection::Low),
        Ok(0x3000),
    );
    assert_eq!(
        allocator.allocate_aligned_pages(DATA, 1, 0x800, AllocationDirection::Low),
        Err(MemoryError::InvalidParameter),
    );
    assert_eq!(
        allocator.allocate_aligned_pages(DATA, 0, 0x1000, AllocationDirection::Low),
        Err(MemoryError::InvalidParameter),
    );
    assert_eq!(
        allocator.allocate_aligned_pages(DATA, 1, 0x10_0000, AllocationDirection::High),
        Err(MemoryError::OutOfResources),
    );
}

#[test]
fn regions_are_reserved_later() {
    let mut descriptors = [EMPTY_MEMORY_DESCRIPTOR(); 8];
    let mut allocator = built(&[region(0x1000, 0xf000)], &[], &mut descriptors).unwrap();
    assert_eq!(allocator.reserve_region(region(0x3800, 0x1000)), Ok(()));
    assert_eq!(ranges(&allocator), vec![(7, 0x1000, 2), (0, 0x3000, 2), (7, 0x5000, 11)]);
    assert_eq!(
        allocator.reserve_region(region(u64::MAX, 2)),
        Err(MemoryError::AddressOverflow),
    );
}

#[test]
fn granted_pages_do_not_overlap() {
    let mut descriptors = [EMPTY_MEMORY_DESCRIPTOR(); 16];
    let mut allocator = built(&[region(0x1000, 0x2_0000)], &[], &mut descriptors).unwrap();
    let mut taken: Vec<(u64, u64)> = Vec::new();
    for pages in [3usize, 1, 5, 2] {
        let mut memory = 0;
        allocator
            .AllocatePages(EFI_ALLOCATE_TYPE::AllocateAnyPages, DATA, pages, &mut memory)
            .unwrap();
        let end = memory + pages as u64 * 4096;
        assert!(taken.iter().all(|(start, stop)| end <= *start || *stop <= memory));
        taken.push((memory, end));
    }
}
