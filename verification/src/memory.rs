//! EFI-style page-based memory map management.
//!
//! A 4 KiB page map is built from RAM and reservation ranges. All RAM is first
//! represented as EFI conventional memory and then carved by reserved regions.

use vstd::prelude::*;
use crate::bytes::be32;
use crate::devicetree::{filled, fitting, MemoryRegion};
use crate::dtb_memory::{
    all_mappable, all_reserved, classified_regions, memory_regions as tree_memory_regions,
    reserve_original_fdt, reserved_ranges_are_classified, tree_memory,
};
use crate::dtb_read::{fdt_fault, reserve_map_of, strings_of, structure_of, Fdt};
use crate::memory_map::{
    alignment_overflows, all_sound, allocated, best_place, best_place_is_best, carved, carved_from,
    coalesced, coalesced_from, coalescing_keeps_kinds, coalescing_one_kind, covering_covers,
    covering_from, end_of, inserted, map_sound, mergeable, merged, merging_keeps_order,
    multiple_above, multiple_below, parts_of, place_behind, place_behind_is_bound, place_found,
    place_in, range_of, region_carved, region_pages, regions_carved, regions_inserted, released,
    replaced, replaced_changes_range, sorted_by_start, sorted_insert, sorted_insert_keeps_order,
    sound, sound_map_is_sorted, span_carved, within, Carving, Placement, CONVENTIONAL,
};
pub use crate::memory_map::{EFI_MEMORY_DESCRIPTOR, MemoryError};

verus! {

/// Number of address bits covered by one EFI page.
pub const EFI_PAGE_SHIFT: usize = 12;

/// Size in bytes of one EFI page.
pub const EFI_PAGE_SIZE: u64 = 4096;

/// EFI memory descriptor version emitted by this module.
pub const EFI_MEMORY_DESCRIPTOR_VERSION: u32 = 1;

/// EFI `UINT32` equivalent.
pub type UINT32 = u32;

/// EFI `UINT64` equivalent.
pub type UINT64 = u64;

/// EFI `UINTN` equivalent on this target.
pub type UINTN = usize;

/// EFI physical address type.
#[allow(non_camel_case_types)]
pub type EFI_PHYSICAL_ADDRESS = u64;

/// EFI virtual address type.
#[allow(non_camel_case_types)]
pub type EFI_VIRTUAL_ADDRESS = u64;

/// EFI memory types used in memory descriptors and page allocation requests.
#[allow(non_camel_case_types)]
#[derive(Clone, Copy, Debug, PartialEq, Eq, Structural)]
pub enum EFI_MEMORY_TYPE {
    /// Reserved memory that must not be allocated.
    EfiReservedMemoryType,
    /// Loader code pages.
    EfiLoaderCode,
    /// Loader data pages.
    EfiLoaderData,
    /// Boot-services code pages.
    EfiBootServicesCode,
    /// Boot-services data pages.
    EfiBootServicesData,
    /// Runtime-services code pages.
    EfiRuntimeServicesCode,
    /// Runtime-services data pages.
    EfiRuntimeServicesData,
    /// Unallocated conventional RAM.
    EfiConventionalMemory,
    /// Faulty or otherwise unusable memory.
    EfiUnusableMemory,
    /// ACPI reclaimable memory.
    EfiACPIReclaimMemory,
    /// ACPI non-volatile storage memory.
    EfiACPIMemoryNVS,
    /// Memory-mapped I/O space.
    EfiMemoryMappedIO,
    /// Memory-mapped I/O port space.
    EfiMemoryMappedIOPortSpace,
    /// Processor abstraction layer code.
    EfiPalCode,
    /// Persistent memory.
    EfiPersistentMemory,
    /// Unaccepted memory that requires explicit acceptance.
    EfiUnacceptedMemoryType,
    /// Sentinel value that is not a usable descriptor type.
    EfiMaxMemoryType,
}

impl EFI_MEMORY_TYPE {
    /// Number of a memory type in descriptors.
    pub open spec fn code(self) -> u32 {
        match self {
            EFI_MEMORY_TYPE::EfiReservedMemoryType => 0,
            EFI_MEMORY_TYPE::EfiLoaderCode => 1,
            EFI_MEMORY_TYPE::EfiLoaderData => 2,
            EFI_MEMORY_TYPE::EfiBootServicesCode => 3,
            EFI_MEMORY_TYPE::EfiBootServicesData => 4,
            EFI_MEMORY_TYPE::EfiRuntimeServicesCode => 5,
            EFI_MEMORY_TYPE::EfiRuntimeServicesData => 6,
            EFI_MEMORY_TYPE::EfiConventionalMemory => 7,
            EFI_MEMORY_TYPE::EfiUnusableMemory => 8,
            EFI_MEMORY_TYPE::EfiACPIReclaimMemory => 9,
            EFI_MEMORY_TYPE::EfiACPIMemoryNVS => 10,
            EFI_MEMORY_TYPE::EfiMemoryMappedIO => 11,
            EFI_MEMORY_TYPE::EfiMemoryMappedIOPortSpace => 12,
            EFI_MEMORY_TYPE::EfiPalCode => 13,
            EFI_MEMORY_TYPE::EfiPersistentMemory => 14,
            EFI_MEMORY_TYPE::EfiUnacceptedMemoryType => 15,
            EFI_MEMORY_TYPE::EfiMaxMemoryType => 16,
        }
    }

    /// Returns the number of a memory type in descriptors.
    pub fn number(self) -> (number: u32)
        ensures
            number == self.code(),
    {
        match self {
            EFI_MEMORY_TYPE::EfiReservedMemoryType => 0,
            EFI_MEMORY_TYPE::EfiLoaderCode => 1,
            EFI_MEMORY_TYPE::EfiLoaderData => 2,
            EFI_MEMORY_TYPE::EfiBootServicesCode => 3,
            EFI_MEMORY_TYPE::EfiBootServicesData => 4,
            EFI_MEMORY_TYPE::EfiRuntimeServicesCode => 5,
            EFI_MEMORY_TYPE::EfiRuntimeServicesData => 6,
            EFI_MEMORY_TYPE::EfiConventionalMemory => 7,
            EFI_MEMORY_TYPE::EfiUnusableMemory => 8,
            EFI_MEMORY_TYPE::EfiACPIReclaimMemory => 9,
            EFI_MEMORY_TYPE::EfiACPIMemoryNVS => 10,
            EFI_MEMORY_TYPE::EfiMemoryMappedIO => 11,
            EFI_MEMORY_TYPE::EfiMemoryMappedIOPortSpace => 12,
            EFI_MEMORY_TYPE::EfiPalCode => 13,
            EFI_MEMORY_TYPE::EfiPersistentMemory => 14,
            EFI_MEMORY_TYPE::EfiUnacceptedMemoryType => 15,
            EFI_MEMORY_TYPE::EfiMaxMemoryType => 16,
        }
    }
}

/// EFI page allocation policies.
#[allow(non_camel_case_types)]
#[derive(Clone, Copy, Debug, PartialEq, Eq, Structural)]
pub enum EFI_ALLOCATE_TYPE {
    /// Allocate any suitable pages.
    AllocateAnyPages,
    /// Allocate pages below or at a maximum address.
    AllocateMaxAddress,
    /// Allocate pages at the exact address supplied.
    AllocateAddress,
    /// Sentinel value that is not a usable policy.
    MaxAllocateType,
}

/// Search direction for aligned page allocations.
#[derive(Clone, Copy, Debug, PartialEq, Eq, Structural)]
pub enum AllocationDirection {
    /// Choose the lowest suitable aligned address.
    Low,
    /// Choose the highest suitable aligned address.
    High,
}

/// Empty descriptor value used for temporary EFI memory-map arrays.
#[allow(non_snake_case)]
pub fn EMPTY_MEMORY_DESCRIPTOR() -> (descriptor: EFI_MEMORY_DESCRIPTOR)
    ensures
        descriptor == (EFI_MEMORY_DESCRIPTOR {
            Type: 0,
            PhysicalStart: 0,
            VirtualStart: 0,
            NumberOfPages: 0,
            Attribute: 0,
        }),
{
    EFI_MEMORY_DESCRIPTOR {
        Type: 0,
        PhysicalStart: 0,
        VirtualStart: 0,
        NumberOfPages: 0,
        Attribute: 0,
    }
}

/// Address ranges that the firmware itself takes.
#[derive(Clone, Copy, Debug, PartialEq, Eq, Structural)]
pub struct FirmwareRanges {
    /// Start of the text and rodata range.
    pub code_start: u64,
    /// End of the text and rodata range.
    pub code_end: u64,
    /// Start of the writable data range.
    pub data_start: u64,
    /// End of the writable data range.
    pub data_end: u64,
    /// Start of the heap range.
    pub heap_start: u64,
    /// End of the heap range.
    pub heap_end: u64,
    /// Bottom of the stack range.
    pub stack_bottom: u64,
    /// Top of the stack range.
    pub stack_top: u64,
}

/// A map from which the firmware's own ranges are carved.
pub open spec fn firmware_carved(carving: Carving, firmware: FirmwareRanges, capacity: nat) -> Carving {
    let code = span_carved(carving, firmware.code_start, firmware.code_end, 3, capacity);
    let data = span_carved(code, firmware.data_start, firmware.data_end, 4, capacity);
    let heap = span_carved(data, firmware.heap_start, firmware.heap_end, 4, capacity);
    span_carved(heap, firmware.stack_bottom, firmware.stack_top, 4, capacity)
}

/// The map of memory regions, merged, before anything is carved from it.
pub open spec fn memory_laid_out(memory_regions: Seq<MemoryRegion>, capacity: nat) -> Carving {
    let laid = regions_inserted(memory_regions, capacity);
    if laid.outcome is Err {
        laid
    } else {
        Carving { map: coalesced(laid.map), ..laid }
    }
}

/// The map of memory regions with reserved regions and the firmware's own ranges
/// carved from it, or why it cannot be built.
pub open spec fn map_of_regions(
    memory_regions: Seq<MemoryRegion>,
    reserved_regions: Seq<MemoryRegion>,
    firmware: FirmwareRanges,
    capacity: nat,
) -> Result<Seq<EFI_MEMORY_DESCRIPTOR>, MemoryError> {
    let laid = memory_laid_out(memory_regions, capacity);
    let reserved = if laid.outcome is Err {
        laid
    } else {
        regions_carved(laid.map, reserved_regions, 0, capacity)
    };
    let complete = firmware_carved(reserved, firmware, capacity);
    match complete.outcome {
        Ok(_) => Ok(coalesced(complete.map)),
        Err(error) => Err(error),
    }
}

/// The first regions of a list, as many as there is room for.
pub open spec fn first_regions(found: Seq<MemoryRegion>, room: nat) -> Seq<MemoryRegion> {
    found.take(fitting(found, room) as int)
}

/// The regions of a list that may be mapped, or those that may not.
pub open spec fn of_kind(regions: Seq<MemoryRegion>, mappable: Seq<bool>, kind: bool) -> Seq<
    MemoryRegion,
>
    decreases regions.len(),
{
    if regions.len() == 0 {
        Seq::empty()
    } else {
        let before = of_kind(regions.drop_last(), mappable, kind);
        if mappable[regions.len() - 1] == kind {
            before.push(regions.last())
        } else {
            before
        }
    }
}

/// Only the answers for the regions themselves matter.
proof fn same_kinds_chosen(
    regions: Seq<MemoryRegion>,
    mappable: Seq<bool>,
    answers: Seq<bool>,
    kind: bool,
)
    requires
        regions.len() <= mappable.len(),
        regions.len() <= answers.len(),
        forall|i: int| 0 <= i < regions.len() ==> mappable[i] == answers[i],
    ensures
        of_kind(regions, mappable, kind) == of_kind(regions, answers, kind),
    decreases regions.len(),
{
    if regions.len() > 0 {
        same_kinds_chosen(regions.drop_last(), mappable, answers, kind);
    }
}

/// Returns the regions that may be mapped, or those that may not.
fn regions_of_kind(regions: &[MemoryRegion], mappable: &[bool], kind: bool) -> (chosen: Vec<
    MemoryRegion,
>)
    requires
        mappable@.len() <= regions@.len(),
    ensures
        chosen@ == of_kind(regions@.take(mappable@.len() as int), mappable@, kind),
{
    let mut chosen: Vec<MemoryRegion> = Vec::new();
    let mut index: usize = 0;
    while index < mappable.len()
        invariant
            mappable@.len() <= regions@.len(),
            index <= mappable@.len(),
            chosen@ == of_kind(regions@.take(index as int), mappable@, kind),
        decreases mappable@.len() - index,
    {
        assert(regions@.take(index + 1).drop_last() =~= regions@.take(index as int));
        if mappable[index] == kind {
            chosen.push(regions[index]);
        }
        index += 1;
    }
    chosen
}

/// Collects the reserved regions of a device tree into `output`, as many as fit,
/// and returns those that must stay reserved and those that may be mapped.
fn reserved_of_tree(fdt: &Fdt<'_>, output: &mut [MemoryRegion]) -> (reserved: (
    Vec<MemoryRegion>,
    Vec<MemoryRegion>,
))
    ensures
        ({
            let found = all_reserved(fdt.reserve_map(), fdt.structure(), fdt.strings());
            let answers = all_mappable(fdt.reserve_map(), fdt.structure(), fdt.strings());
            let kept = first_regions(found, old(output)@.len());
            &&& final(output)@ == filled(old(output)@, found)
            &&& reserved.0@ == of_kind(kept, answers, false)
            &&& reserved.1@ == of_kind(kept, answers, true)
        }),
{
    let ghost found = all_reserved(fdt.reserve_map(), fdt.structure(), fdt.strings());
    let ghost answers = all_mappable(fdt.reserve_map(), fdt.structure(), fdt.strings());
    let ghost kept = first_regions(found, output@.len());
    let mappable = classified_regions(fdt, output);
    proof {
        reserved_ranges_are_classified(fdt.reserve_map(), fdt.structure(), fdt.strings());
        assert(output@.take(mappable@.len() as int) =~= kept);
        same_kinds_chosen(kept, mappable@, answers, false);
        same_kinds_chosen(kept, mappable@, answers, true);
    }
    let unmapped = regions_of_kind(output, mappable.as_slice(), false);
    let mapped = regions_of_kind(output, mappable.as_slice(), true);
    (unmapped, mapped)
}

/// What the map of a device tree is made of.
pub struct TreeParts {
    /// Usable memory.
    pub memory: Seq<MemoryRegion>,
    /// The device tree itself.
    pub blob: MemoryRegion,
    /// Ranges that must stay reserved.
    pub unmapped: Seq<MemoryRegion>,
    /// Reserved ranges that may be mapped.
    pub mapped: Seq<MemoryRegion>,
}

/// The parts of a device tree, as many as the scratch space has room for. The
/// reserved ranges share theirs, whether they may be mapped or not.
pub open spec fn parts_of_tree(
    base: usize,
    total_size: usize,
    reserve_map: Seq<u8>,
    structure: Seq<u8>,
    strings: Seq<u8>,
    memory_room: nat,
    reserved_room: nat,
) -> TreeParts {
    let reserved = first_regions(all_reserved(reserve_map, structure, strings), reserved_room);
    let mappable = all_mappable(reserve_map, structure, strings);
    TreeParts {
        memory: first_regions(tree_memory(structure, strings), memory_room),
        blob: MemoryRegion { base: base as u64, size: total_size as u64 },
        unmapped: of_kind(reserved, mappable, false),
        mapped: of_kind(reserved, mappable, true),
    }
}

/// The map of a device tree, or why it cannot be built. The tree itself, the
/// reserve map and nodes with `no-map` are reserved. Other static reserved-memory
/// nodes hold boot-services data. The firmware's own ranges come last.
pub open spec fn map_of_tree(parts: TreeParts, firmware: FirmwareRanges, capacity: nat) -> Result<
    Seq<EFI_MEMORY_DESCRIPTOR>,
    MemoryError,
> {
    let laid = memory_laid_out(parts.memory, capacity);
    let with_blob = if laid.outcome is Err {
        laid
    } else {
        let carved = region_carved(laid.map, parts.blob, 0, capacity);
        if carved.outcome is Err {
            carved
        } else {
            Carving { map: coalesced(carved.map), ..carved }
        }
    };
    let with_unmapped = if with_blob.outcome is Err {
        with_blob
    } else {
        regions_carved(with_blob.map, parts.unmapped, 0, capacity)
    };
    let with_mapped = if with_unmapped.outcome is Err {
        with_unmapped
    } else {
        regions_carved(with_unmapped.map, parts.mapped, 4, capacity)
    };
    let complete = firmware_carved(with_mapped, firmware, capacity);
    match complete.outcome {
        Ok(_) => Ok(coalesced(complete.map)),
        Err(error) => Err(error),
    }
}

/// Page allocator backed by an in-place EFI memory descriptor array.
pub struct PageAllocator<'a> {
    /// Descriptor buffer containing the current EFI-style memory map.
    descriptors: &'a mut [EFI_MEMORY_DESCRIPTOR],
    /// Number of valid descriptors stored at the start of `descriptors`.
    descriptor_count: usize,
}

/// Aligns `value` down to a multiple of `alignment`.
fn align_down(value: u64, alignment: u64) -> (aligned: u64)
    requires
        alignment > 0,
    ensures
        aligned == multiple_below(value as int, alignment as int),
        aligned <= value,
        value < aligned + alignment,
{
    assert(value / alignment * alignment <= value && value < value / alignment * alignment
        + alignment) by (nonlinear_arith)
        requires
            alignment > 0,
    ;
    value / alignment * alignment
}

/// Aligns `value` up to a multiple of `alignment`.
fn align_up(value: u64, alignment: u64) -> (aligned: Result<u64, MemoryError>)
    requires
        alignment > 0,
    ensures
        match aligned {
            Ok(up) => value + alignment - 1 <= u64::MAX && up == multiple_above(
                value as int,
                alignment as int,
            ) && value <= up,
            Err(error) => value + alignment - 1 > u64::MAX && error == MemoryError::AddressOverflow,
        },
{
    if value > u64::MAX - (alignment - 1) {
        return Err(MemoryError::AddressOverflow);
    }
    Ok(align_down(value + (alignment - 1), alignment))
}

/// Converts a page count into bytes.
fn pages_to_bytes(pages: usize) -> (bytes: Result<u64, MemoryError>)
    ensures
        match bytes {
            Ok(count) => count == pages * 4096,
            Err(error) => pages * 4096 > u64::MAX && error == MemoryError::AddressOverflow,
        },
{
    match (pages as u64).checked_mul(4096) {
        Some(count) => Ok(count),
        None => Err(MemoryError::AddressOverflow),
    }
}

/// Number of pages that `size` bytes take, at least one.
pub open spec fn pages_needed(size: int) -> int {
    if size == 0 {
        1
    } else {
        (size + 4095) / 4096
    }
}

/// Converts a byte count into the minimum number of 4 KiB pages needed, at least
/// one.
fn pages_for_size(size_bytes: usize) -> (pages: Result<usize, MemoryError>)
    ensures
        match pages {
            Ok(count) => count == pages_needed(size_bytes as int) && size_bytes + 4095 <= u64::MAX,
            Err(error) => size_bytes + 4095 > u64::MAX && error == MemoryError::AddressOverflow,
        },
{
    let size: u64 = if size_bytes == 0 {
        1
    } else {
        size_bytes as u64
    };
    match align_up(size, 4096) {
        Ok(rounded) => Ok((rounded / 4096) as usize),
        Err(error) => Err(error),
    }
}

/// Computes the exclusive end address of a page range.
fn checked_end(start: u64, pages: u64) -> (end: Result<u64, MemoryError>)
    ensures
        match end {
            Ok(address) => address == start + pages * 4096,
            Err(error) => start + pages * 4096 > u64::MAX && error == MemoryError::AddressOverflow,
        },
{
    match pages.checked_mul(4096) {
        Some(bytes) => match start.checked_add(bytes) {
            Some(end) => Ok(end),
            None => Err(MemoryError::AddressOverflow),
        },
        None => Err(MemoryError::AddressOverflow),
    }
}

/// Computes the exclusive end address of a sound descriptor.
fn descriptor_end(descriptor: &EFI_MEMORY_DESCRIPTOR) -> (end: u64)
    requires
        sound(*descriptor),
    ensures
        end == end_of(*descriptor),
        end % 4096 == 0,
{
    descriptor.PhysicalStart + descriptor.NumberOfPages * 4096
}

/// Aligns a raw region to page boundaries, outwards where partial edge pages
/// must be reserved.
fn align_region_to_pages(region: MemoryRegion, reserve_partial_pages: bool) -> (range: Result<
    Option<(u64, u64)>,
    MemoryError,
>)
    ensures
        match range {
            Ok(Some((start, end))) => region_pages(region, reserve_partial_pages) == Ok::<
                Option<(int, int)>,
                MemoryError,
            >(Some((start as int, end as int))) && start < end && start % 4096 == 0 && end % 4096
                == 0,
            Ok(None) => region_pages(region, reserve_partial_pages) == Ok::<
                Option<(int, int)>,
                MemoryError,
            >(None),
            Err(error) => region_pages(region, reserve_partial_pages) == Err::<
                Option<(int, int)>,
                MemoryError,
            >(error),
        },
{
    let limit: u64 = match region.base.checked_add(region.size) {
        Some(limit) => limit,
        None => return Err(MemoryError::AddressOverflow),
    };
    let start: u64 = if reserve_partial_pages {
        align_down(region.base, 4096)
    } else {
        match align_up(region.base, 4096) {
            Ok(start) => start,
            Err(error) => return Err(error),
        }
    };
    let end: u64 = if reserve_partial_pages {
        match align_up(limit, 4096) {
            Ok(end) => end,
            Err(error) => return Err(error),
        }
    } else {
        align_down(limit, 4096)
    };
    if end <= start {
        return Ok(None);
    }
    Ok(Some((start, end)))
}

/// Returns `true` when two neighbouring descriptors can be merged into one.
fn descriptors_are_compatible(left: &EFI_MEMORY_DESCRIPTOR, right: &EFI_MEMORY_DESCRIPTOR) -> (answer:
    bool)
    requires
        sound(*left),
    ensures
        answer == mergeable(*left, *right),
{
    left.Type == right.Type && left.Attribute == right.Attribute && left.VirtualStart
        == right.VirtualStart && right.PhysicalStart <= descriptor_end(left)
}

impl<'a> PageAllocator<'a> {
    /// The buffer that holds the descriptors.
    pub closed spec fn buffer(&self) -> &'a mut [EFI_MEMORY_DESCRIPTOR] {
        self.descriptors
    }

    /// The current memory map.
    pub closed spec fn map(&self) -> Seq<EFI_MEMORY_DESCRIPTOR> {
        self.descriptors@.take(self.descriptor_count as int)
    }

    /// Number of descriptors that the buffer can hold.
    pub closed spec fn capacity(&self) -> nat {
        self.descriptors@.len()
    }

    /// Whether the descriptors lie inside of the buffer.
    pub closed spec fn fits(&self) -> bool {
        self.descriptor_count <= self.descriptors@.len()
    }

    /// Whether the allocator holds a sound memory map.
    pub open spec fn well_formed(&self) -> bool {
        self.fits() && map_sound(self.map())
    }

    /// The map of an allocator is never longer than its buffer.
    pub proof fn map_in_buffer(&self)
        requires
            self.well_formed(),
        ensures
            self.map().len() <= self.capacity(),
    {
    }

    /// An allocator that is not used any more leaves its map in the buffer.
    pub proof fn buffer_released(allocator: Self)
        requires
            has_resolved(allocator),
            allocator.fits(),
        ensures
            final(allocator.buffer())@.len() == allocator.capacity(),
            allocator.map().len() <= allocator.capacity(),
            final(allocator.buffer())@.take(allocator.map().len() as int) == allocator.map(),
    {
    }

    /// Inserts one descriptor at `index`.
    fn insert_descriptor(&mut self, index: usize, descriptor: EFI_MEMORY_DESCRIPTOR) -> (outcome: Result<
        (),
        MemoryError,
    >)
        requires
            old(self).fits(),
            index <= old(self).map().len(),
        ensures
            final(self).fits(),
            final(self).capacity() == old(self).capacity(),
            final(final(self).buffer())@ == final(old(self).buffer())@,
            match outcome {
                Ok(()) => final(self).map() == inserted(
                    old(self).map(),
                    index as int,
                    descriptor,
                ) && old(self).map().len() < old(self).capacity(),
                Err(error) => error == MemoryError::BufferTooSmall && old(self).map().len() == old(
                    self,
                ).capacity() && final(self).map() == old(self).map(),
            },
    {
        if self.descriptor_count == self.descriptors.len() {
            return Err(MemoryError::BufferTooSmall);
        }
        let ghost before = self.descriptors@;
        let count = self.descriptor_count;
        let mut cursor: usize = count;
        while cursor > index
            invariant
                index <= cursor <= count,
                count == self.descriptor_count,
                count < before.len(),
                self.descriptors@.len() == before.len(),
                final(self.descriptors)@ == final(old(self).buffer())@,
                forall|i: int| 0 <= i < cursor ==> self.descriptors@[i] == before[i],
                forall|i: int|
                    cursor < i <= count ==> self.descriptors@[i] == #[trigger] before[i - 1],
            decreases cursor - index,
        {
            let moved = self.descriptors[cursor - 1];
            self.descriptors[cursor] = moved;
            cursor -= 1;
        }
        self.descriptors[index] = descriptor;
        self.descriptor_count = count + 1;
        proof {
            let wanted = inserted(before.take(count as int), index as int, descriptor);
            assert forall|i: int| 0 <= i < wanted.len() implies self.map()[i] == wanted[i] by {
                if i > index {
                    assert(self.descriptors@[i] == before[i - 1]);
                }
            }
            assert(self.map() =~= wanted);
        }
        Ok(())
    }

    /// Inserts one descriptor while keeping the map sorted by physical address.
    fn insert_sorted(&mut self, descriptor: EFI_MEMORY_DESCRIPTOR) -> (outcome: Result<
        (),
        MemoryError,
    >)
        requires
            old(self).fits(),
        ensures
            final(self).fits(),
            final(self).capacity() == old(self).capacity(),
            final(final(self).buffer())@ == final(old(self).buffer())@,
            match outcome {
                Ok(()) => final(self).map() == sorted_insert(old(self).map(), descriptor) && old(
                    self,
                ).map().len() < old(self).capacity(),
                Err(error) => error == MemoryError::BufferTooSmall && old(self).map().len() == old(
                    self,
                ).capacity() && final(self).map() == old(self).map(),
            },
    {
        let mut index: usize = 0;
        while index < self.descriptor_count && self.descriptors[index].PhysicalStart
            <= descriptor.PhysicalStart
            invariant
                self.fits(),
                index <= self.descriptor_count,
                place_behind(self.map(), descriptor.PhysicalStart, 0) == place_behind(
                    self.map(),
                    descriptor.PhysicalStart,
                    index as int,
                ),
            decreases self.descriptor_count - index,
        {
            assert(self.map()[index as int] == self.descriptors@[index as int]);
            index += 1;
        }
        proof {
            if index < self.descriptor_count {
                assert(self.map()[index as int] == self.descriptors@[index as int]);
            }
        }
        self.insert_descriptor(index, descriptor)
    }

    /// Replaces one descriptor with a short list of new descriptors.
    fn replace_descriptor(&mut self, index: usize, replacements: &[EFI_MEMORY_DESCRIPTOR]) -> (outcome:
        Result<(), MemoryError>)
        requires
            old(self).fits(),
            index < old(self).map().len(),
            1 <= replacements@.len() <= 3,
        ensures
            final(self).fits(),
            final(self).capacity() == old(self).capacity(),
            final(final(self).buffer())@ == final(old(self).buffer())@,
            ({
                let after = old(self).map().take(index as int) + replacements@ + old(
                    self,
                ).map().skip(index + 1);
                match outcome {
                    Ok(()) => final(self).map() == after && after.len() <= old(self).capacity(),
                    Err(error) => error == MemoryError::BufferTooSmall && after.len() > old(
                        self,
                    ).capacity() && final(self).map() == old(self).map(),
                }
            }),
    {
        let ghost before = self.descriptors@;
        let ghost old_map = self.map();
        let count = self.descriptor_count;
        let growth = replacements.len() - 1;
        if growth > self.descriptors.len() - count {
            return Err(MemoryError::BufferTooSmall);
        }
        let mut cursor: usize = count;
        while cursor > index + 1
            invariant
                index < count,
                index + 1 <= cursor <= count,
                count == self.descriptor_count,
                count + growth <= before.len() <= usize::MAX,
                self.descriptors@.len() == before.len(),
                final(self.descriptors)@ == final(old(self).buffer())@,
                forall|i: int| 0 <= i <= index ==> self.descriptors@[i] == before[i],
                forall|i: int| index < i < cursor ==> self.descriptors@[i] == before[i],
                forall|i: int|
                    cursor + growth <= i < count + growth ==> self.descriptors@[i]
                        == #[trigger] before[i - growth],
            decreases cursor - index,
        {
            let moved = self.descriptors[cursor - 1];
            self.descriptors[cursor + growth - 1] = moved;
            cursor -= 1;
        }
        let ghost shifted = self.descriptors@;
        let mut offset: usize = 0;
        while offset < replacements.len()
            invariant
                offset <= replacements@.len(),
                replacements@.len() == growth + 1,
                index < count,
                count == self.descriptor_count,
                count + growth <= before.len() <= usize::MAX,
                self.descriptors@.len() == before.len(),
                shifted.len() == before.len(),
                final(self.descriptors)@ == final(old(self).buffer())@,
                forall|i: int| 0 <= i < index ==> self.descriptors@[i] == before[i],
                forall|i: int|
                    index + growth < i < count + growth ==> self.descriptors@[i]
                        == #[trigger] before[i - growth],
                forall|i: int|
                    index <= i < index + offset ==> self.descriptors@[i]
                        == #[trigger] replacements@[i - index],
            decreases replacements@.len() - offset,
        {
            self.descriptors[index + offset] = replacements[offset];
            offset += 1;
        }
        self.descriptor_count = count + growth;
        proof {
            let wanted = old_map.take(index as int) + replacements@ + old_map.skip(index + 1);
            assert(self.map().len() == wanted.len());
            assert forall|i: int| 0 <= i < wanted.len() implies self.map()[i] == wanted[i] by {
                if i < index {
                } else if i <= index + growth {
                    assert(self.descriptors@[i] == replacements@[i - index]);
                } else {
                    assert(self.descriptors@[i] == before[i - growth]);
                }
            }
            assert(self.map() =~= wanted);
        }
        Ok(())
    }

    /// Replaces a subrange of one descriptor with a different EFI memory type and
    /// returns the place behind it.
    fn replace_range(&mut self, index: usize, memory: u64, pages: u64, kind: u32) -> (next: Result<
        usize,
        MemoryError,
    >)
        requires
            old(self).well_formed(),
            index < old(self).map().len(),
            pages > 0,
            within(old(self).map()[index as int], memory as int, memory + pages * 4096),
        ensures
            final(self).fits(),
            final(self).capacity() == old(self).capacity(),
            final(final(self).buffer())@ == final(old(self).buffer())@,
            ({
                let after = replaced(
                    old(self).map(),
                    index as int,
                    memory as int,
                    memory + pages * 4096,
                    kind,
                );
                match next {
                    Ok(place) => final(self).map() == after && after.len() <= old(self).capacity()
                        && place == if memory > old(self).map()[index as int].PhysicalStart {
                        index + 2
                    } else {
                        index + 1
                    },
                    Err(error) => error == MemoryError::BufferTooSmall && after.len() > old(
                        self,
                    ).capacity() && final(self).map() == old(self).map(),
                }
            }),
    {
        let descriptor = self.descriptors[index];
        assert(descriptor == self.map()[index as int]);
        assert(sound(descriptor));
        let end: u64 = descriptor_end(&descriptor);
        let range_end: u64 = memory + pages * 4096;
        let prefix_pages: u64 = (memory - descriptor.PhysicalStart) / 4096;
        let suffix_pages: u64 = (end - range_end) / 4096;
        let ghost wanted = parts_of(descriptor, memory as int, range_end as int, kind);
        let prefix = EFI_MEMORY_DESCRIPTOR {
            Type: descriptor.Type,
            PhysicalStart: descriptor.PhysicalStart,
            VirtualStart: descriptor.VirtualStart,
            NumberOfPages: prefix_pages,
            Attribute: descriptor.Attribute,
        };
        let changed = EFI_MEMORY_DESCRIPTOR {
            Type: kind,
            PhysicalStart: memory,
            VirtualStart: 0,
            NumberOfPages: pages,
            Attribute: descriptor.Attribute,
        };
        let suffix = EFI_MEMORY_DESCRIPTOR {
            Type: descriptor.Type,
            PhysicalStart: range_end,
            VirtualStart: 0,
            NumberOfPages: suffix_pages,
            Attribute: descriptor.Attribute,
        };
        let mut parts: Vec<EFI_MEMORY_DESCRIPTOR> = Vec::new();
        if prefix_pages != 0 {
            parts.push(prefix);
        }
        parts.push(changed);
        if suffix_pages != 0 {
            parts.push(suffix);
        }
        assert(parts@ =~= wanted);
        match self.replace_descriptor(index, parts.as_slice()) {
            Ok(()) => Ok(
                if prefix_pages != 0 {
                    index + 2
                } else {
                    index + 1
                },
            ),
            Err(error) => Err(error),
        }
    }

    /// Merges adjacent compatible descriptors after insertions and splits.
    fn coalesce(&mut self)
        requires
            old(self).fits(),
            all_sound(old(self).map()),
            sorted_by_start(old(self).map()),
        ensures
            final(self).fits(),
            final(self).capacity() == old(self).capacity(),
            final(final(self).buffer())@ == final(old(self).buffer())@,
            final(self).map() == coalesced(old(self).map()),
    {
        let ghost whole = coalesced(self.map());
        let mut index: usize = 0;
        while self.descriptor_count > 1 && index < self.descriptor_count - 1
            invariant
                self.fits(),
                self.capacity() == old(self).capacity(),
                final(self.buffer())@ == final(old(self).buffer())@,
                all_sound(self.map()),
                sorted_by_start(self.map()),
                whole == coalesced(old(self).map()),
                coalesced_from(self.map(), index as int) == whole,
            decreases self.descriptor_count - index,
        {
            let ghost map = self.map();
            let ghost buffer = self.descriptors@;
            let current = self.descriptors[index];
            let next = self.descriptors[index + 1];
            let count = self.descriptor_count;
            assert(current == map[index as int] && next == map[index + 1]);
            assert(sound(map[index as int]) && sound(map[index + 1]));
            assert(map[index as int].PhysicalStart <= map[index + 1].PhysicalStart);
            if descriptors_are_compatible(&current, &next) {
                let current_end: u64 = descriptor_end(&current);
                let next_end: u64 = descriptor_end(&next);
                let end: u64 = if current_end <= next_end {
                    next_end
                } else {
                    current_end
                };
                let union = EFI_MEMORY_DESCRIPTOR {
                    Type: current.Type,
                    PhysicalStart: current.PhysicalStart,
                    VirtualStart: current.VirtualStart,
                    NumberOfPages: (end - current.PhysicalStart) / 4096,
                    Attribute: current.Attribute,
                };
                self.descriptors[index] = union;
                let mut cursor: usize = index + 2;
                while cursor < count
                    invariant
                        index + 2 <= cursor <= count,
                        count == self.descriptor_count,
                        count <= buffer.len(),
                        self.descriptors@.len() == buffer.len(),
                        final(self.descriptors)@ == final(old(self).buffer())@,
                        forall|i: int| 0 <= i < index ==> self.descriptors@[i] == buffer[i],
                        self.descriptors@[index as int] == union,
                        forall|i: int|
                            index < i < cursor - 1 ==> self.descriptors@[i]
                                == #[trigger] buffer[i + 1],
                        forall|i: int|
                            cursor - 1 <= i < buffer.len() && i > index ==> self.descriptors@[i]
                                == buffer[i],
                    decreases count - cursor,
                {
                    let moved = self.descriptors[cursor];
                    self.descriptors[cursor - 1] = moved;
                    cursor += 1;
                }
                self.descriptor_count = count - 1;
                proof {
                    let wanted = merged(map, index as int);
                    assert(union == wanted[index as int]);
                    assert forall|i: int| 0 <= i < wanted.len() implies self.map()[i]
                        == wanted[i] by {
                        if i > index {
                            assert(self.descriptors@[i] == buffer[i + 1]);
                        }
                    }
                    assert(self.map() =~= wanted);
                    merging_keeps_order(map, index as int);
                }
            } else {
                index += 1;
            }
        }
    }

    /// Replaces conventional memory that overlaps a range with another type.
    #[verifier::spinoff_prover]
    #[verifier::rlimit(60)]
    fn carve_range(&mut self, start: u64, end: u64, memory_type: EFI_MEMORY_TYPE) -> (outcome: Result<
        (),
        MemoryError,
    >)
        requires
            old(self).well_formed(),
            start < end,
            start % 4096 == 0,
            end % 4096 == 0,
            !(memory_type is EfiConventionalMemory),
        ensures
            final(self).well_formed(),
            final(self).capacity() == old(self).capacity(),
            final(final(self).buffer())@ == final(old(self).buffer())@,
            ({
                let after = carved(
                    old(self).map(),
                    start as int,
                    end as int,
                    memory_type.code(),
                    old(self).capacity(),
                );
                final(self).map() == after.map && outcome == after.outcome
            }),
    {
        let kind: u32 = memory_type.number();
        let ghost whole = carved(
            self.map(),
            start as int,
            end as int,
            kind,
            self.capacity(),
        );
        let mut index: usize = 0;
        while index < self.descriptor_count
            invariant_except_break
                whole == carved_from(
                    self.map(),
                    index as int,
                    start as int,
                    end as int,
                    kind,
                    self.capacity(),
                ),
            invariant
                self.well_formed(),
                self.capacity() == old(self).capacity(),
                final(self.buffer())@ == final(old(self).buffer())@,
                start < end,
                start % 4096 == 0,
                end % 4096 == 0,
                kind == memory_type.code(),
                whole == carved(
                    old(self).map(),
                    start as int,
                    end as int,
                    kind,
                    self.capacity(),
                ),
            ensures
                whole.map == self.map(),
                whole.outcome == Ok::<(), MemoryError>(()),
            decreases self.descriptor_count - index,
        {
            let ghost map = self.map();
            let descriptor = self.descriptors[index];
            assert(descriptor == map[index as int]);
            assert(sound(map[index as int]));
            let descriptor_end: u64 = descriptor_end(&descriptor);
            if descriptor_end <= start {
                index += 1;
            } else if descriptor.PhysicalStart >= end {
                break;
            } else if descriptor.Type != CONVENTIONAL {
                index += 1;
            } else {
                let from: u64 = if descriptor.PhysicalStart > start {
                    descriptor.PhysicalStart
                } else {
                    start
                };
                let to: u64 = if descriptor_end < end {
                    descriptor_end
                } else {
                    end
                };
                let pages: u64 = (to - from) / 4096;
                proof {
                    assert(from + pages * 4096 == to);
                    replaced_changes_range(map, index as int, from as int, to as int, kind);
                }
                let next: usize = match self.replace_range(index, from, pages, kind) {
                    Ok(next) => next,
                    Err(error) => return Err(error),
                };
                if end < descriptor_end {
                    break;
                }
                index = next;
            }
        }
        Ok(())
    }

    /// Adds one RAM region as EFI conventional memory.
    fn add_memory_region(&mut self, region: MemoryRegion) -> (outcome: Result<(), MemoryError>)
        requires
            old(self).fits(),
            all_sound(old(self).map()),
            sorted_by_start(old(self).map()),
        ensures
            final(self).fits(),
            all_sound(final(self).map()),
            sorted_by_start(final(self).map()),
            final(self).capacity() == old(self).capacity(),
            final(final(self).buffer())@ == final(old(self).buffer())@,
            match region_pages(region, false) {
                Err(error) => outcome == Err::<(), MemoryError>(error) && final(self).map() == old(
                    self,
                ).map(),
                Ok(None) => outcome == Ok::<(), MemoryError>(()) && final(self).map() == old(
                    self,
                ).map(),
                Ok(Some((start, end))) => if old(self).map().len() >= old(self).capacity() {
                    outcome == Err::<(), MemoryError>(MemoryError::BufferTooSmall) && final(
                        self
                    ).map() == old(self).map()
                } else {
                    outcome == Ok::<(), MemoryError>(()) && final(self).map() == sorted_insert(
                        old(self).map(),
                        range_of(CONVENTIONAL, start, end),
                    )
                },
            },
    {
        let (start, end) = match align_region_to_pages(region, false) {
            Ok(Some(range)) => range,
            Ok(None) => return Ok(()),
            Err(error) => return Err(error),
        };
        let descriptor = EFI_MEMORY_DESCRIPTOR {
            Type: CONVENTIONAL,
            PhysicalStart: start,
            VirtualStart: 0,
            NumberOfPages: (end - start) / 4096,
            Attribute: 0,
        };
        proof {
            assert(sound(descriptor));
            assert(descriptor == range_of(CONVENTIONAL, start as int, end as int));
            sorted_insert_keeps_order(self.map(), descriptor);
            assert(self.map().len() <= self.capacity());
        }
        match self.insert_sorted(descriptor) {
            Ok(()) => Ok(()),
            Err(error) => Err(error),
        }
    }

    /// Carves the pages that one region touches from conventional memory.
    fn add_carved_region(&mut self, region: MemoryRegion, memory_type: EFI_MEMORY_TYPE) -> (outcome:
        Result<(), MemoryError>)
        requires
            old(self).well_formed(),
            !(memory_type is EfiConventionalMemory),
        ensures
            final(self).well_formed(),
            final(self).capacity() == old(self).capacity(),
            final(final(self).buffer())@ == final(old(self).buffer())@,
            ({
                let after = region_carved(
                    old(self).map(),
                    region,
                    memory_type.code(),
                    old(self).capacity(),
                );
                final(self).map() == after.map && outcome == after.outcome
            }),
    {
        let (start, end) = match align_region_to_pages(region, true) {
            Ok(Some(range)) => range,
            Ok(None) => return Ok(()),
            Err(error) => return Err(error),
        };
        self.carve_range(start, end, memory_type)
    }

    /// Carves one reserved region from conventional memory.
    fn add_reserved_region(&mut self, region: MemoryRegion) -> (outcome: Result<(), MemoryError>)
        requires
            old(self).well_formed(),
        ensures
            final(self).well_formed(),
            final(self).capacity() == old(self).capacity(),
            final(final(self).buffer())@ == final(old(self).buffer())@,
            ({
                let after = region_carved(old(self).map(), region, 0, old(self).capacity());
                final(self).map() == after.map && outcome == after.outcome
            }),
    {
        self.add_carved_region(region, EFI_MEMORY_TYPE::EfiReservedMemoryType)
    }

    /// Carves one firmware range, if it is not empty, into the page map.
    fn add_firmware_region(&mut self, start: u64, end: u64, memory_type: EFI_MEMORY_TYPE) -> (outcome:
        Result<(), MemoryError>)
        requires
            old(self).well_formed(),
            !(memory_type is EfiConventionalMemory),
        ensures
            final(self).well_formed(),
            final(self).capacity() == old(self).capacity(),
            final(final(self).buffer())@ == final(old(self).buffer())@,
            ({
                let after = span_carved(
                    (Carving { map: old(self).map(), outcome: Ok(()) }),
                    start,
                    end,
                    memory_type.code(),
                    old(self).capacity(),
                );
                final(self).map() == after.map && outcome == after.outcome
            }),
    {
        if end <= start {
            return Ok(());
        }
        self.add_carved_region(MemoryRegion { base: start, size: end - start }, memory_type)
    }

    /// Carves the ranges that the firmware itself takes.
    fn add_firmware(&mut self, firmware: &FirmwareRanges) -> (outcome: Result<(), MemoryError>)
        requires
            old(self).well_formed(),
        ensures
            final(self).well_formed(),
            final(self).capacity() == old(self).capacity(),
            final(final(self).buffer())@ == final(old(self).buffer())@,
            ({
                let after = firmware_carved(
                    (Carving { map: old(self).map(), outcome: Ok(()) }),
                    *firmware,
                    old(self).capacity(),
                );
                final(self).map() == after.map && outcome == after.outcome
            }),
    {
        match self.add_firmware_region(
            firmware.code_start,
            firmware.code_end,
            EFI_MEMORY_TYPE::EfiBootServicesCode,
        ) {
            Ok(done) => {
                assert(done == ());
            },
            Err(error) => return Err(error),
        }
        match self.add_firmware_region(
            firmware.data_start,
            firmware.data_end,
            EFI_MEMORY_TYPE::EfiBootServicesData,
        ) {
            Ok(done) => {
                assert(done == ());
            },
            Err(error) => return Err(error),
        }
        match self.add_firmware_region(
            firmware.heap_start,
            firmware.heap_end,
            EFI_MEMORY_TYPE::EfiBootServicesData,
        ) {
            Ok(done) => {
                assert(done == ());
            },
            Err(error) => return Err(error),
        }
        self.add_firmware_region(
            firmware.stack_bottom,
            firmware.stack_top,
            EFI_MEMORY_TYPE::EfiBootServicesData,
        )
    }

    /// Lays out RAM regions as merged conventional memory in an empty map.
    fn lay_out_memory(&mut self, memory_regions: &[MemoryRegion], count: usize) -> (outcome: Result<
        (),
        MemoryError,
    >)
        requires
            old(self).fits(),
            old(self).map().len() == 0,
            count <= memory_regions@.len(),
        ensures
            final(self).fits(),
            final(self).capacity() == old(self).capacity(),
            final(final(self).buffer())@ == final(old(self).buffer())@,
            ({
                let laid = memory_laid_out(
                    memory_regions@.take(count as int),
                    old(self).capacity(),
                );
                outcome == laid.outcome && (outcome is Ok ==> final(self).well_formed() && final(
                    self
                ).map() == laid.map)
            }),
    {
        let ghost regions = memory_regions@.take(count as int);
        let ghost capacity = self.capacity();
        let mut index: usize = 0;
        assert(self.map() =~= Seq::empty());
        assert(regions.take(0) =~= Seq::empty());
        while index < count
            invariant
                self.fits(),
                self.capacity() == capacity,
                capacity == old(self).capacity(),
                final(self.buffer())@ == final(old(self).buffer())@,
                all_sound(self.map()),
                sorted_by_start(self.map()),
                forall|i: int|
                    0 <= i < self.map().len() ==> (#[trigger] self.map()[i]).Type == CONVENTIONAL,
                regions == memory_regions@.take(count as int),
                index <= count <= memory_regions@.len(),
                regions_inserted(regions.take(index as int), capacity) == (Carving {
                    map: self.map(),
                    outcome: Ok(()),
                }),
            decreases count - index,
        {
            let ghost so_far = regions.take(index as int);
            let ghost longer = regions.take(index + 1);
            let ghost map = self.map();
            proof {
                assert(longer.drop_last() =~= so_far);
                assert(longer.last() == memory_regions@[index as int]);
            }
            match self.add_memory_region(memory_regions[index]) {
                Ok(()) => {},
                Err(error) => {
                    proof {
                        insertion_stops_at_error(longer, regions, capacity);
                    }
                    return Err(error);
                },
            }
            proof {
                if let Ok(Some((start, end))) = region_pages(memory_regions@[index as int], false) {
                    insertion_keeps_type(map, range_of(CONVENTIONAL, start, end));
                }
            }
            index += 1;
        }
        assert(regions.take(index as int) =~= regions);
        proof {
            coalescing_one_kind(self.map(), CONVENTIONAL);
        }
        self.coalesce();
        Ok(())
    }

    /// Carves the first `count` regions from conventional memory.
    fn carve_regions(
        &mut self,
        regions: &[MemoryRegion],
        count: usize,
        memory_type: EFI_MEMORY_TYPE,
    ) -> (outcome: Result<(), MemoryError>)
        requires
            old(self).well_formed(),
            count <= regions@.len(),
            !(memory_type is EfiConventionalMemory),
        ensures
            final(self).well_formed(),
            final(self).capacity() == old(self).capacity(),
            final(final(self).buffer())@ == final(old(self).buffer())@,
            ({
                let after = regions_carved(
                    old(self).map(),
                    regions@.take(count as int),
                    memory_type.code(),
                    old(self).capacity(),
                );
                final(self).map() == after.map && outcome == after.outcome
            }),
    {
        let ghost capacity = self.capacity();
        let ghost start = self.map();
        let ghost wanted = regions@.take(count as int);
        let mut index: usize = 0;
        assert(wanted.take(0) =~= Seq::empty());
        while index < count
            invariant
                self.well_formed(),
                self.capacity() == capacity,
                capacity == old(self).capacity(),
                final(self.buffer())@ == final(old(self).buffer())@,
                start == old(self).map(),
                wanted == regions@.take(count as int),
                index <= count <= regions@.len(),
                !(memory_type is EfiConventionalMemory),
                regions_carved(start, wanted.take(index as int), memory_type.code(), capacity) == (
                Carving { map: self.map(), outcome: Ok(()) }),
            decreases count - index,
        {
            let ghost so_far = wanted.take(index as int);
            let ghost longer = wanted.take(index + 1);
            proof {
                assert(longer.drop_last() =~= so_far);
                assert(longer.last() == regions@[index as int]);
            }
            match self.add_carved_region(regions[index], memory_type) {
                Ok(done) => {
                    assert(done == ());
                },
                Err(error) => {
                    proof {
                        carving_stops_at_error(
                            start,
                            longer,
                            wanted,
                            memory_type.code(),
                            capacity,
                        );
                    }
                    return Err(error);
                },
            }
            index += 1;
        }
        assert(wanted.take(index as int) =~= wanted);
        Ok(())
    }

    /// Builds a page allocator from the RAM and reserved regions in an FDT and the
    /// ranges of the firmware itself. The region slices are scratch space.
    pub fn from_fdt(
        fdt: &Fdt<'_>,
        memory_regions: &mut [MemoryRegion],
        reserved_regions: &mut [MemoryRegion],
        firmware: &FirmwareRanges,
        descriptors: &'a mut [EFI_MEMORY_DESCRIPTOR],
    ) -> (allocator: Result<Self, MemoryError>)
        ensures
            final(memory_regions)@ == filled(
                old(memory_regions)@,
                tree_memory(fdt.structure(), fdt.strings()),
            ),
            final(reserved_regions)@ == filled(
                old(reserved_regions)@,
                all_reserved(fdt.reserve_map(), fdt.structure(), fdt.strings()),
            ),
            ({
                let built = map_of_tree(
                    parts_of_tree(
                        fdt.base(),
                        fdt.total_size(),
                        fdt.reserve_map(),
                        fdt.structure(),
                        fdt.strings(),
                        old(memory_regions)@.len(),
                        old(reserved_regions)@.len(),
                    ),
                    *firmware,
                    old(descriptors)@.len(),
                );
                match allocator {
                    Ok(ready) => ready.well_formed() && built == Ok::<
                        Seq<EFI_MEMORY_DESCRIPTOR>,
                        MemoryError,
                    >(ready.map()) && ready.capacity() == old(descriptors)@.len() && final(
                        ready.buffer()
                    )@ == final(descriptors)@,
                    Err(error) => built == Err::<Seq<EFI_MEMORY_DESCRIPTOR>, MemoryError>(error),
                }
            }),
    {
        let ghost parts = parts_of_tree(
            fdt.base(),
            fdt.total_size(),
            fdt.reserve_map(),
            fdt.structure(),
            fdt.strings(),
            memory_regions@.len(),
            reserved_regions@.len(),
        );
        let memory_count = tree_memory_regions(fdt, memory_regions);
        let (unmapped, mapped) = reserved_of_tree(fdt, reserved_regions);
        assert(memory_regions@.take(memory_count as int) =~= parts.memory);
        assert(unmapped@.take(unmapped@.len() as int) =~= parts.unmapped);
        assert(mapped@.take(mapped@.len() as int) =~= parts.mapped);
        let mut allocator = PageAllocator { descriptors, descriptor_count: 0 };
        match allocator.lay_out_memory(memory_regions, memory_count) {
            Ok(()) => {},
            Err(error) => return Err(error),
        }
        match reserve_original_fdt(fdt, &mut allocator) {
            Ok(done) => {
                assert(done == ());
            },
            Err(error) => return Err(error),
        }
        match allocator.carve_regions(
            unmapped.as_slice(),
            unmapped.len(),
            EFI_MEMORY_TYPE::EfiReservedMemoryType,
        ) {
            Ok(done) => {
                assert(done == ());
            },
            Err(error) => return Err(error),
        }
        match allocator.carve_regions(
            mapped.as_slice(),
            mapped.len(),
            EFI_MEMORY_TYPE::EfiBootServicesData,
        ) {
            Ok(done) => {
                assert(done == ());
            },
            Err(error) => return Err(error),
        }
        match allocator.add_firmware(firmware) {
            Ok(()) => {},
            Err(error) => return Err(error),
        }
        proof {
            sound_map_is_sorted(allocator.map());
            coalescing_keeps_kinds(allocator.map());
        }
        allocator.coalesce();
        Ok(allocator)
    }

    /// Builds a page allocator from explicit RAM and reserved region lists and the
    /// ranges of the firmware itself.
    pub fn from_regions(
        memory_regions: &[MemoryRegion],
        reserved_regions: &[MemoryRegion],
        firmware: &FirmwareRanges,
        descriptors: &'a mut [EFI_MEMORY_DESCRIPTOR],
    ) -> (allocator: Result<Self, MemoryError>)
        ensures
            ({
                let built = map_of_regions(
                    memory_regions@,
                    reserved_regions@,
                    *firmware,
                    old(descriptors)@.len(),
                );
                match allocator {
                    Ok(ready) => ready.well_formed() && built == Ok::<
                        Seq<EFI_MEMORY_DESCRIPTOR>,
                        MemoryError,
                    >(ready.map()) && ready.capacity() == old(descriptors)@.len() && final(
                        ready.buffer()
                    )@ == final(descriptors)@,
                    Err(error) => built == Err::<Seq<EFI_MEMORY_DESCRIPTOR>, MemoryError>(error),
                }
            }),
    {
        let mut allocator = PageAllocator { descriptors, descriptor_count: 0 };
        assert(memory_regions@.take(memory_regions@.len() as int) =~= memory_regions@);
        assert(reserved_regions@.take(reserved_regions@.len() as int) =~= reserved_regions@);
        match allocator.lay_out_memory(memory_regions, memory_regions.len()) {
            Ok(()) => {},
            Err(error) => return Err(error),
        }
        match allocator.carve_regions(
            reserved_regions,
            reserved_regions.len(),
            EFI_MEMORY_TYPE::EfiReservedMemoryType,
        ) {
            Ok(done) => {
                assert(done == ());
            },
            Err(error) => return Err(error),
        }
        match allocator.add_firmware(firmware) {
            Ok(()) => {},
            Err(error) => return Err(error),
        }
        proof {
            sound_map_is_sorted(allocator.map());
            coalescing_keeps_kinds(allocator.map());
        }
        allocator.coalesce();
        Ok(allocator)
    }

    /// Finds the highest conventional-memory range of `bytes` bytes.
    fn find_allocation_any_pages(&self, bytes: u64) -> (place: Result<u64, MemoryError>)
        requires
            self.well_formed(),
            bytes > 0,
            bytes % 4096 == 0,
        ensures
            place == place_found(self.map(), bytes as int, Placement::Anywhere),
    {
        let ghost map = self.map();
        let ghost placement = Placement::Anywhere;
        let mut candidate: Option<u64> = None;
        let mut index: usize = 0;
        assert(map.take(0) =~= Seq::empty());
        while index < self.descriptor_count
            invariant
                self.well_formed(),
                map == self.map(),
                index <= self.descriptor_count,
                bytes > 0,
                placement == Placement::Anywhere,
                bytes % 4096 == 0,
                match candidate {
                    Some(best) => best_place(map.take(index as int), bytes as int, placement)
                        == Some(best as int),
                    None => best_place(map.take(index as int), bytes as int, placement) is None,
                },
            decreases self.descriptor_count - index,
        {
            let descriptor = self.descriptors[index];
            let ghost longer = map.take(index + 1);
            proof {
                assert(descriptor == map[index as int]);
                assert(sound(map[index as int]));
                assert(longer.drop_last() =~= map.take(index as int));
                assert(longer.last() == descriptor);
            }
            if descriptor.Type == CONVENTIONAL {
                let end: u64 = descriptor_end(&descriptor);
                if bytes <= end - descriptor.PhysicalStart {
                    let start: u64 = end - bytes;
                    candidate = higher(candidate, start);
                }
            }
            index += 1;
        }
        assert(map.take(index as int) =~= map);
        match candidate {
            Some(best) => Ok(best),
            None => Err(MemoryError::OutOfResources),
        }
    }

    /// Finds the highest conventional-memory range of `bytes` bytes with no byte
    /// above `limit`.
    fn find_allocation_max_address(&self, bytes: u64, limit: u64) -> (place: Result<u64, MemoryError>)
        requires
            self.well_formed(),
            bytes > 0,
            bytes % 4096 == 0,
        ensures
            place == place_found(self.map(), bytes as int, Placement::UpTo(limit)),
    {
        let ghost map = self.map();
        let ghost placement = Placement::UpTo(limit);
        let mut candidate: Option<u64> = None;
        let mut index: usize = 0;
        assert(map.take(0) =~= Seq::empty());
        while index < self.descriptor_count
            invariant
                self.well_formed(),
                map == self.map(),
                index <= self.descriptor_count,
                bytes > 0,
                placement == Placement::UpTo(limit),
                bytes % 4096 == 0,
                match candidate {
                    Some(best) => best_place(map.take(index as int), bytes as int, placement)
                        == Some(best as int),
                    None => best_place(map.take(index as int), bytes as int, placement) is None,
                },
            decreases self.descriptor_count - index,
        {
            let descriptor = self.descriptors[index];
            let ghost longer = map.take(index + 1);
            proof {
                assert(descriptor == map[index as int]);
                assert(sound(map[index as int]));
                assert(longer.drop_last() =~= map.take(index as int));
                assert(longer.last() == descriptor);
            }
            if descriptor.Type == CONVENTIONAL {
                let end: u64 = descriptor_end(&descriptor);
                if bytes <= end - descriptor.PhysicalStart {
                    let bound: u64 = if limit < u64::MAX && limit + 1 < end {
                        limit + 1
                    } else {
                        end
                    };
                    if bytes <= bound && bound - bytes >= descriptor.PhysicalStart {
                        let start: u64 = align_down(bound - bytes, 4096);
                        if start >= descriptor.PhysicalStart {
                            candidate = higher(candidate, start);
                        }
                    }
                }
            }
            index += 1;
        }
        assert(map.take(index as int) =~= map);
        match candidate {
            Some(best) => Ok(best),
            None => Err(MemoryError::OutOfResources),
        }
    }

    /// Finds one aligned conventional-memory range of `bytes` bytes.
    fn find_aligned_allocation(&self, 
        bytes: u64,
        alignment: u64,
        direction: AllocationDirection,
    ) -> (place: Result<u64, MemoryError>)
        requires
            self.well_formed(),
            bytes > 0,
            alignment > 0,
        ensures
            place == place_found(self.map(), bytes as int, aligned_placement(alignment, direction)),
    {
        let ghost map = self.map();
        let ghost placement = aligned_placement(alignment, direction);
        let mut candidate: Option<u64> = None;
        let mut index: usize = 0;
        assert(map.take(0) =~= Seq::empty());
        while index < self.descriptor_count
            invariant
                self.well_formed(),
                map == self.map(),
                index <= self.descriptor_count,
                bytes > 0,
                placement == aligned_placement(alignment, direction),
                alignment > 0,
                match candidate {
                    Some(best) => best_place(map.take(index as int), bytes as int, placement)
                        == Some(best as int),
                    None => best_place(map.take(index as int), bytes as int, placement) is None,
                },
                !alignment_overflows(map.take(index as int), bytes as int, placement),
            decreases self.descriptor_count - index,
        {
            let descriptor = self.descriptors[index];
            let ghost longer = map.take(index + 1);
            proof {
                assert(descriptor == map[index as int]);
                assert(sound(map[index as int]));
                assert(longer.drop_last() =~= map.take(index as int));
                assert(longer.last() == descriptor);
            }
            if descriptor.Type == CONVENTIONAL {
                let end: u64 = descriptor_end(&descriptor);
                if bytes <= end - descriptor.PhysicalStart {
                    match direction {
                        AllocationDirection::Low => {
                            let start: u64 = match align_up(descriptor.PhysicalStart, alignment) {
                                Ok(start) => start,
                                Err(error) => return Err(error),
                            };
                            if start <= end && bytes <= end - start {
                                candidate = lower(candidate, start);
                            }
                        },
                        AllocationDirection::High => {
                            let start: u64 = align_down(end - bytes, alignment);
                            if start >= descriptor.PhysicalStart {
                                candidate = higher(candidate, start);
                            }
                        },
                    }
                }
            }
            index += 1;
        }
        assert(map.take(index as int) =~= map);
        match candidate {
            Some(best) => Ok(best),
            None => Err(MemoryError::OutOfResources),
        }
    }

    /// Finds the descriptor that fully contains the half-open range `[start, end)`.
    fn find_descriptor_covering(&self, start: u64, end: u64) -> (index: Result<usize, MemoryError>)
        requires
            self.well_formed(),
        ensures
            match index {
                Ok(found) => covering_from(self.map(), start as int, end as int, 0) == Some(
                    found as int,
                ) && found < self.map().len(),
                Err(error) => error == MemoryError::NotFound && covering_from(
                    self.map(),
                    start as int,
                    end as int,
                    0,
                ) is None,
            },
    {
        let ghost map = self.map();
        let mut index: usize = 0;
        while index < self.descriptor_count
            invariant
                self.well_formed(),
                map == self.map(),
                index <= self.descriptor_count,
                covering_from(map, start as int, end as int, 0) == covering_from(
                    map,
                    start as int,
                    end as int,
                    index as int,
                ),
            decreases self.descriptor_count - index,
        {
            let descriptor = self.descriptors[index];
            assert(descriptor == map[index as int]);
            assert(sound(map[index as int]));
            let descriptor_end: u64 = descriptor_end(&descriptor);
            if descriptor.PhysicalStart <= start && descriptor_end >= end {
                return Ok(index);
            }
            index += 1;
        }
        Err(MemoryError::NotFound)
    }

    /// Converts an exact conventional-memory range into `memory_type`.
    fn allocate_exact_range(&mut self, memory: u64, pages: u64, memory_type: EFI_MEMORY_TYPE) -> (
    outcome: Result<(), MemoryError>)
        requires
            old(self).well_formed(),
            pages > 0,
            memory % 4096 == 0,
        ensures
            final(self).well_formed(),
            final(self).capacity() == old(self).capacity(),
            final(final(self).buffer())@ == final(old(self).buffer())@,
            match allocated(
                old(self).map(),
                memory,
                pages,
                memory_type.code(),
                old(self).capacity(),
            ) {
                Ok(after) => outcome is Ok && final(self).map() == after,
                Err(error) => outcome == Err::<(), MemoryError>(error) && final(self).map() == old(
                    self,
                ).map(),
            },
    {
        let range_end: u64 = match checked_end(memory, pages) {
            Ok(end) => end,
            Err(error) => return Err(error),
        };
        let index: usize = match self.find_descriptor_covering(memory, range_end) {
            Ok(index) => index,
            Err(error) => return Err(error),
        };
        proof {
            covering_covers(self.map(), memory as int, range_end as int, 0);
            assert(self.descriptors@[index as int] == self.map()[index as int]);
        }
        if self.descriptors[index].Type != CONVENTIONAL {
            return Err(MemoryError::OutOfResources);
        }
        let kind: u32 = memory_type.number();
        proof {
            replaced_changes_range(
                self.map(),
                index as int,
                memory as int,
                range_end as int,
                kind,
            );
            let after = replaced(
                self.map(),
                index as int,
                memory as int,
                range_end as int,
                kind,
            );
            sound_map_is_sorted(after);
            coalescing_keeps_kinds(after);
        }
        match self.replace_range(index, memory, pages, kind) {
            Ok(_) => {},
            Err(error) => return Err(error),
        }
        self.coalesce();
        Ok(())
    }

    /// Converts an allocated range back into conventional memory.
    fn free_exact_range(&mut self, memory: u64, pages: u64) -> (outcome: Result<(), MemoryError>)
        requires
            old(self).well_formed(),
            pages > 0,
            memory % 4096 == 0,
        ensures
            final(self).well_formed(),
            final(self).capacity() == old(self).capacity(),
            final(final(self).buffer())@ == final(old(self).buffer())@,
            match released(old(self).map(), memory, pages, old(self).capacity()) {
                Ok(after) => outcome is Ok && final(self).map() == after,
                Err(error) => outcome == Err::<(), MemoryError>(error) && final(self).map() == old(
                    self,
                ).map(),
            },
    {
        let range_end: u64 = match checked_end(memory, pages) {
            Ok(end) => end,
            Err(error) => return Err(error),
        };
        let index: usize = match self.find_descriptor_covering(memory, range_end) {
            Ok(index) => index,
            Err(error) => return Err(error),
        };
        proof {
            covering_covers(self.map(), memory as int, range_end as int, 0);
            assert(self.descriptors@[index as int] == self.map()[index as int]);
        }
        let descriptor_type: u32 = self.descriptors[index].Type;
        if descriptor_type == CONVENTIONAL || descriptor_type == 0 {
            return Err(MemoryError::InvalidParameter);
        }
        proof {
            replaced_changes_range(
                self.map(),
                index as int,
                memory as int,
                range_end as int,
                CONVENTIONAL,
            );
            let after = replaced(
                self.map(),
                index as int,
                memory as int,
                range_end as int,
                CONVENTIONAL,
            );
            sound_map_is_sorted(after);
            coalescing_keeps_kinds(after);
        }
        match self.replace_range(index, memory, pages, CONVENTIONAL) {
            Ok(_) => {},
            Err(error) => return Err(error),
        }
        self.coalesce();
        Ok(())
    }

    /// Returns the EFI memory descriptor version used by this allocator.
    pub fn descriptor_version() -> (version: u32)
        ensures
            version == 1,
    {
        EFI_MEMORY_DESCRIPTOR_VERSION
    }

    /// Returns the number of active descriptors in the page map.
    pub fn descriptor_count(&self) -> (count: usize)
        requires
            self.fits(),
        ensures
            count == self.map().len(),
    {
        self.descriptor_count
    }

    /// Returns the active EFI memory descriptors.
    pub fn descriptors(&self) -> (active: &[EFI_MEMORY_DESCRIPTOR])
        requires
            self.fits(),
        ensures
            active@ == self.map(),
    {
        let active = &self.descriptors[0..self.descriptor_count];
        assert(active@ =~= self.map());
        active
    }

    /// Reserves one region in the current EFI-style memory map.
    pub fn reserve_region(&mut self, region: MemoryRegion) -> (outcome: Result<(), MemoryError>)
        requires
            old(self).well_formed(),
        ensures
            final(self).well_formed(),
            final(self).capacity() == old(self).capacity(),
            final(final(self).buffer())@ == final(old(self).buffer())@,
            ({
                let after = region_carved(old(self).map(), region, 0, old(self).capacity());
                outcome == after.outcome && final(self).map() == if outcome is Ok {
                    coalesced(after.map)
                } else {
                    after.map
                }
            }),
    {
        match self.add_reserved_region(region) {
            Ok(done) => {
                assert(done == ());
            },
            Err(error) => return Err(error),
        }
        proof {
            sound_map_is_sorted(self.map());
            coalescing_keeps_kinds(self.map());
        }
        self.coalesce();
        Ok(())
    }

    /// Allocates pages using EFI `AllocatePages` parameter names and types.
    /// `Memory` holds the limit or the address asked for, and receives the address
    /// of the allocation. A request that is refused changes nothing.
    #[allow(non_snake_case)]
    pub fn AllocatePages(
        &mut self,
        Type: EFI_ALLOCATE_TYPE,
        MemoryType: EFI_MEMORY_TYPE,
        Pages: usize,
        Memory: &mut u64,
    ) -> (outcome: Result<(), MemoryError>)
        requires
            old(self).well_formed(),
        ensures
            final(self).well_formed(),
            final(self).capacity() == old(self).capacity(),
            final(final(self).buffer())@ == final(old(self).buffer())@,
            match allocation(
                old(self).map(),
                Type,
                MemoryType,
                Pages,
                *old(Memory),
                old(self).capacity(),
            ) {
                Ok((start, after)) => outcome is Ok && *final(Memory) == start && final(self).map()
                    == after,
                Err(error) => outcome == Err::<(), MemoryError>(error) && *final(Memory) == *old(
                    Memory,
                ) && final(self).map() == old(self).map(),
            },
    {
        if Pages == 0 || MemoryType == EFI_MEMORY_TYPE::EfiMaxMemoryType || Type
            == EFI_ALLOCATE_TYPE::MaxAllocateType {
            return Err(MemoryError::InvalidParameter);
        }
        let bytes: u64 = match pages_to_bytes(Pages) {
            Ok(bytes) => bytes,
            Err(error) => return Err(error),
        };
        let start: u64 = match Type {
            EFI_ALLOCATE_TYPE::AllocateAnyPages => match self.find_allocation_any_pages(bytes) {
                Ok(start) => start,
                Err(error) => return Err(error),
            },
            EFI_ALLOCATE_TYPE::AllocateMaxAddress => match self.find_allocation_max_address(
                bytes,
                *Memory,
            ) {
                Ok(start) => start,
                Err(error) => return Err(error),
            },
            EFI_ALLOCATE_TYPE::AllocateAddress => {
                if *Memory % 4096 != 0 {
                    return Err(MemoryError::InvalidParameter);
                }
                *Memory
            },
            EFI_ALLOCATE_TYPE::MaxAllocateType => return Err(MemoryError::InvalidParameter),
        };
        proof {
            best_place_is_aligned(self.map(), bytes as int, Placement::Anywhere);
            best_place_is_aligned(self.map(), bytes as int, Placement::UpTo(*Memory));
        }
        match self.allocate_exact_range(start, Pages as u64, MemoryType) {
            Ok(()) => {},
            Err(error) => return Err(error),
        }
        *Memory = start;
        Ok(())
    }

    /// Allocates enough 4 KiB pages to cover `size_bytes` from high memory.
    pub fn allocate_pages_for_size(&mut self, memory_type: EFI_MEMORY_TYPE, size_bytes: usize) -> (
    start: Result<u64, MemoryError>)
        requires
            old(self).well_formed(),
        ensures
            final(self).well_formed(),
            final(self).capacity() == old(self).capacity(),
            final(final(self).buffer())@ == final(old(self).buffer())@,
            match size_allocation(
                old(self).map(),
                memory_type,
                size_bytes,
                old(self).capacity(),
            ) {
                Ok((place, after)) => start == Ok::<u64, MemoryError>(place) && final(self).map()
                    == after,
                Err(error) => start == Err::<u64, MemoryError>(error) && final(self).map() == old(
                    self,
                ).map(),
            },
    {
        if memory_type == EFI_MEMORY_TYPE::EfiMaxMemoryType {
            return Err(MemoryError::InvalidParameter);
        }
        let page_count: usize = match pages_for_size(size_bytes) {
            Ok(count) => count,
            Err(error) => return Err(error),
        };
        let mut allocation_start: u64 = 0;
        match self.AllocatePages(
            EFI_ALLOCATE_TYPE::AllocateAnyPages,
            memory_type,
            page_count,
            &mut allocation_start,
        ) {
            Ok(()) => Ok(allocation_start),
            Err(error) => Err(error),
        }
    }

    /// Allocates pages at an address aligned to a caller-selected boundary, which
    /// must be a non-zero multiple of 4 KiB.
    pub fn allocate_aligned_pages(
        &mut self,
        memory_type: EFI_MEMORY_TYPE,
        pages: usize,
        alignment: u64,
        direction: AllocationDirection,
    ) -> (start: Result<u64, MemoryError>)
        requires
            old(self).well_formed(),
        ensures
            final(self).well_formed(),
            final(self).capacity() == old(self).capacity(),
            final(final(self).buffer())@ == final(old(self).buffer())@,
            match aligned_allocation(
                old(self).map(),
                memory_type,
                pages as int,
                alignment,
                direction,
                old(self).capacity(),
            ) {
                Ok((place, after)) => start == Ok::<u64, MemoryError>(place) && final(self).map()
                    == after,
                Err(error) => start == Err::<u64, MemoryError>(error) && final(self).map() == old(
                    self,
                ).map(),
            },
    {
        if pages == 0 || memory_type == EFI_MEMORY_TYPE::EfiMaxMemoryType || alignment == 0
            || alignment % 4096 != 0 {
            return Err(MemoryError::InvalidParameter);
        }
        let bytes: u64 = match pages_to_bytes(pages) {
            Ok(bytes) => bytes,
            Err(error) => return Err(error),
        };
        let start: u64 = match self.find_aligned_allocation(bytes, alignment, direction) {
            Ok(start) => start,
            Err(error) => return Err(error),
        };
        proof {
            best_place_is_aligned(
                self.map(),
                bytes as int,
                aligned_placement(alignment, direction),
            );
        }
        match self.allocate_exact_range(start, pages as u64, memory_type) {
            Ok(()) => Ok(start),
            Err(error) => Err(error),
        }
    }

    /// Allocates enough 4 KiB pages to cover `size_bytes` at an aligned address
    /// chosen from the requested search direction.
    pub fn allocate_aligned_pages_for_size(
        &mut self,
        memory_type: EFI_MEMORY_TYPE,
        size_bytes: usize,
        alignment: u64,
        direction: AllocationDirection,
    ) -> (start: Result<u64, MemoryError>)
        requires
            old(self).well_formed(),
        ensures
            final(self).well_formed(),
            final(self).capacity() == old(self).capacity(),
            final(final(self).buffer())@ == final(old(self).buffer())@,
            ({
                let wanted = if memory_type is EfiMaxMemoryType {
                    Err(MemoryError::InvalidParameter)
                } else if size_bytes + 4095 > u64::MAX {
                    Err(MemoryError::AddressOverflow)
                } else {
                    aligned_allocation(
                        old(self).map(),
                        memory_type,
                        pages_needed(size_bytes as int),
                        alignment,
                        direction,
                        old(self).capacity(),
                    )
                };
                match wanted {
                    Ok((place, after)) => start == Ok::<u64, MemoryError>(place)
                        && final(self).map() == after,
                    Err(error) => start == Err::<u64, MemoryError>(error) && final(self).map()
                        == old(self).map(),
                }
            }),
    {
        if memory_type == EFI_MEMORY_TYPE::EfiMaxMemoryType {
            return Err(MemoryError::InvalidParameter);
        }
        let page_count: usize = match pages_for_size(size_bytes) {
            Ok(count) => count,
            Err(error) => return Err(error),
        };
        self.allocate_aligned_pages(memory_type, page_count, alignment, direction)
    }

    /// Frees pages using EFI `FreePages` parameter names and types. A request that
    /// is refused changes nothing.
    #[allow(non_snake_case)]
    pub fn FreePages(&mut self, Memory: u64, Pages: usize) -> (outcome: Result<(), MemoryError>)
        requires
            old(self).well_formed(),
        ensures
            final(self).well_formed(),
            final(self).capacity() == old(self).capacity(),
            final(final(self).buffer())@ == final(old(self).buffer())@,
            ({
                let wanted = if Pages == 0 || Memory % 4096 != 0 {
                    Err(MemoryError::InvalidParameter)
                } else {
                    released(old(self).map(), Memory, Pages as u64, old(self).capacity())
                };
                match wanted {
                    Ok(after) => outcome is Ok && final(self).map() == after,
                    Err(error) => outcome == Err::<(), MemoryError>(error) && final(self).map()
                        == old(self).map(),
                }
            }),
    {
        if Pages == 0 || Memory % 4096 != 0 {
            return Err(MemoryError::InvalidParameter);
        }
        self.free_exact_range(Memory, Pages as u64)
    }
}

/// Builds a page allocator from the device tree at `address`. `memory` is what
/// can be read from that address on.
pub fn page_allocator_from_live_fdt<'a>(
    address: usize,
    memory: &[u8],
    memory_regions: &mut [MemoryRegion],
    reserved_regions: &mut [MemoryRegion],
    firmware: &FirmwareRanges,
    descriptors: &'a mut [EFI_MEMORY_DESCRIPTOR],
) -> (allocator: Option<PageAllocator<'a>>)
    ensures
        final(memory_regions)@ == if fdt_fault(address, memory@) is Some {
            old(memory_regions)@
        } else {
            filled(
                old(memory_regions)@,
                tree_memory(structure_of(memory@), strings_of(memory@)),
            )
        },
        final(reserved_regions)@ == if fdt_fault(address, memory@) is Some {
            old(reserved_regions)@
        } else {
            filled(
                old(reserved_regions)@,
                all_reserved(reserve_map_of(memory@), structure_of(memory@), strings_of(memory@)),
            )
        },
        ({
            let built = map_of_tree(
                parts_of_tree(
                    address,
                    be32(memory@, 4) as usize,
                    reserve_map_of(memory@),
                    structure_of(memory@),
                    strings_of(memory@),
                    old(memory_regions)@.len(),
                    old(reserved_regions)@.len(),
                ),
                *firmware,
                old(descriptors)@.len(),
            );
            match allocator {
                Some(ready) => fdt_fault(address, memory@) is None && ready.well_formed() && built
                    == Ok::<Seq<EFI_MEMORY_DESCRIPTOR>, MemoryError>(ready.map())
                    && ready.capacity() == old(descriptors)@.len() && final(ready.buffer())@
                    == final(descriptors)@,
                None => fdt_fault(address, memory@) is Some || built is Err,
            }
        }),
{
    let fdt = match Fdt::from_ptr(address, memory) {
        Ok(fdt) => fdt,
        Err(_) => return None,
    };
    match PageAllocator::from_fdt(&fdt, memory_regions, reserved_regions, firmware, descriptors) {
        Ok(allocator) => Some(allocator),
        Err(_) => None,
    }
}

/// Builds the active EFI-style memory map from an FDT and returns the number of
/// its descriptors.
pub fn memory_map_from_fdt(
    fdt: &Fdt<'_>,
    memory_regions: &mut [MemoryRegion],
    reserved_regions: &mut [MemoryRegion],
    firmware: &FirmwareRanges,
    descriptors: &mut [EFI_MEMORY_DESCRIPTOR],
) -> (count: Result<usize, MemoryError>)
    ensures
        final(memory_regions)@ == filled(
            old(memory_regions)@,
            tree_memory(fdt.structure(), fdt.strings()),
        ),
        final(reserved_regions)@ == filled(
            old(reserved_regions)@,
            all_reserved(fdt.reserve_map(), fdt.structure(), fdt.strings()),
        ),
        ({
            let built = map_of_tree(
                parts_of_tree(
                    fdt.base(),
                    fdt.total_size(),
                    fdt.reserve_map(),
                    fdt.structure(),
                    fdt.strings(),
                    old(memory_regions)@.len(),
                    old(reserved_regions)@.len(),
                ),
                *firmware,
                old(descriptors)@.len(),
            );
            match count {
                Ok(active) => active <= final(descriptors)@.len() && final(descriptors)@.len()
                    == old(descriptors)@.len() && built == Ok::<
                    Seq<EFI_MEMORY_DESCRIPTOR>,
                    MemoryError,
                >(final(descriptors)@.take(active as int)),
                Err(error) => built == Err::<Seq<EFI_MEMORY_DESCRIPTOR>, MemoryError>(error),
            }
        }),
{
    let allocator = match PageAllocator::from_fdt(
        fdt,
        memory_regions,
        reserved_regions,
        firmware,
        descriptors,
    ) {
        Ok(allocator) => allocator,
        Err(error) => return Err(error),
    };
    let count = allocator.descriptor_count();
    proof {
        PageAllocator::buffer_released(allocator);
    }
    Ok(count)
}

/// The placement that an alignment and a search direction ask for.
pub open spec fn aligned_placement(alignment: u64, direction: AllocationDirection) -> Placement {
    match direction {
        AllocationDirection::Low => Placement::AlignedLow(alignment),
        AllocationDirection::High => Placement::AlignedHigh(alignment),
    }
}

/// The address at which an allocation request wants its pages, or why there is
/// none.
pub open spec fn requested_place(
    map: Seq<EFI_MEMORY_DESCRIPTOR>,
    policy: EFI_ALLOCATE_TYPE,
    pages: usize,
    memory: u64,
) -> Result<u64, MemoryError> {
    let bytes = pages * 4096;
    if bytes > u64::MAX {
        Err(MemoryError::AddressOverflow)
    } else {
        match policy {
            EFI_ALLOCATE_TYPE::AllocateAnyPages => place_found(map, bytes, Placement::Anywhere),
            EFI_ALLOCATE_TYPE::AllocateMaxAddress => place_found(
                map,
                bytes,
                Placement::UpTo(memory),
            ),
            EFI_ALLOCATE_TYPE::AllocateAddress => if memory % 4096 != 0 {
                Err(MemoryError::InvalidParameter)
            } else {
                Ok(memory)
            },
            EFI_ALLOCATE_TYPE::MaxAllocateType => Err(MemoryError::InvalidParameter),
        }
    }
}

/// The address and the new map that an allocation request gets, or why it is
/// refused.
pub open spec fn allocation(
    map: Seq<EFI_MEMORY_DESCRIPTOR>,
    policy: EFI_ALLOCATE_TYPE,
    memory_type: EFI_MEMORY_TYPE,
    pages: usize,
    memory: u64,
    capacity: nat,
) -> Result<(u64, Seq<EFI_MEMORY_DESCRIPTOR>), MemoryError> {
    if pages == 0 || memory_type is EfiMaxMemoryType || policy is MaxAllocateType {
        Err(MemoryError::InvalidParameter)
    } else {
        match requested_place(map, policy, pages, memory) {
            Err(error) => Err(error),
            Ok(start) => match allocated(map, start, pages as u64, memory_type.code(), capacity) {
                Ok(after) => Ok((start, after)),
                Err(error) => Err(error),
            },
        }
    }
}

/// The address and the new map that a request for `size_bytes` bytes gets.
pub open spec fn size_allocation(
    map: Seq<EFI_MEMORY_DESCRIPTOR>,
    memory_type: EFI_MEMORY_TYPE,
    size_bytes: usize,
    capacity: nat,
) -> Result<(u64, Seq<EFI_MEMORY_DESCRIPTOR>), MemoryError> {
    if memory_type is EfiMaxMemoryType {
        Err(MemoryError::InvalidParameter)
    } else if size_bytes + 4095 > u64::MAX {
        Err(MemoryError::AddressOverflow)
    } else {
        allocation(
            map,
            EFI_ALLOCATE_TYPE::AllocateAnyPages,
            memory_type,
            pages_needed(size_bytes as int) as usize,
            0,
            capacity,
        )
    }
}

/// The address and the new map that an aligned allocation request gets, or why
/// it is refused.
pub open spec fn aligned_allocation(
    map: Seq<EFI_MEMORY_DESCRIPTOR>,
    memory_type: EFI_MEMORY_TYPE,
    pages: int,
    alignment: u64,
    direction: AllocationDirection,
    capacity: nat,
) -> Result<(u64, Seq<EFI_MEMORY_DESCRIPTOR>), MemoryError> {
    if pages == 0 || memory_type is EfiMaxMemoryType || alignment == 0 || alignment % 4096 != 0 {
        Err(MemoryError::InvalidParameter)
    } else if pages * 4096 > u64::MAX {
        Err(MemoryError::AddressOverflow)
    } else {
        match place_found(map, pages * 4096, aligned_placement(alignment, direction)) {
            Err(error) => Err(error),
            Ok(start) => match allocated(map, start, pages as u64, memory_type.code(), capacity) {
                Ok(after) => Ok((start, after)),
                Err(error) => Err(error),
            },
        }
    }
}

/// Whether a placement can only give addresses of whole pages.
pub open spec fn places_pages(placement: Placement) -> bool {
    match placement {
        Placement::AlignedLow(alignment) => alignment > 0 && alignment % 4096 == 0,
        Placement::AlignedHigh(alignment) => alignment > 0 && alignment % 4096 == 0,
        _ => true,
    }
}

/// The best place for whole pages starts on a page, and on a multiple of the
/// alignment where one was asked for.
pub proof fn best_place_is_aligned(
    map: Seq<EFI_MEMORY_DESCRIPTOR>,
    bytes: int,
    placement: Placement,
)
    requires
        map_sound(map),
        bytes % 4096 == 0,
        places_pages(placement),
    ensures
        best_place(map, bytes, placement) matches Some(place) ==> place % 4096 == 0 && 0 <= place
            && place + bytes <= u64::MAX && match placement {
            Placement::AlignedLow(alignment) => place % alignment as int == 0,
            Placement::AlignedHigh(alignment) => place % alignment as int == 0,
            Placement::UpTo(limit) => place + bytes <= limit + 1,
            _ => true,
        },
{
    best_place_is_best(map, bytes, placement);
    if let Some(place) = best_place(map, bytes, placement) {
        let i = choose|i: int|
            0 <= i < map.len() && place_in(#[trigger] map[i], bytes, placement) == Some(place);
        assert(sound(map[i]));
        match placement {
            Placement::AlignedLow(alignment) => {
                multiples_are_pages(
                    (map[i].PhysicalStart + alignment - 1) / alignment as int,
                    alignment as int,
                );
            },
            Placement::AlignedHigh(alignment) => {
                multiples_are_pages((end_of(map[i]) - bytes) / alignment as int, alignment as int);
            },
            _ => {},
        }
    }
}

proof fn multiples_are_pages(factor: int, alignment: int)
    requires
        alignment > 0,
        alignment % 4096 == 0,
    ensures
        (factor * alignment) % 4096 == 0,
        (factor * alignment) % alignment == 0,
{
    let units = alignment / 4096;
    assert(factor * alignment == (factor * units) * 4096) by (nonlinear_arith)
        requires
            alignment == units * 4096,
    ;
    assert((factor * alignment) % alignment == 0) by (nonlinear_arith)
        requires
            alignment > 0,
    ;
}

/// The higher of a candidate and another address.
fn higher(candidate: Option<u64>, other: u64) -> (best: Option<u64>)
    ensures
        best == Some(
            if candidate is Some && candidate->0 > other {
                candidate->0
            } else {
                other
            },
        ),
{
    match candidate {
        Some(current) => if current > other {
            Some(current)
        } else {
            Some(other)
        },
        None => Some(other),
    }
}

/// The lower of a candidate and another address.
fn lower(candidate: Option<u64>, other: u64) -> (best: Option<u64>)
    ensures
        best == Some(
            if candidate is Some && candidate->0 < other {
                candidate->0
            } else {
                other
            },
        ),
{
    match candidate {
        Some(current) => if current < other {
            Some(current)
        } else {
            Some(other)
        },
        None => Some(other),
    }
}

/// Inserting regions ends at the first error.
proof fn insertion_stops_at_error(
    shorter: Seq<MemoryRegion>,
    longer: Seq<MemoryRegion>,
    capacity: nat,
)
    requires
        shorter.len() <= longer.len(),
        longer.take(shorter.len() as int) == shorter,
        regions_inserted(shorter, capacity).outcome is Err,
    ensures
        regions_inserted(longer, capacity) == regions_inserted(shorter, capacity),
    decreases longer.len(),
{
    if shorter.len() == longer.len() {
        assert(longer.take(shorter.len() as int) =~= longer);
    } else {
        assert(longer.drop_last().take(shorter.len() as int) =~= longer.take(shorter.len() as int));
        insertion_stops_at_error(shorter, longer.drop_last(), capacity);
    }
}

/// Carving regions ends at the first error.
proof fn carving_stops_at_error(
    map: Seq<EFI_MEMORY_DESCRIPTOR>,
    shorter: Seq<MemoryRegion>,
    longer: Seq<MemoryRegion>,
    kind: u32,
    capacity: nat,
)
    requires
        shorter.len() <= longer.len(),
        longer.take(shorter.len() as int) == shorter,
        regions_carved(map, shorter, kind, capacity).outcome is Err,
    ensures
        regions_carved(map, longer, kind, capacity) == regions_carved(map, shorter, kind, capacity),
    decreases longer.len(),
{
    if shorter.len() == longer.len() {
        assert(longer.take(shorter.len() as int) =~= longer);
    } else {
        assert(longer.drop_last().take(shorter.len() as int) =~= longer.take(shorter.len() as int));
        carving_stops_at_error(map, shorter, longer.drop_last(), kind, capacity);
    }
}

/// Inserting a descriptor of conventional memory keeps all of it conventional.
proof fn insertion_keeps_type(map: Seq<EFI_MEMORY_DESCRIPTOR>, descriptor: EFI_MEMORY_DESCRIPTOR)
    requires
        forall|i: int| 0 <= i < map.len() ==> (#[trigger] map[i]).Type == CONVENTIONAL,
        descriptor.Type == CONVENTIONAL,
        sorted_by_start(map),
    ensures
        forall|i: int|
            0 <= i < sorted_insert(map, descriptor).len() ==> (#[trigger] sorted_insert(
                map,
                descriptor,
            )[i]).Type == CONVENTIONAL,
{
    let place = place_behind(map, descriptor.PhysicalStart, 0);
    place_behind_is_bound(map, descriptor.PhysicalStart, 0);
    let after = sorted_insert(map, descriptor);
    assert forall|i: int| 0 <= i < after.len() implies (#[trigger] after[i]).Type == CONVENTIONAL by {
        if i < place {
            assert(after[i] == map[i]);
        } else if i > place {
            assert(after[i] == map[i - 1]);
        }
    }
}

} // verus!
