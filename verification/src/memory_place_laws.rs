//! Pages of memory regions, and places for allocations.

use vstd::prelude::*;
use crate::devicetree::MemoryRegion;
use crate::memory::{
    aligned_allocation, aligned_placement, allocation, AllocationDirection, EFI_ALLOCATE_TYPE,
    EFI_MEMORY_TYPE,
};
use crate::memory_laws::{in_region, touched};
use crate::memory_map::{
    best_place, best_place_is_best, covering_from, end_of, map_sound, multiple_above,
    multiple_below, place_in, region_pages, replaced, sound, MemoryError, Placement,
    EFI_MEMORY_DESCRIPTOR,
};

verus! {

/// The first byte of the page of an address.
pub open spec fn page_of(address: int) -> int {
    address - address % 4096
}

/// Whether a region holds an address.
pub open spec fn holds(region: MemoryRegion, address: int) -> bool {
    region.base <= address < region.base + region.size
}

/// The pages of a reserved region are those that hold a byte of it, where its last page ends
/// inside of the 64-bit addresses.
pub proof fn touched_pages_hold_a_byte(region: MemoryRegion, address: int)
    requires
        0 <= address,
        region.base + region.size + 4095 <= u64::MAX,
        region.size > 0,
    ensures
        touched(region, address) <==> exists|byte: int|
            #[trigger] holds(region, byte) && page_of(byte) == page_of(address),
{
    let base = region.base as int;
    let limit = base + region.size;
    if touched(region, address) {
        let byte = if address < base {
            base
        } else if address >= limit {
            limit - 1
        } else {
            address
        };
        assert(holds(region, byte) && page_of(byte) == page_of(address));
    }
    if exists|byte: int| #[trigger] holds(region, byte) && page_of(byte) == page_of(address) {
        let byte = choose|byte: int|
            #[trigger] holds(region, byte) && page_of(byte) == page_of(address);
        assert(touched(region, address));
    }
}

/// The pages of usable memory are those that lie in it as a whole.
pub proof fn usable_pages_are_whole(region: MemoryRegion, address: int)
    requires
        0 <= address,
        region.base + region.size <= u64::MAX,
        region.base + 4095 <= u64::MAX,
    ensures
        in_region(region, address) <==> holds(region, page_of(address)) && holds(
            region,
            page_of(address) + 4095,
        ),
{
}

/// The pages of a region are told exactly when its end is a 64-bit address, and so is what
/// rounding adds to it, or to its start where whole pages are asked for.
pub proof fn page_range_overflows(region: MemoryRegion, outward: bool)
    ensures
        region_pages(region, outward) is Err <==> region.base + region.size > u64::MAX || (outward
            && region.base + region.size > u64::MAX - 4095) || (!outward && region.base > u64::MAX
            - 4095),
        region_pages(region, outward) matches Err(error) ==> error == MemoryError::AddressOverflow,
{
}

/// Whether a range may be placed at an address of one descriptor: it lies in it, the memory is
/// free, and the place is one that is asked for.
pub open spec fn may_be_placed(
    descriptor: EFI_MEMORY_DESCRIPTOR,
    bytes: int,
    placement: Placement,
    place: int,
) -> bool {
    &&& descriptor.Type == 7
    &&& descriptor.PhysicalStart <= place
    &&& place + bytes <= descriptor.PhysicalStart + descriptor.NumberOfPages * 4096
    &&& match placement {
        Placement::Anywhere => place % 4096 == 0,
        Placement::UpTo(limit) => place % 4096 == 0 && place + bytes - 1 <= limit,
        Placement::AlignedLow(alignment) => place % alignment as int == 0,
        Placement::AlignedHigh(alignment) => place % alignment as int == 0,
    }
}

/// A range is placed in a descriptor wherever it can be: as low as possible where that is
/// asked for, else as high as possible.
#[verifier::spinoff_prover]
#[verifier::rlimit(40)]
pub proof fn place_is_extreme(
    descriptor: EFI_MEMORY_DESCRIPTOR,
    bytes: int,
    placement: Placement,
    other: int,
)
    requires
        sound(descriptor),
        bytes > 0,
        bytes % 4096 == 0,
        placement matches Placement::AlignedLow(alignment) ==> alignment > 0,
        placement matches Placement::AlignedHigh(alignment) ==> alignment > 0,
    ensures
        place_in(descriptor, bytes, placement) matches Some(place) ==> may_be_placed(
            descriptor,
            bytes,
            placement,
            place,
        ),
        may_be_placed(descriptor, bytes, placement, other) ==> (place_in(
            descriptor,
            bytes,
            placement,
        ) matches Some(place) && if placement is AlignedLow {
            place <= other
        } else {
            place >= other
        }),
{
    let start = descriptor.PhysicalStart as int;
    let end = end_of(descriptor);
    match placement {
        Placement::Anywhere => {},
        Placement::UpTo(limit) => {},
        Placement::AlignedLow(alignment) => {
            multiples_bound(start, alignment as int, other);
        },
        Placement::AlignedHigh(alignment) => {
            multiples_bound(end - bytes, alignment as int, other);
        },
    }
}

/// The multiples around a value are the nearest ones.
pub proof fn multiples_bound(value: int, unit: int, other: int)
    requires
        unit > 0,
    ensures
        multiple_below(value, unit) % unit == 0,
        multiple_above(value, unit) % unit == 0,
        multiple_below(value, unit) <= value <= multiple_above(value, unit),
        other % unit == 0 && other <= value ==> other <= multiple_below(value, unit),
        other % unit == 0 && other >= value ==> other >= multiple_above(value, unit),
{
    let low = value / unit;
    let high = (value + unit - 1) / unit;
    vstd::arithmetic::div_mod::lemma_fundamental_div_mod(value, unit);
    vstd::arithmetic::div_mod::lemma_fundamental_div_mod(value + unit - 1, unit);
    vstd::arithmetic::div_mod::lemma_fundamental_div_mod(other, unit);
    vstd::arithmetic::div_mod::lemma_mod_multiples_basic(low, unit);
    vstd::arithmetic::div_mod::lemma_mod_multiples_basic(high, unit);
    let steps = other / unit;
    assert(low * unit <= value < low * unit + unit) by (nonlinear_arith)
        requires
            value == unit * low + value % unit,
            0 <= value % unit < unit,
    ;
    assert(high * unit - unit < value <= high * unit) by (nonlinear_arith)
        requires
            value + unit - 1 == unit * high + (value + unit - 1) % unit,
            0 <= (value + unit - 1) % unit < unit,
    ;
    if other % unit == 0 {
        assert(other == steps * unit) by (nonlinear_arith)
            requires
                other == unit * steps + other % unit,
                other % unit == 0,
        ;
        if other <= value {
            assert(steps <= low) by (nonlinear_arith)
                requires
                    steps * unit <= value,
                    value < low * unit + unit,
                    unit > 0,
            ;
            assert(steps * unit <= low * unit) by (nonlinear_arith)
                requires
                    steps <= low,
                    unit > 0,
            ;
        }
        if other >= value {
            assert(steps >= high) by (nonlinear_arith)
                requires
                    steps * unit >= value,
                    high * unit - unit < value,
                    unit > 0,
            ;
            assert(steps * unit >= high * unit) by (nonlinear_arith)
                requires
                    steps >= high,
                    unit > 0,
            ;
        }
    }
}

/// A range that one descriptor covers is found there.
proof fn covering_descriptor_is_found(
    map: Seq<EFI_MEMORY_DESCRIPTOR>,
    start: int,
    end: int,
    index: int,
    from: int,
)
    requires
        map_sound(map),
        start < end,
        0 <= from <= index < map.len(),
        map[index].PhysicalStart <= start,
        end <= end_of(map[index]),
    ensures
        covering_from(map, start, end, from) == Some(index),
    decreases index - from,
{
    if from < index {
        assert(end_of(map[from]) <= map[index].PhysicalStart);
        covering_descriptor_is_found(map, start, end, index, from + 1);
    }
}

/// Whether a policy allows a range of pages at a place.
pub open spec fn policy_allows(policy: EFI_ALLOCATE_TYPE, memory: u64, bytes: int, place: int) -> bool {
    match policy {
        EFI_ALLOCATE_TYPE::AllocateAnyPages => true,
        EFI_ALLOCATE_TYPE::AllocateMaxAddress => place + bytes - 1 <= memory,
        EFI_ALLOCATE_TYPE::AllocateAddress => place == memory,
        EFI_ALLOCATE_TYPE::MaxAllocateType => false,
    }
}

/// A request for pages is granted where free memory that the policy allows is in the map and
/// there is room for two more descriptors, and gets the highest such place.
#[verifier::spinoff_prover]
#[verifier::rlimit(40)]
pub proof fn request_is_granted_where_it_can_be(
    map: Seq<EFI_MEMORY_DESCRIPTOR>,
    policy: EFI_ALLOCATE_TYPE,
    memory_type: EFI_MEMORY_TYPE,
    pages: usize,
    memory: u64,
    capacity: nat,
    index: int,
    place: int,
)
    requires
        map_sound(map),
        map.len() + 2 <= capacity,
        !(memory_type is EfiMaxMemoryType),
        pages > 0,
        0 <= index < map.len(),
        map[index].Type == 7,
        map[index].PhysicalStart <= place,
        place + pages * 4096 <= map[index].PhysicalStart + map[index].NumberOfPages * 4096,
        place % 4096 == 0,
        policy_allows(policy, memory, pages * 4096, place),
    ensures
        allocation(map, policy, memory_type, pages, memory, capacity) matches Ok((start, _))
            && start >= place && policy_allows(policy, memory, pages * 4096, start as int),
{
    let bytes = pages * 4096;
    assert(sound(map[index]));
    let placement = match policy {
        EFI_ALLOCATE_TYPE::AllocateMaxAddress => Placement::UpTo(memory),
        _ => Placement::Anywhere,
    };
    place_is_extreme(map[index], bytes, placement, place);
    best_place_is_best(map, bytes, placement);
    let start = if policy is AllocateAddress {
        place
    } else {
        best_place(map, bytes, placement)->0
    };
    let home = if policy is AllocateAddress {
        index
    } else {
        choose|i: int| 0 <= i < map.len() && place_in(#[trigger] map[i], bytes, placement) == Some(start)
    };
    assert(sound(map[home]));
    if !(policy is AllocateAddress) {
        place_is_extreme(map[home], bytes, placement, start);
    }
    covering_descriptor_is_found(map, start, start + bytes, home, 0);
    let after = replaced(map, home, start, start + bytes, memory_type.code());
    assert(after.len() <= map.len() + 2);
}

/// A request that no free memory of the map can meet is refused for want of memory.
pub proof fn request_without_memory_is_refused(
    map: Seq<EFI_MEMORY_DESCRIPTOR>,
    policy: EFI_ALLOCATE_TYPE,
    memory_type: EFI_MEMORY_TYPE,
    pages: usize,
    memory: u64,
    capacity: nat,
)
    requires
        map_sound(map),
        !(memory_type is EfiMaxMemoryType),
        pages > 0,
        pages * 4096 <= u64::MAX,
        policy is AllocateAnyPages || policy is AllocateMaxAddress,
        forall|i: int, place: int|
            0 <= i < map.len() && place % 4096 == 0 && policy_allows(
                policy,
                memory,
                pages * 4096,
                place,
            ) ==> !#[trigger] may_be_placed(
                map[i],
                pages * 4096,
                Placement::Anywhere,
                place,
            ),
    ensures
        allocation(map, policy, memory_type, pages, memory, capacity) == Err::<
            (u64, Seq<EFI_MEMORY_DESCRIPTOR>),
            MemoryError,
        >(MemoryError::OutOfResources),
{
    let bytes = pages * 4096;
    let placement = match policy {
        EFI_ALLOCATE_TYPE::AllocateMaxAddress => Placement::UpTo(memory),
        _ => Placement::Anywhere,
    };
    assert forall|i: int| 0 <= i < map.len() implies place_in(
        #[trigger] map[i],
        bytes,
        placement,
    ) is None by {
        assert(sound(map[i]));
        if let Some(place) = place_in(map[i], bytes, placement) {
            place_is_extreme(map[i], bytes, placement, place);
            assert(may_be_placed(map[i], bytes, Placement::Anywhere, place));
        }
    }
    best_place_is_best(map, bytes, placement);
}

/// An aligned request is granted where free memory at a multiple of the alignment is in the
/// map and there is room for two more descriptors. It gets the lowest or the highest such
/// place, as it asks.
#[verifier::spinoff_prover]
#[verifier::rlimit(40)]
pub proof fn aligned_request_is_granted_where_it_can_be(
    map: Seq<EFI_MEMORY_DESCRIPTOR>,
    memory_type: EFI_MEMORY_TYPE,
    pages: int,
    alignment: u64,
    direction: AllocationDirection,
    capacity: nat,
    index: int,
    place: int,
)
    requires
        map_sound(map),
        map.len() + 2 <= capacity,
        !(memory_type is EfiMaxMemoryType),
        0 < pages <= usize::MAX,
        alignment > 0,
        alignment % 4096 == 0,
        0 <= index < map.len(),
        map[index].Type == 7,
        map[index].PhysicalStart <= place,
        place + pages * 4096 <= map[index].PhysicalStart + map[index].NumberOfPages * 4096,
        place % alignment as int == 0,
        forall|i: int|
            0 <= i < map.len() ==> (#[trigger] map[i]).PhysicalStart + alignment - 1 <= u64::MAX,
    ensures
        aligned_allocation(map, memory_type, pages, alignment, direction, capacity) matches Ok(
            (start, _),
        ) && start as int % alignment as int == 0 && match direction {
            AllocationDirection::Low => start <= place,
            AllocationDirection::High => start >= place,
        },
{
    let bytes = pages * 4096;
    let placement = aligned_placement(alignment, direction);
    assert(sound(map[index]));
    place_is_extreme(map[index], bytes, placement, place);
    best_place_is_best(map, bytes, placement);
    let start = best_place(map, bytes, placement)->0;
    let home = choose|i: int|
        0 <= i < map.len() && place_in(#[trigger] map[i], bytes, placement) == Some(start);
    assert(sound(map[home]));
    place_is_extreme(map[home], bytes, placement, start);
    covering_descriptor_is_found(map, start, start + bytes, home, 0);
    let after = replaced(map, home, start, start + bytes, memory_type.code());
    assert(after.len() <= map.len() + 2);
}

} // verus!
