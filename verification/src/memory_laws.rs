//! What the memory maps of device trees say of each address.

use vstd::prelude::*;
use crate::devicetree::MemoryRegion;
use crate::memory::{
    aligned_allocation, aligned_placement, allocation, best_place_is_aligned, firmware_carved,
    map_of_regions, map_of_tree, memory_laid_out, of_kind, AllocationDirection, FirmwareRanges,
    TreeParts, EFI_ALLOCATE_TYPE, EFI_MEMORY_TYPE,
};
use crate::memory_map::{
    all_sound, allocated, allocation_changes_range, carving_changes_range, coalesced,
    coalesced_from, coalescing_keeps_kinds, coalescing_one_kind, covering_covers, covering_from,
    covers, end_of, fully_merged, kind_at, kind_of_covered, map_sound, mergeable, merged,
    merging_keeps_order, place_behind, place_behind_is_bound, range_of, region_carved, region_pages,
    regions_carved, regions_inserted, release_undoes_allocation, released, replaced,
    replaced_changes_range, sorted_by_start, sorted_insert, sorted_insert_keeps_order, sound,
    span_carved, Carving, MemoryError, Placement, CONVENTIONAL, EFI_MEMORY_DESCRIPTOR,
};

verus! {

/// Whether an address lies in a page that a region touches.
pub open spec fn touched(region: MemoryRegion, address: int) -> bool {
    region_pages(region, true) matches Ok(Some((start, end))) && start <= address < end
}

/// Whether an address lies in a page that one of the regions touches.
pub open spec fn any_touched(regions: Seq<MemoryRegion>, address: int) -> bool {
    exists|i: int| 0 <= i < regions.len() && touched(#[trigger] regions[i], address)
}

/// Whether an address lies in a page that the range from `start` to `end` touches.
pub open spec fn span_touched(start: u64, end: u64, address: int) -> bool {
    start < end && touched(MemoryRegion { base: start, size: (end - start) as u64 }, address)
}

/// Whether a map is another one in which the conventional memory at some addresses
/// has become memory of a kind.
pub open spec fn carves(
    before: Seq<EFI_MEMORY_DESCRIPTOR>,
    after: Seq<EFI_MEMORY_DESCRIPTOR>,
    chosen: spec_fn(int) -> bool,
    kind: u32,
) -> bool {
    forall|address: int|
        #![trigger kind_at(after, address)]
        kind_at(after, address) == if kind_at(before, address) == Some(CONVENTIONAL) && chosen(
            address,
        ) {
            Some(kind)
        } else {
            kind_at(before, address)
        }
}

/// Carving a region changes the conventional memory of the pages that it touches.
pub proof fn region_carved_kinds(
    map: Seq<EFI_MEMORY_DESCRIPTOR>,
    region: MemoryRegion,
    kind: u32,
    capacity: nat,
)
    requires
        map_sound(map),
        map.len() <= capacity,
        kind != CONVENTIONAL,
        region_carved(map, region, kind, capacity).outcome is Ok,
    ensures
        map_sound(region_carved(map, region, kind, capacity).map),
        region_carved(map, region, kind, capacity).map.len() <= capacity,
        carves(
            map,
            region_carved(map, region, kind, capacity).map,
            |address: int| touched(region, address),
            kind,
        ),
{
    if let Ok(Some((start, end))) = region_pages(region, true) {
        carving_changes_range(map, start, end, kind, capacity);
    }
}

/// Carving regions changes the conventional memory of the pages that they touch.
pub proof fn regions_carved_kinds(
    map: Seq<EFI_MEMORY_DESCRIPTOR>,
    regions: Seq<MemoryRegion>,
    kind: u32,
    capacity: nat,
)
    requires
        map_sound(map),
        map.len() <= capacity,
        kind != CONVENTIONAL,
        regions_carved(map, regions, kind, capacity).outcome is Ok,
    ensures
        map_sound(regions_carved(map, regions, kind, capacity).map),
        regions_carved(map, regions, kind, capacity).map.len() <= capacity,
        carves(
            map,
            regions_carved(map, regions, kind, capacity).map,
            |address: int| any_touched(regions, address),
            kind,
        ),
    decreases regions.len(),
{
    if regions.len() > 0 {
        let earlier = regions.drop_last();
        regions_carved_kinds(map, earlier, kind, capacity);
        let before = regions_carved(map, earlier, kind, capacity).map;
        region_carved_kinds(before, regions.last(), kind, capacity);
        let after = regions_carved(map, regions, kind, capacity).map;
        assert forall|address: int|
            #![trigger kind_at(after, address)]
            kind_at(after, address) == if kind_at(map, address) == Some(CONVENTIONAL)
                && any_touched(regions, address) {
                Some(kind)
            } else {
                kind_at(map, address)
            } by {
            assert(kind_at(before, address) == if kind_at(map, address) == Some(CONVENTIONAL)
                && any_touched(earlier, address) {
                Some(kind)
            } else {
                kind_at(map, address)
            });
            if any_touched(earlier, address) {
                let i = choose|i: int|
                    0 <= i < earlier.len() && touched(#[trigger] earlier[i], address);
                assert(touched(regions[i], address));
            }
            if touched(regions.last(), address) {
                assert(touched(regions[regions.len() - 1], address));
            }
            if any_touched(regions, address) && !touched(regions.last(), address) {
                let i = choose|i: int|
                    0 <= i < regions.len() && touched(#[trigger] regions[i], address);
                assert(touched(earlier[i], address));
            }
        }
    }
}

/// Carving a span changes the conventional memory of the pages that it touches.
proof fn span_carved_kinds(
    carving: Carving,
    start: u64,
    end: u64,
    kind: u32,
    capacity: nat,
)
    requires
        map_sound(carving.map),
        carving.map.len() <= capacity,
        kind != CONVENTIONAL,
        span_carved(carving, start, end, kind, capacity).outcome is Ok,
    ensures
        carving.outcome is Ok,
        map_sound(span_carved(carving, start, end, kind, capacity).map),
        span_carved(carving, start, end, kind, capacity).map.len() <= capacity,
        carves(
            carving.map,
            span_carved(carving, start, end, kind, capacity).map,
            |address: int| span_touched(start, end, address),
            kind,
        ),
{
    if start < end {
        let region = MemoryRegion { base: start, size: (end - start) as u64 };
        region_carved_kinds(carving.map, region, kind, capacity);
        let after = span_carved(carving, start, end, kind, capacity).map;
        assert forall|address: int|
            #![trigger kind_at(after, address)]
            kind_at(after, address) == if kind_at(carving.map, address) == Some(CONVENTIONAL)
                && span_touched(start, end, address) {
                Some(kind)
            } else {
                kind_at(carving.map, address)
            } by {
            assert(touched(region, address) == span_touched(start, end, address));
        }
    }
}

/// The kind that the firmware's own ranges give to an address of conventional memory.
pub open spec fn firmware_kind(firmware: FirmwareRanges, address: int) -> u32 {
    if span_touched(firmware.code_start, firmware.code_end, address) {
        3
    } else if span_touched(firmware.data_start, firmware.data_end, address) || span_touched(
        firmware.heap_start,
        firmware.heap_end,
        address,
    ) || span_touched(firmware.stack_bottom, firmware.stack_top, address) {
        4
    } else {
        CONVENTIONAL
    }
}

/// Carving the firmware's own ranges gives their kinds to conventional memory.
proof fn firmware_carved_kinds(carving: Carving, firmware: FirmwareRanges, capacity: nat)
    requires
        carving.outcome is Ok ==> map_sound(carving.map) && carving.map.len() <= capacity,
        firmware_carved(carving, firmware, capacity).outcome is Ok,
    ensures
        carving.outcome is Ok,
        map_sound(firmware_carved(carving, firmware, capacity).map),
        firmware_carved(carving, firmware, capacity).map.len() <= capacity,
        forall|address: int|
            #![trigger kind_at(firmware_carved(carving, firmware, capacity).map, address)]
            kind_at(firmware_carved(carving, firmware, capacity).map, address) == if kind_at(
                carving.map,
                address,
            ) == Some(CONVENTIONAL) {
                Some(firmware_kind(firmware, address))
            } else {
                kind_at(carving.map, address)
            },
{
    let code = span_carved(carving, firmware.code_start, firmware.code_end, 3, capacity);
    let data = span_carved(code, firmware.data_start, firmware.data_end, 4, capacity);
    let heap = span_carved(data, firmware.heap_start, firmware.heap_end, 4, capacity);
    let after = span_carved(heap, firmware.stack_bottom, firmware.stack_top, 4, capacity);
    assert(carving.outcome is Ok && code.outcome is Ok && data.outcome is Ok && heap.outcome is Ok);
    span_carved_kinds(carving, firmware.code_start, firmware.code_end, 3, capacity);
    span_carved_kinds(code, firmware.data_start, firmware.data_end, 4, capacity);
    span_carved_kinds(data, firmware.heap_start, firmware.heap_end, 4, capacity);
    span_carved_kinds(heap, firmware.stack_bottom, firmware.stack_top, 4, capacity);
    assert forall|address: int|
        #![trigger kind_at(after.map, address)]
        kind_at(after.map, address) == if kind_at(carving.map, address) == Some(CONVENTIONAL) {
            Some(firmware_kind(firmware, address))
        } else {
            kind_at(carving.map, address)
        } by {
        let first = kind_at(code.map, address);
        let second = kind_at(data.map, address);
        let third = kind_at(heap.map, address);
    }
}

/// Whether an address lies in a whole page of one of the regions.
pub open spec fn in_regions(regions: Seq<MemoryRegion>, address: int) -> bool {
    exists|i: int| 0 <= i < regions.len() && in_region(#[trigger] regions[i], address)
}

/// Whether an address lies in a whole page of a region.
pub open spec fn in_region(region: MemoryRegion, address: int) -> bool {
    region_pages(region, false) matches Ok(Some((start, end))) && start <= address < end
}

/// Whether a descriptor of a map covers an address.
pub open spec fn covered(map: Seq<EFI_MEMORY_DESCRIPTOR>, address: int) -> bool {
    exists|i: int| 0 <= i < map.len() && covers(#[trigger] map[i], address)
}

/// Whether a descriptor is the whole pages of one of the regions.
pub open spec fn from_regions(descriptor: EFI_MEMORY_DESCRIPTOR, regions: Seq<MemoryRegion>) -> bool {
    exists|i: int| 0 <= i < regions.len() && is_region(descriptor, #[trigger] regions[i])
}

/// Whether a descriptor is the whole pages of a region.
pub open spec fn is_region(descriptor: EFI_MEMORY_DESCRIPTOR, region: MemoryRegion) -> bool {
    region_pages(region, false) matches Ok(Some((start, end))) && descriptor.PhysicalStart == start
        && end_of(descriptor) == end
}

/// The list of inserted regions is sorted conventional memory, and each descriptor is
/// a region.
proof fn inserted_regions(regions: Seq<MemoryRegion>, capacity: nat)
    requires
        regions_inserted(regions, capacity).outcome is Ok,
    ensures
        ({
            let map = regions_inserted(regions, capacity).map;
            &&& all_sound(map)
            &&& sorted_by_start(map)
            &&& map.len() <= capacity
            &&& forall|i: int|
                0 <= i < map.len() ==> (#[trigger] map[i]).Type == CONVENTIONAL && from_regions(
                    map[i],
                    regions,
                )
        }),
    decreases regions.len(),
{
    let map = regions_inserted(regions, capacity).map;
    if regions.len() > 0 {
        let earlier = regions.drop_last();
        let last = regions.last();
        inserted_regions(earlier, capacity);
        let before = regions_inserted(earlier, capacity).map;
        assert forall|i: int| 0 <= i < before.len() implies from_regions(
            #[trigger] before[i],
            regions,
        ) by {
            let k = choose|k: int|
                0 <= k < earlier.len() && is_region(before[i], #[trigger] earlier[k]);
            assert(is_region(before[i], regions[k]));
        }
        if let Ok(Some((start, end))) = region_pages(last, false) {
            let descriptor = range_of(CONVENTIONAL, start, end);
            page_range_is_sound(last);
            assert(is_region(descriptor, regions[regions.len() - 1]));
            assert(from_regions(descriptor, regions));
            insertion_keeps_shape(before, descriptor, regions);
        }
    }
}

/// Inserting a descriptor keeps a list sorted conventional memory of regions.
proof fn insertion_keeps_shape(
    before: Seq<EFI_MEMORY_DESCRIPTOR>,
    descriptor: EFI_MEMORY_DESCRIPTOR,
    regions: Seq<MemoryRegion>,
)
    requires
        all_sound(before),
        sorted_by_start(before),
        sound(descriptor),
        descriptor.Type == CONVENTIONAL,
        from_regions(descriptor, regions),
        forall|i: int|
            0 <= i < before.len() ==> (#[trigger] before[i]).Type == CONVENTIONAL && from_regions(
                before[i],
                regions,
            ),
    ensures
        ({
            let map = sorted_insert(before, descriptor);
            &&& all_sound(map)
            &&& sorted_by_start(map)
            &&& map.len() == before.len() + 1
            &&& forall|i: int|
                0 <= i < map.len() ==> (#[trigger] map[i]).Type == CONVENTIONAL && from_regions(
                    map[i],
                    regions,
                )
        }),
{
    let map = sorted_insert(before, descriptor);
    sorted_insert_keeps_order(before, descriptor);
    let place = place_behind(before, descriptor.PhysicalStart, 0);
    place_behind_is_bound(before, descriptor.PhysicalStart, 0);
    assert forall|i: int| 0 <= i < map.len() implies (#[trigger] map[i]).Type == CONVENTIONAL
        && from_regions(map[i], regions) by {
        if i < place {
            assert(map[i] == before[i]);
        } else if i > place {
            assert(map[i] == before[i - 1]);
        } else {
            assert(map[i] == descriptor);
        }
    }
}

/// The whole pages of a region make a sound descriptor.
proof fn page_range_is_sound(region: MemoryRegion)
    requires
        region_pages(region, false) matches Ok(Some(_)),
    ensures
        region_pages(region, false) matches Ok(Some((start, end))) && sound(
            range_of(CONVENTIONAL, start, end),
        ) && is_region(range_of(CONVENTIONAL, start, end), region),
{
}

/// The list of inserted regions covers their whole pages.
proof fn inserted_coverage(regions: Seq<MemoryRegion>, capacity: nat, address: int)
    requires
        regions_inserted(regions, capacity).outcome is Ok,
    ensures
        covered(regions_inserted(regions, capacity).map, address) == in_regions(regions, address),
    decreases regions.len(),
{
    let map = regions_inserted(regions, capacity).map;
    if regions.len() > 0 {
        let earlier = regions.drop_last();
        let last = regions.last();
        inserted_coverage(earlier, capacity, address);
        let before = regions_inserted(earlier, capacity).map;
        assert(in_regions(regions, address) == (in_regions(earlier, address) || in_region(
            last,
            address,
        ))) by {
            if in_regions(earlier, address) {
                let k = choose|k: int|
                    0 <= k < earlier.len() && in_region(#[trigger] earlier[k], address);
                assert(in_region(regions[k], address));
            }
            if in_region(last, address) {
                assert(in_region(regions[regions.len() - 1], address));
            }
            if in_regions(regions, address) {
                let k = choose|k: int|
                    0 <= k < regions.len() && in_region(#[trigger] regions[k], address);
                if k < earlier.len() {
                    assert(in_region(earlier[k], address));
                }
            }
        }
        if let Ok(Some((start, end))) = region_pages(last, false) {
            let descriptor = range_of(CONVENTIONAL, start, end);
            page_range_is_sound(last);
            insertion_coverage(
                before,
                place_behind(before, descriptor.PhysicalStart, 0),
                descriptor,
                address,
            );
        }
    }
}

/// A place behind is inside of the map.
proof fn place_is_inside(map: Seq<EFI_MEMORY_DESCRIPTOR>, start: u64, index: int)
    requires
        0 <= index <= map.len(),
    ensures
        index <= place_behind(map, start, index) <= map.len(),
    decreases map.len() - index,
{
    if index < map.len() && map[index].PhysicalStart <= start {
        place_is_inside(map, start, index + 1);
    }
}

/// Inserting a descriptor adds what it covers.
proof fn insertion_coverage(
    map: Seq<EFI_MEMORY_DESCRIPTOR>,
    place: int,
    descriptor: EFI_MEMORY_DESCRIPTOR,
    address: int,
)
    requires
        place == place_behind(map, descriptor.PhysicalStart, 0),
    ensures
        covered(sorted_insert(map, descriptor), address) == (covered(map, address) || covers(
            descriptor,
            address,
        )),
{
    place_is_inside(map, descriptor.PhysicalStart, 0);
    let after = sorted_insert(map, descriptor);
    if covered(map, address) {
        let i = choose|i: int| 0 <= i < map.len() && covers(#[trigger] map[i], address);
        if i < place {
            assert(covers(after[i], address));
        } else {
            assert(covers(after[i + 1], address));
        }
    }
    if covers(descriptor, address) {
        assert(covers(after[place], address));
    }
    if covered(after, address) {
        let i = choose|i: int| 0 <= i < after.len() && covers(#[trigger] after[i], address);
        if i < place {
            assert(covers(map[i], address));
        } else if i > place {
            assert(covers(map[i - 1], address));
        }
    }
}

/// Merging sorted descriptors of one kind covers the same addresses.
proof fn merging_coverage(map: Seq<EFI_MEMORY_DESCRIPTOR>, index: int, address: int)
    requires
        all_sound(map),
        sorted_by_start(map),
        0 <= index,
    ensures
        covered(coalesced_from(map, index), address) == covered(map, address),
    decreases map.len() - index,
{
    if index + 1 >= map.len() {
    } else if mergeable(map[index], map[index + 1]) {
        let after = merged(map, index);
        merging_keeps_order(map, index);
        merging_coverage(after, index, address);
        assert(after[index].PhysicalStart == map[index].PhysicalStart);
        assert(map[index].PhysicalStart <= map[index + 1].PhysicalStart);
        if covered(after, address) {
            let i = choose|i: int| 0 <= i < after.len() && covers(#[trigger] after[i], address);
            if i < index {
                assert(covers(map[i], address));
            } else if i > index {
                assert(covers(map[i + 1], address));
            } else if address < end_of(map[index]) {
                assert(covers(map[index], address));
            } else {
                assert(covers(map[index + 1], address));
            }
        }
        if covered(map, address) {
            let i = choose|i: int| 0 <= i < map.len() && covers(#[trigger] map[i], address);
            if i < index {
                assert(covers(after[i], address));
            } else if i > index + 1 {
                assert(covers(after[i - 1], address));
            } else {
                assert(covers(after[index], address));
            }
        }
    } else {
        merging_coverage(map, index + 1, address);
    }
}

/// The map of memory regions before anything is carved is sound and fully
/// conventional. It holds exactly the addresses in the whole pages of the regions.
pub proof fn laid_out_memory(regions: Seq<MemoryRegion>, capacity: nat)
    requires
        memory_laid_out(regions, capacity).outcome is Ok,
    ensures
        ({
            let map = memory_laid_out(regions, capacity).map;
            &&& map_sound(map)
            &&& map.len() <= capacity
            &&& forall|address: int|
                #![trigger kind_at(map, address)]
                kind_at(map, address) == if in_regions(regions, address) {
                    Some(CONVENTIONAL)
                } else {
                    None
                }
        }),
{
    let list = regions_inserted(regions, capacity).map;
    inserted_regions(regions, capacity);
    coalescing_one_kind(list, CONVENTIONAL);
    let map = coalesced(list);
    assert forall|address: int|
        #![trigger kind_at(map, address)]
        kind_at(map, address) == if in_regions(regions, address) {
            Some(CONVENTIONAL)
        } else {
            None::<u32>
        } by {
        merging_coverage(list, 0, address);
        inserted_coverage(regions, capacity, address);
        if covered(map, address) {
            let i = choose|i: int| 0 <= i < map.len() && covers(#[trigger] map[i], address);
            kind_of_covered(map, i, address);
        }
    }
}

/// The regions that may be mapped and those that may not are together all regions.
pub proof fn reserved_ranges_are_split(
    regions: Seq<MemoryRegion>,
    mappable: Seq<bool>,
    address: int,
)
    ensures
        any_touched(regions, address) == (any_touched(of_kind(regions, mappable, false), address)
            || any_touched(of_kind(regions, mappable, true), address)),
        of_kind(regions, mappable, false).len() + of_kind(regions, mappable, true).len()
            == regions.len(),
    decreases regions.len(),
{
    if regions.len() > 0 {
        let last = regions.len() - 1;
        let kind = mappable[last];
        reserved_ranges_are_split(regions.drop_last(), mappable, address);
        touched_by_one_more(regions.drop_last(), regions.last(), address);
        touched_by_one_more(
            of_kind(regions.drop_last(), mappable, kind),
            regions.last(),
            address,
        );
        assert(regions.drop_last().push(regions.last()) =~= regions);
    }
}

/// A longer list touches what the shorter one and its last region touch.
proof fn touched_by_one_more(regions: Seq<MemoryRegion>, last: MemoryRegion, address: int)
    ensures
        any_touched(regions.push(last), address) == (any_touched(regions, address) || touched(
            last,
            address,
        )),
{
    let longer = regions.push(last);
    if any_touched(regions, address) {
        let i = choose|i: int| 0 <= i < regions.len() && touched(#[trigger] regions[i], address);
        assert(longer[i] == regions[i]);
    }
    if touched(last, address) {
        assert(longer[regions.len() as int] == last);
    }
    if any_touched(longer, address) {
        let i = choose|i: int| 0 <= i < longer.len() && touched(#[trigger] longer[i], address);
        if i < regions.len() {
            assert(longer[i] == regions[i]);
        }
    }
}

/// The kind that the map of a device tree gives to an address of its memory.
pub open spec fn tree_kind(parts: TreeParts, firmware: FirmwareRanges, address: int) -> u32 {
    if touched(parts.blob, address) || any_touched(parts.unmapped, address) {
        0
    } else if any_touched(parts.mapped, address) {
        4
    } else {
        firmware_kind(firmware, address)
    }
}

/// The map of a device tree is sound and fits. It holds all memory of the tree and no
/// other, and says of each address what the first of these is that touches its page:
/// the tree itself or a range that must stay reserved, another reserved range, the
/// firmware; else it is free.
pub proof fn tree_map_kinds(parts: TreeParts, firmware: FirmwareRanges, capacity: nat)
    requires
        map_of_tree(parts, firmware, capacity) is Ok,
    ensures
        ({
            let map = map_of_tree(parts, firmware, capacity)->Ok_0;
            &&& map_sound(map)
            &&& map.len() <= capacity
            &&& forall|address: int|
                #![trigger kind_at(map, address)]
                kind_at(map, address) == if in_regions(parts.memory, address) {
                    Some(tree_kind(parts, firmware, address))
                } else {
                    None
                }
        }),
{
    let laid = memory_laid_out(parts.memory, capacity);
    laid_out_memory(parts.memory, capacity);
    let carved = region_carved(laid.map, parts.blob, 0, capacity);
    region_carved_kinds(laid.map, parts.blob, 0, capacity);
    coalescing_keeps_kinds(carved.map);
    let with_blob = coalesced(carved.map);
    let with_unmapped = regions_carved(with_blob, parts.unmapped, 0, capacity);
    regions_carved_kinds(with_blob, parts.unmapped, 0, capacity);
    let with_mapped = regions_carved(with_unmapped.map, parts.mapped, 4, capacity);
    regions_carved_kinds(with_unmapped.map, parts.mapped, 4, capacity);
    let complete = firmware_carved(with_mapped, firmware, capacity);
    firmware_carved_kinds(with_mapped, firmware, capacity);
    coalescing_keeps_kinds(complete.map);
    let map = map_of_tree(parts, firmware, capacity)->Ok_0;
    assert(map == coalesced(complete.map));
    assert forall|address: int|
        #![trigger kind_at(map, address)]
        kind_at(map, address) == if in_regions(parts.memory, address) {
            Some(tree_kind(parts, firmware, address))
        } else {
            None
        } by {
        let first = kind_at(laid.map, address);
        let second = kind_at(carved.map, address);
        let third = kind_at(with_blob, address);
        let fourth = kind_at(with_unmapped.map, address);
        let fifth = kind_at(with_mapped.map, address);
        let sixth = kind_at(complete.map, address);
        assert(third == second);
    }
}

/// Memory that the map of a device tree gives out as free is memory of the tree, and
/// no page of the tree itself, of a reserved range, or of the firmware.
pub proof fn free_memory_is_unclaimed(
    parts: TreeParts,
    firmware: FirmwareRanges,
    capacity: nat,
    address: int,
)
    requires
        map_of_tree(parts, firmware, capacity) is Ok,
        kind_at(map_of_tree(parts, firmware, capacity)->Ok_0, address) == Some(CONVENTIONAL),
    ensures
        in_regions(parts.memory, address),
        !touched(parts.blob, address),
        !any_touched(parts.unmapped, address),
        !any_touched(parts.mapped, address),
        firmware_kind(firmware, address) == CONVENTIONAL,
{
    tree_map_kinds(parts, firmware, capacity);
    laid_out_memory(parts.memory, capacity);
}

/// The map of memory regions is sound and fits. It holds all memory of the regions and
/// no other, and says of each address whether a reserved region touches its page, and
/// else what the firmware uses it for.
pub proof fn region_map_kinds(
    memory_regions: Seq<MemoryRegion>,
    reserved_regions: Seq<MemoryRegion>,
    firmware: FirmwareRanges,
    capacity: nat,
)
    requires
        map_of_regions(memory_regions, reserved_regions, firmware, capacity) is Ok,
    ensures
        ({
            let map = map_of_regions(
                memory_regions,
                reserved_regions,
                firmware,
                capacity,
            )->Ok_0;
            &&& map_sound(map)
            &&& map.len() <= capacity
            &&& forall|address: int|
                #![trigger kind_at(map, address)]
                kind_at(map, address) == if !in_regions(memory_regions, address) {
                    None
                } else if any_touched(reserved_regions, address) {
                    Some(0u32)
                } else {
                    Some(firmware_kind(firmware, address))
                }
        }),
{
    let laid = memory_laid_out(memory_regions, capacity);
    laid_out_memory(memory_regions, capacity);
    let reserved = regions_carved(laid.map, reserved_regions, 0, capacity);
    regions_carved_kinds(laid.map, reserved_regions, 0, capacity);
    let complete = firmware_carved(reserved, firmware, capacity);
    firmware_carved_kinds(reserved, firmware, capacity);
    coalescing_keeps_kinds(complete.map);
    let map = map_of_regions(memory_regions, reserved_regions, firmware, capacity)->Ok_0;
    assert(map == coalesced(complete.map));
    assert forall|address: int|
        #![trigger kind_at(map, address)]
        kind_at(map, address) == if !in_regions(memory_regions, address) {
            None
        } else if any_touched(reserved_regions, address) {
            Some(0u32)
        } else {
            Some(firmware_kind(firmware, address))
        } by {
        let first = kind_at(laid.map, address);
        let second = kind_at(reserved.map, address);
        let third = kind_at(complete.map, address);
    }
}

/// Whether a map is another one in which free pages have become memory of a kind.
pub open spec fn takes_pages(
    before: Seq<EFI_MEMORY_DESCRIPTOR>,
    after: Seq<EFI_MEMORY_DESCRIPTOR>,
    start: u64,
    pages: int,
    kind: u32,
) -> bool {
    &&& map_sound(after)
    &&& start % 4096 == 0
    &&& start + pages * 4096 <= u64::MAX
    &&& forall|address: int|
        #![trigger kind_at(after, address)]
        if start <= address < start + pages * 4096 {
            kind_at(before, address) == Some(CONVENTIONAL) && kind_at(after, address) == Some(kind)
        } else {
            kind_at(after, address) == kind_at(before, address)
        }
}

/// A request for pages that is granted gets free pages, which take the requested
/// type; nothing else changes. The pages are where the policy wants them.
pub proof fn granted_pages_were_free(
    map: Seq<EFI_MEMORY_DESCRIPTOR>,
    policy: EFI_ALLOCATE_TYPE,
    memory_type: EFI_MEMORY_TYPE,
    pages: usize,
    memory: u64,
    capacity: nat,
)
    requires
        map_sound(map),
        allocation(map, policy, memory_type, pages, memory, capacity) is Ok,
    ensures
        allocation(map, policy, memory_type, pages, memory, capacity) matches Ok((start, after))
            && takes_pages(map, after, start, pages as int, memory_type.code()) && after.len()
            <= capacity && match policy {
            EFI_ALLOCATE_TYPE::AllocateAddress => start == memory,
            EFI_ALLOCATE_TYPE::AllocateMaxAddress => start + pages * 4096 <= memory + 1,
            _ => true,
        },
{
    let bytes = pages * 4096;
    match policy {
        EFI_ALLOCATE_TYPE::AllocateAnyPages => {
            best_place_is_aligned(map, bytes, Placement::Anywhere);
        },
        EFI_ALLOCATE_TYPE::AllocateMaxAddress => {
            best_place_is_aligned(map, bytes, Placement::UpTo(memory));
        },
        _ => {},
    }
    let (start, after) = allocation(map, policy, memory_type, pages, memory, capacity)->Ok_0;
    allocation_changes_range(map, start, pages as u64, memory_type.code(), capacity);
}

/// An aligned request that is granted gets free pages at a multiple of the alignment,
/// which take the requested type; nothing else changes.
pub proof fn granted_aligned_pages_were_free(
    map: Seq<EFI_MEMORY_DESCRIPTOR>,
    memory_type: EFI_MEMORY_TYPE,
    pages: int,
    alignment: u64,
    direction: AllocationDirection,
    capacity: nat,
)
    requires
        map_sound(map),
        aligned_allocation(map, memory_type, pages, alignment, direction, capacity) is Ok,
        0 < pages <= usize::MAX,
    ensures
        aligned_allocation(map, memory_type, pages, alignment, direction, capacity) matches Ok(
            (start, after),
        ) && takes_pages(map, after, start, pages, memory_type.code()) && after.len() <= capacity
            && start as int % alignment as int == 0,
{
    best_place_is_aligned(map, pages * 4096, aligned_placement(alignment, direction));
    let (start, after) = aligned_allocation(
        map,
        memory_type,
        pages,
        alignment,
        direction,
        capacity,
    )->Ok_0;
    allocation_changes_range(map, start, pages as u64, memory_type.code(), capacity);
}

/// Pages that were granted are not granted again: the ranges of two granted requests
/// do not overlap, where the first did not ask for free memory.
pub proof fn granted_pages_are_apart(
    map: Seq<EFI_MEMORY_DESCRIPTOR>,
    first: (u64, int, u32),
    between: Seq<EFI_MEMORY_DESCRIPTOR>,
    second: (u64, int, u32),
    after: Seq<EFI_MEMORY_DESCRIPTOR>,
)
    requires
        first.1 > 0,
        second.1 > 0,
        first.2 != CONVENTIONAL,
        takes_pages(map, between, first.0, first.1, first.2),
        takes_pages(between, after, second.0, second.1, second.2),
    ensures
        first.0 + first.1 * 4096 <= second.0 || second.0 + second.1 * 4096 <= first.0,
{
    if first.0 < second.0 + second.1 * 4096 && second.0 < first.0 + first.1 * 4096 {
        let address = if first.0 <= second.0 {
            second.0 as int
        } else {
            first.0 as int
        };
        assert(kind_at(between, address) == Some(first.2));
        assert(kind_at(after, address) is Some);
    }
}

/// A map that was built from a device tree has nothing left to merge.
pub proof fn tree_map_is_merged(parts: TreeParts, firmware: FirmwareRanges, capacity: nat)
    requires
        map_of_tree(parts, firmware, capacity) is Ok,
    ensures
        fully_merged(map_of_tree(parts, firmware, capacity)->Ok_0),
{
    let laid = memory_laid_out(parts.memory, capacity);
    laid_out_memory(parts.memory, capacity);
    let carved = region_carved(laid.map, parts.blob, 0, capacity);
    region_carved_kinds(laid.map, parts.blob, 0, capacity);
    coalescing_keeps_kinds(carved.map);
    let with_blob = coalesced(carved.map);
    let with_unmapped = regions_carved(with_blob, parts.unmapped, 0, capacity);
    regions_carved_kinds(with_blob, parts.unmapped, 0, capacity);
    let with_mapped = regions_carved(with_unmapped.map, parts.mapped, 4, capacity);
    regions_carved_kinds(with_unmapped.map, parts.mapped, 4, capacity);
    firmware_carved_kinds(with_mapped, firmware, capacity);
    coalescing_keeps_kinds(firmware_carved(with_mapped, firmware, capacity).map);
}

/// A map that was built from memory regions has nothing left to merge.
pub proof fn region_map_is_merged(
    memory_regions: Seq<MemoryRegion>,
    reserved_regions: Seq<MemoryRegion>,
    firmware: FirmwareRanges,
    capacity: nat,
)
    requires
        map_of_regions(memory_regions, reserved_regions, firmware, capacity) is Ok,
    ensures
        fully_merged(map_of_regions(memory_regions, reserved_regions, firmware, capacity)->Ok_0),
{
    let laid = memory_laid_out(memory_regions, capacity);
    laid_out_memory(memory_regions, capacity);
    let reserved = regions_carved(laid.map, reserved_regions, 0, capacity);
    regions_carved_kinds(laid.map, reserved_regions, 0, capacity);
    firmware_carved_kinds(reserved, firmware, capacity);
    coalescing_keeps_kinds(firmware_carved(reserved, firmware, capacity).map);
}

/// After an allocation, a release or a reservation that works, a map has nothing left
/// to merge.
pub proof fn changed_map_is_merged(
    map: Seq<EFI_MEMORY_DESCRIPTOR>,
    start: u64,
    pages: u64,
    kind: u32,
    region: MemoryRegion,
    capacity: nat,
)
    requires
        map_sound(map),
        map.len() <= capacity,
        pages > 0,
        start % 4096 == 0,
    ensures
        allocated(map, start, pages, kind, capacity) matches Ok(after) ==> fully_merged(after),
        released(map, start, pages, capacity) matches Ok(after) ==> fully_merged(after),
        region_carved(map, region, 0, capacity).outcome is Ok ==> fully_merged(
            coalesced(region_carved(map, region, 0, capacity).map),
        ),
{
    let end = start + pages * 4096;
    covering_covers(map, start as int, end, 0);
    if let Some(index) = covering_from(map, start as int, end, 0) {
        replaced_changes_range(map, index, start as int, end, kind);
        coalescing_keeps_kinds(replaced(map, index, start as int, end, kind));
        replaced_changes_range(map, index, start as int, end, CONVENTIONAL);
        coalescing_keeps_kinds(replaced(map, index, start as int, end, CONVENTIONAL));
    }
    if region_carved(map, region, 0, capacity).outcome is Ok {
        region_carved_kinds(map, region, 0, capacity);
        coalescing_keeps_kinds(region_carved(map, region, 0, capacity).map);
    }
}

/// Freeing the pages that a request was granted always works and gives back the map
/// from before, unless they were asked for as reserved or as conventional memory.
pub proof fn freeing_restores_map(
    map: Seq<EFI_MEMORY_DESCRIPTOR>,
    policy: EFI_ALLOCATE_TYPE,
    memory_type: EFI_MEMORY_TYPE,
    pages: usize,
    memory: u64,
    capacity: nat,
)
    requires
        map_sound(map),
        fully_merged(map),
        map.len() <= capacity,
        !(memory_type is EfiConventionalMemory),
        !(memory_type is EfiReservedMemoryType),
        allocation(map, policy, memory_type, pages, memory, capacity) is Ok,
    ensures
        allocation(map, policy, memory_type, pages, memory, capacity) matches Ok((start, after))
            && pages > 0 && start % 4096 == 0 && fully_merged(after) && released(
            after,
            start,
            pages as u64,
            capacity,
        ) == Ok::<Seq<EFI_MEMORY_DESCRIPTOR>, MemoryError>(map),
{
    granted_pages_were_free(map, policy, memory_type, pages, memory, capacity);
    let (start, after) = allocation(map, policy, memory_type, pages, memory, capacity)->Ok_0;
    let region = MemoryRegion { base: 0, size: 0 };
    changed_map_is_merged(map, start, pages as u64, memory_type.code(), region, capacity);
    release_undoes_allocation(map, start, pages as u64, memory_type.code(), capacity);
}

} // verus!
