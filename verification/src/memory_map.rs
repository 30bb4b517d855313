//! EFI-style memory maps: descriptors in address order.
//!
//! A map is a sequence of descriptors. What it says is the kind of memory at
//! each address; splitting and merging descriptors changes that only where they
//! are meant to.

use vstd::prelude::*;
use crate::devicetree::MemoryRegion;

verus! {

/// EFI memory descriptor fields carried in an EFI memory map.
#[allow(non_camel_case_types, non_snake_case)]
#[derive(Clone, Copy, Debug, PartialEq, Eq, Structural)]
pub struct EFI_MEMORY_DESCRIPTOR {
    /// EFI memory type encoded as its number.
    pub Type: u32,
    /// Physical base address of the described range.
    pub PhysicalStart: u64,
    /// Virtual base address assigned for runtime mappings.
    pub VirtualStart: u64,
    /// Number of 4 KiB pages covered by the range.
    pub NumberOfPages: u64,
    /// EFI memory attribute bitmask.
    pub Attribute: u64,
}

/// Errors returned while building or mutating the EFI-style page map.
#[derive(Clone, Copy, Debug, PartialEq, Eq, Structural)]
pub enum MemoryError {
    /// A caller supplied a parameter value that violates page-map invariants.
    InvalidParameter,
    /// The supplied descriptor buffer is too small for the requested splits.
    BufferTooSmall,
    /// The requested allocation could not be satisfied.
    OutOfResources,
    /// The requested range was not found in the current page map.
    NotFound,
    /// Address arithmetic overflowed while processing a region.
    AddressOverflow,
}

/// Number of conventional memory among the memory types.
pub const CONVENTIONAL: u32 = 7;

/// The descriptor of a range without virtual address or attributes.
pub open spec fn range_of(kind: u32, start: int, end: int) -> EFI_MEMORY_DESCRIPTOR {
    EFI_MEMORY_DESCRIPTOR {
        Type: kind,
        PhysicalStart: start as u64,
        VirtualStart: 0,
        NumberOfPages: ((end - start) / 4096) as u64,
        Attribute: 0,
    }
}

/// First address behind a range.
pub open spec fn end_of(descriptor: EFI_MEMORY_DESCRIPTOR) -> int {
    descriptor.PhysicalStart + descriptor.NumberOfPages * 4096
}

/// Whether a descriptor covers at least one page, whole pages only, and ends on
/// a 64-bit address.
pub open spec fn sound(descriptor: EFI_MEMORY_DESCRIPTOR) -> bool {
    &&& descriptor.NumberOfPages > 0
    &&& descriptor.PhysicalStart % 4096 == 0
    &&& end_of(descriptor) <= u64::MAX
    &&& descriptor.VirtualStart == 0
    &&& descriptor.Attribute == 0
}

/// Whether all descriptors are sound.
pub open spec fn all_sound(map: Seq<EFI_MEMORY_DESCRIPTOR>) -> bool {
    forall|i: int| 0 <= i < map.len() ==> sound(#[trigger] map[i])
}

/// Whether the descriptors are sorted by their start addresses.
pub open spec fn sorted_by_start(map: Seq<EFI_MEMORY_DESCRIPTOR>) -> bool {
    forall|i: int, j: int|
        0 <= i < j < map.len() ==> (#[trigger] map[i]).PhysicalStart <= (#[trigger] map[j]).PhysicalStart
}

/// Whether the descriptors are in address order and do not overlap.
pub open spec fn in_order(map: Seq<EFI_MEMORY_DESCRIPTOR>) -> bool {
    forall|i: int, j: int|
        0 <= i < j < map.len() ==> end_of(#[trigger] map[i]) <= (#[trigger] map[j]).PhysicalStart
}

/// Whether a sequence of descriptors is a memory map.
pub open spec fn map_sound(map: Seq<EFI_MEMORY_DESCRIPTOR>) -> bool {
    all_sound(map) && in_order(map)
}

/// Whether a descriptor covers an address.
pub open spec fn covers(descriptor: EFI_MEMORY_DESCRIPTOR, address: int) -> bool {
    descriptor.PhysicalStart <= address < end_of(descriptor)
}

/// The kind of memory at an address, or nothing where the map has no memory.
pub open spec fn kind_at(map: Seq<EFI_MEMORY_DESCRIPTOR>, address: int) -> Option<u32> {
    if exists|i: int| 0 <= i < map.len() && covers(#[trigger] map[i], address) {
        Some(map[choose|i: int| 0 <= i < map.len() && covers(#[trigger] map[i], address)].Type)
    } else {
        None
    }
}

/// A descriptor decides the kind of the addresses that it covers.
pub proof fn kind_of_covered(map: Seq<EFI_MEMORY_DESCRIPTOR>, index: int, address: int)
    requires
        in_order(map),
        0 <= index < map.len(),
        covers(map[index], address),
    ensures
        kind_at(map, address) == Some(map[index].Type),
{
    let chosen = choose|i: int| 0 <= i < map.len() && covers(#[trigger] map[i], address);
    if chosen < index {
        assert(end_of(map[chosen]) <= map[index].PhysicalStart);
    } else if index < chosen {
        assert(end_of(map[index]) <= map[chosen].PhysicalStart);
    }
}

/// Two maps give the same kind to an address when covering descriptors of one
/// have counterparts in the other.
proof fn kinds_agree(a: Seq<EFI_MEMORY_DESCRIPTOR>, b: Seq<EFI_MEMORY_DESCRIPTOR>, address: int)
    requires
        in_order(a),
        in_order(b),
        forall|i: int|
            0 <= i < a.len() && covers(#[trigger] a[i], address) ==> exists|j: int|
                0 <= j < b.len() && covers(#[trigger] b[j], address) && b[j].Type == a[i].Type,
        forall|j: int|
            0 <= j < b.len() && covers(#[trigger] b[j], address) ==> exists|i: int|
                0 <= i < a.len() && covers(#[trigger] a[i], address),
    ensures
        kind_at(a, address) == kind_at(b, address),
{
    if exists|i: int| 0 <= i < a.len() && covers(#[trigger] a[i], address) {
        let i = choose|i: int| 0 <= i < a.len() && covers(#[trigger] a[i], address);
        kind_of_covered(a, i, address);
        let j = choose|j: int|
            0 <= j < b.len() && covers(#[trigger] b[j], address) && b[j].Type == a[i].Type;
        kind_of_covered(b, j, address);
    } else {
        assert(!exists|j: int| 0 <= j < b.len() && covers(#[trigger] b[j], address));
    }
}

/// A map with one descriptor inserted.
pub open spec fn inserted(
    map: Seq<EFI_MEMORY_DESCRIPTOR>,
    index: int,
    descriptor: EFI_MEMORY_DESCRIPTOR,
) -> Seq<EFI_MEMORY_DESCRIPTOR> {
    map.take(index) + seq![descriptor] + map.skip(index)
}

/// The first place from `index` on whose descriptor starts behind `start`.
pub open spec fn place_behind(map: Seq<EFI_MEMORY_DESCRIPTOR>, start: u64, index: int) -> int
    decreases map.len() - index,
{
    if index >= map.len() || map[index].PhysicalStart > start {
        index
    } else {
        place_behind(map, start, index + 1)
    }
}

/// A map with one descriptor inserted behind those that do not start later.
pub open spec fn sorted_insert(map: Seq<EFI_MEMORY_DESCRIPTOR>, descriptor: EFI_MEMORY_DESCRIPTOR) -> Seq<
    EFI_MEMORY_DESCRIPTOR,
> {
    inserted(map, place_behind(map, descriptor.PhysicalStart, 0), descriptor)
}

/// Inserting by start address keeps a map sorted.
pub proof fn sorted_insert_keeps_order(
    map: Seq<EFI_MEMORY_DESCRIPTOR>,
    descriptor: EFI_MEMORY_DESCRIPTOR,
)
    requires
        sorted_by_start(map),
        all_sound(map),
        sound(descriptor),
    ensures
        sorted_by_start(sorted_insert(map, descriptor)),
        all_sound(sorted_insert(map, descriptor)),
        sorted_insert(map, descriptor).len() == map.len() + 1,
{
    place_behind_is_bound(map, descriptor.PhysicalStart, 0);
}

/// Where a descriptor is inserted, those before it do not start later and those
/// behind it do.
pub proof fn place_behind_is_bound(map: Seq<EFI_MEMORY_DESCRIPTOR>, start: u64, index: int)
    requires
        0 <= index <= map.len(),
        sorted_by_start(map),
        forall|i: int| 0 <= i < index ==> (#[trigger] map[i]).PhysicalStart <= start,
    ensures
        index <= place_behind(map, start, index) <= map.len(),
        forall|i: int|
            0 <= i < place_behind(map, start, index) ==> (#[trigger] map[i]).PhysicalStart <= start,
        forall|i: int|
            place_behind(map, start, index) <= i < map.len() ==> (#[trigger] map[i]).PhysicalStart
                > start,
    decreases map.len() - index,
{
    if index < map.len() && map[index].PhysicalStart <= start {
        place_behind_is_bound(map, start, index + 1);
    }
}

/// The descriptors that take the place of `descriptor` when the range from
/// `start` to `end` inside of it becomes memory of another kind.
pub open spec fn parts_of(descriptor: EFI_MEMORY_DESCRIPTOR, start: int, end: int, kind: u32) -> Seq<
    EFI_MEMORY_DESCRIPTOR,
> {
    let before = if start > descriptor.PhysicalStart {
        seq![range_of(descriptor.Type, descriptor.PhysicalStart as int, start)]
    } else {
        Seq::empty()
    };
    let behind = if end < end_of(descriptor) {
        seq![range_of(descriptor.Type, end, end_of(descriptor))]
    } else {
        Seq::empty()
    };
    before + seq![range_of(kind, start, end)] + behind
}

/// A map in which a range inside of one descriptor becomes memory of another
/// kind.
pub open spec fn replaced(
    map: Seq<EFI_MEMORY_DESCRIPTOR>,
    index: int,
    start: int,
    end: int,
    kind: u32,
) -> Seq<EFI_MEMORY_DESCRIPTOR> {
    map.take(index) + parts_of(map[index], start, end, kind) + map.skip(index + 1)
}

/// Whether a range of whole pages lies inside of a descriptor.
pub open spec fn within(descriptor: EFI_MEMORY_DESCRIPTOR, start: int, end: int) -> bool {
    &&& descriptor.PhysicalStart <= start < end <= end_of(descriptor)
    &&& start % 4096 == 0
    &&& end % 4096 == 0
}

/// The parts of a descriptor are sound, lie inside of it, and are in order.
proof fn parts_are_sound(d: EFI_MEMORY_DESCRIPTOR, start: int, end: int, kind: u32)
    requires
        sound(d),
        within(d, start, end),
    ensures
        ({
            let parts = parts_of(d, start, end, kind);
            &&& map_sound(parts)
            &&& 1 <= parts.len() <= 3
            &&& forall|i: int|
                0 <= i < parts.len() ==> d.PhysicalStart <= (#[trigger] parts[i]).PhysicalStart
                    && end_of(parts[i]) <= end_of(d)
            &&& forall|address: int|
                #![trigger kind_at(parts, address)]
                kind_at(parts, address) == if start <= address < end {
                    Some(kind)
                } else if covers(d, address) {
                    Some(d.Type)
                } else {
                    None
                }
        }),
{
    let parts = parts_of(d, start, end, kind);
    let first = range_of(d.Type, d.PhysicalStart as int, start);
    let changed = range_of(kind, start, end);
    let last = range_of(d.Type, end, end_of(d));
    assert(end_of(d) % 4096 == 0);
    assert(sound(changed) && end_of(changed) == end);
    assert(start > d.PhysicalStart ==> sound(first) && end_of(first) == start);
    assert(end < end_of(d) ==> sound(last) && end_of(last) == end_of(d));
    let middle = if start > d.PhysicalStart {
        1int
    } else {
        0int
    };
    assert(parts[middle] == changed);
    assert(start > d.PhysicalStart ==> parts[0] == first);
    assert(end < end_of(d) ==> parts[middle + 1] == last);
    assert forall|address: int|
        #![trigger kind_at(parts, address)]
        kind_at(parts, address) == if start <= address < end {
            Some(kind)
        } else if covers(d, address) {
            Some(d.Type)
        } else {
            None
        } by {
        if start <= address < end {
            kind_of_covered(parts, middle, address);
        } else if covers(d, address) {
            if address < start {
                kind_of_covered(parts, 0, address);
            } else {
                kind_of_covered(parts, middle + 1, address);
            }
        }
    }
}

/// The kind at an address in a map that is made of three stretches.
proof fn kind_in_stretches(
    head: Seq<EFI_MEMORY_DESCRIPTOR>,
    middle: Seq<EFI_MEMORY_DESCRIPTOR>,
    tail: Seq<EFI_MEMORY_DESCRIPTOR>,
    address: int,
)
    requires
        in_order(head + middle + tail),
        in_order(head),
        in_order(middle),
        in_order(tail),
    ensures
        kind_at(head + middle + tail, address) == if kind_at(head, address) is Some {
            kind_at(head, address)
        } else if kind_at(middle, address) is Some {
            kind_at(middle, address)
        } else {
            kind_at(tail, address)
        },
{
    let whole = head + middle + tail;
    if kind_at(head, address) is Some {
        let i = choose|i: int| 0 <= i < head.len() && covers(#[trigger] head[i], address);
        assert(whole[i] == head[i]);
        kind_of_covered(head, i, address);
        kind_of_covered(whole, i, address);
    } else if kind_at(middle, address) is Some {
        let i = choose|i: int| 0 <= i < middle.len() && covers(#[trigger] middle[i], address);
        assert(whole[head.len() + i] == middle[i]);
        kind_of_covered(middle, i, address);
        kind_of_covered(whole, head.len() + i, address);
    } else if kind_at(tail, address) is Some {
        let i = choose|i: int| 0 <= i < tail.len() && covers(#[trigger] tail[i], address);
        assert(whole[head.len() + middle.len() + i] == tail[i]);
        kind_of_covered(tail, i, address);
        kind_of_covered(whole, head.len() + middle.len() + i, address);
    } else if kind_at(whole, address) is Some {
        let i = choose|i: int| 0 <= i < whole.len() && covers(#[trigger] whole[i], address);
        if i < head.len() {
            assert(covers(head[i], address));
        } else if i < head.len() + middle.len() {
            assert(covers(middle[i - head.len()], address));
        } else {
            assert(covers(tail[i - head.len() - middle.len()], address));
        }
    }
}

/// Three stretches in order make a map in order.
proof fn stretches_are_sound(
    head: Seq<EFI_MEMORY_DESCRIPTOR>,
    middle: Seq<EFI_MEMORY_DESCRIPTOR>,
    tail: Seq<EFI_MEMORY_DESCRIPTOR>,
    low: int,
    high: int,
)
    requires
        map_sound(head),
        map_sound(middle),
        map_sound(tail),
        low <= high,
        forall|i: int| 0 <= i < head.len() ==> end_of(#[trigger] head[i]) <= low,
        forall|i: int|
            0 <= i < middle.len() ==> low <= (#[trigger] middle[i]).PhysicalStart && end_of(
                middle[i],
            ) <= high,
        forall|i: int| 0 <= i < tail.len() ==> high <= (#[trigger] tail[i]).PhysicalStart,
    ensures
        map_sound(head + middle + tail),
{
    let whole = head + middle + tail;
    let a = head.len() as int;
    let b = (head.len() + middle.len()) as int;
    assert forall|i: int| 0 <= i < whole.len() implies sound(#[trigger] whole[i]) by {
        if i < a {
            assert(whole[i] == head[i]);
        } else if i < b {
            assert(whole[i] == middle[i - a]);
        } else {
            assert(whole[i] == tail[i - b]);
        }
    }
    assert forall|i: int, j: int| 0 <= i < j < whole.len() implies end_of(#[trigger] whole[i])
        <= (#[trigger] whole[j]).PhysicalStart by {
        if j < a {
            assert(whole[i] == head[i] && whole[j] == head[j]);
        } else if i >= b {
            assert(whole[i] == tail[i - b] && whole[j] == tail[j - b]);
        } else if a <= i && j < b {
            assert(whole[i] == middle[i - a] && whole[j] == middle[j - a]);
        } else {
            if i < a {
                assert(whole[i] == head[i]);
            } else {
                assert(whole[i] == middle[i - a]);
            }
            if j < b {
                assert(whole[j] == middle[j - a]);
            } else {
                assert(whole[j] == tail[j - b]);
            }
        }
    }
}

/// Replacing a range keeps a map sound and changes the kind of the range only.
pub proof fn replaced_changes_range(
    map: Seq<EFI_MEMORY_DESCRIPTOR>,
    index: int,
    start: int,
    end: int,
    kind: u32,
)
    requires
        map_sound(map),
        0 <= index < map.len(),
        within(map[index], start, end),
    ensures
        map_sound(replaced(map, index, start, end, kind)),
        forall|address: int|
            #![trigger kind_at(replaced(map, index, start, end, kind), address)]
            kind_at(replaced(map, index, start, end, kind), address) == if start <= address < end {
                Some(kind)
            } else {
                kind_at(map, address)
            },
{
    let d = map[index];
    let head = map.take(index);
    let tail = map.skip(index + 1);
    let parts = parts_of(d, start, end, kind);
    let after = replaced(map, index, start, end, kind);
    assert(sound(d));
    parts_are_sound(d, start, end, kind);
    let low = d.PhysicalStart as int;
    let high = end_of(d);
    assert forall|i: int| 0 <= i < head.len() implies end_of(#[trigger] head[i]) <= low by {
        assert(head[i] == map[i]);
    }
    assert forall|i: int| 0 <= i < tail.len() implies high <= (#[trigger] tail[i]).PhysicalStart by {
        assert(tail[i] == map[index + 1 + i]);
    }
    assert(map_sound(head)) by {
        assert(forall|i: int| 0 <= i < head.len() ==> head[i] == map[i]);
    }
    assert(map_sound(tail)) by {
        assert(forall|i: int| 0 <= i < tail.len() ==> tail[i] == map[index + 1 + i]);
    }
    stretches_are_sound(head, parts, tail, low, high);
    let single = seq![d];
    assert(map =~= head + single + tail);
    assert(map_sound(single));
    assert forall|address: int|
        #![trigger kind_at(after, address)]
        kind_at(after, address) == if start <= address < end {
            Some(kind)
        } else {
            kind_at(map, address)
        } by {
        kind_in_stretches(head, parts, tail, address);
        kind_in_stretches(head, single, tail, address);
        assert(kind_at(single, address) == if covers(d, address) {
            Some(d.Type)
        } else {
            None
        }) by {
            if covers(d, address) {
                kind_of_covered(single, 0, address);
            }
        }
        if covers(d, address) {
            assert(kind_at(head, address) is None) by {
                if kind_at(head, address) is Some {
                    let i = choose|i: int|
                        0 <= i < head.len() && covers(#[trigger] head[i], address);
                    assert(end_of(head[i]) <= low);
                }
            }
        }
        assert(kind_at(parts, address) == kind_at(parts, address));
    }
}

/// Whether two neighbours can be merged: the same kind, and no gap between them.
pub open spec fn mergeable(left: EFI_MEMORY_DESCRIPTOR, right: EFI_MEMORY_DESCRIPTOR) -> bool {
    &&& left.Type == right.Type
    &&& left.Attribute == right.Attribute
    &&& left.VirtualStart == right.VirtualStart
    &&& end_of(left) <= u64::MAX
    &&& right.PhysicalStart <= end_of(left)
}

/// The larger of two ends.
pub open spec fn later_end(left: EFI_MEMORY_DESCRIPTOR, right: EFI_MEMORY_DESCRIPTOR) -> int {
    if end_of(left) <= end_of(right) {
        end_of(right)
    } else {
        end_of(left)
    }
}

/// A map in which the descriptors at `index` and behind it are one, which ends
/// where the last of them ended.
pub open spec fn merged(map: Seq<EFI_MEMORY_DESCRIPTOR>, index: int) -> Seq<EFI_MEMORY_DESCRIPTOR> {
    let union = EFI_MEMORY_DESCRIPTOR {
        NumberOfPages: ((later_end(map[index], map[index + 1]) - map[index].PhysicalStart) / 4096) as u64,
        ..map[index]
    };
    map.take(index) + seq![union] + map.skip(index + 2)
}

/// A map with all neighbours from `index` on merged that can be.
pub open spec fn coalesced_from(map: Seq<EFI_MEMORY_DESCRIPTOR>, index: int) -> Seq<
    EFI_MEMORY_DESCRIPTOR,
>
    decreases map.len() - index,
{
    if index < 0 || index + 1 >= map.len() {
        map
    } else if mergeable(map[index], map[index + 1]) {
        coalesced_from(merged(map, index), index)
    } else {
        coalesced_from(map, index + 1)
    }
}

/// A map with all neighbours merged that can be.
pub open spec fn coalesced(map: Seq<EFI_MEMORY_DESCRIPTOR>) -> Seq<EFI_MEMORY_DESCRIPTOR> {
    coalesced_from(map, 0)
}

/// Whether no two neighbours can be merged.
pub open spec fn fully_merged(map: Seq<EFI_MEMORY_DESCRIPTOR>) -> bool {
    forall|i: int| 0 <= i && i + 1 < map.len() ==> !mergeable(#[trigger] map[i], map[i + 1])
}

pub proof fn merging_keeps_order(map: Seq<EFI_MEMORY_DESCRIPTOR>, index: int)
    requires
        all_sound(map),
        sorted_by_start(map),
        0 <= index,
        index + 1 < map.len(),
        mergeable(map[index], map[index + 1]),
    ensures
        all_sound(merged(map, index)),
        sorted_by_start(merged(map, index)),
        merged(map, index).len() == map.len() - 1,
        end_of(merged(map, index)[index]) == later_end(map[index], map[index + 1]),
{
    let after = merged(map, index);
    assert(map[index].PhysicalStart <= map[index + 1].PhysicalStart);
    assert(sound(map[index]) && sound(map[index + 1]));
    assert(after[index].PhysicalStart == map[index].PhysicalStart);
    assert(end_of(map[index]) % 4096 == 0 && end_of(map[index + 1]) % 4096 == 0);
    assert(end_of(after[index]) == later_end(map[index], map[index + 1]));
    assert forall|i: int| 0 <= i < after.len() implies sound(#[trigger] after[i]) by {
        if i < index {
            assert(after[i] == map[i]);
        } else if i > index {
            assert(after[i] == map[i + 1]);
        }
    }
    assert forall|i: int, j: int| 0 <= i < j < after.len() implies (#[trigger] after[i]).PhysicalStart
        <= (#[trigger] after[j]).PhysicalStart by {
        let from_i = if i <= index {
            i
        } else {
            i + 1
        };
        let from_j = if j <= index {
            j
        } else {
            j + 1
        };
        assert(after[i].PhysicalStart == map[from_i].PhysicalStart);
        assert(after[j].PhysicalStart == map[from_j].PhysicalStart);
    }
}

proof fn coalescing_keeps_order(map: Seq<EFI_MEMORY_DESCRIPTOR>, index: int)
    requires
        all_sound(map),
        sorted_by_start(map),
        0 <= index,
        index <= map.len(),
        forall|i: int|
            0 <= i < index && i + 1 < map.len() ==> !mergeable(#[trigger] map[i], map[i + 1]),
    ensures
        all_sound(coalesced_from(map, index)),
        sorted_by_start(coalesced_from(map, index)),
        fully_merged(coalesced_from(map, index)),
        coalesced_from(map, index).len() <= map.len(),
    decreases map.len() - index,
{
    if index + 1 >= map.len() {
    } else if mergeable(map[index], map[index + 1]) {
        let after = merged(map, index);
        merging_keeps_order(map, index);
        assert forall|i: int| 0 <= i < index && i + 1 < after.len() implies !mergeable(
            #[trigger] after[i],
            after[i + 1],
        ) by {
            assert(after[i] == map[i]);
            assert(!mergeable(map[i], map[i + 1]));
            assert(after[i + 1].PhysicalStart == map[i + 1].PhysicalStart);
            assert(after[i + 1].Type == map[i + 1].Type);
        }
        coalescing_keeps_order(after, index);
    } else {
        coalescing_keeps_order(map, index + 1);
    }
}

/// Merging sorted ranges of one kind makes a map, even where they overlapped.
pub proof fn coalescing_one_kind(map: Seq<EFI_MEMORY_DESCRIPTOR>, kind: u32)
    requires
        all_sound(map),
        sorted_by_start(map),
        forall|i: int| 0 <= i < map.len() ==> (#[trigger] map[i]).Type == kind,
    ensures
        map_sound(coalesced(map)),
        fully_merged(coalesced(map)),
        coalesced(map).len() <= map.len(),
        forall|i: int| 0 <= i < coalesced(map).len() ==> (#[trigger] coalesced(map)[i]).Type == kind,
{
    coalescing_keeps_order(map, 0);
    coalescing_keeps_kind(map, 0, kind);
    let after = coalesced(map);
    assert forall|i: int, j: int| 0 <= i < j < after.len() implies end_of(#[trigger] after[i])
        <= (#[trigger] after[j]).PhysicalStart by {
        assert(!mergeable(after[i], after[i + 1]));
        assert(sound(after[i]) && sound(after[i + 1]));
        if i + 1 < j {
            assert(after[i + 1].PhysicalStart <= after[j].PhysicalStart);
        }
    }
}

proof fn coalescing_keeps_kind(map: Seq<EFI_MEMORY_DESCRIPTOR>, index: int, kind: u32)
    requires
        0 <= index,
        forall|i: int| 0 <= i < map.len() ==> (#[trigger] map[i]).Type == kind,
    ensures
        forall|i: int|
            0 <= i < coalesced_from(map, index).len() ==> (#[trigger] coalesced_from(map, index)[i]).Type
                == kind,
    decreases map.len() - index,
{
    let whole = coalesced_from(map, index);
    if index + 1 >= map.len() {
        assert(whole == map);
    } else if mergeable(map[index], map[index + 1]) {
        let after = merged(map, index);
        assert forall|i: int| 0 <= i < after.len() implies (#[trigger] after[i]).Type == kind by {
            if i < index {
                assert(after[i] == map[i]);
            } else if i > index {
                assert(after[i] == map[i + 1]);
            } else {
                assert(map[index].Type == kind);
            }
        }
        coalescing_keeps_kind(after, index, kind);
        assert(whole == coalesced_from(after, index));
    } else {
        coalescing_keeps_kind(map, index + 1, kind);
        assert(whole == coalesced_from(map, index + 1));
    }
    assert forall|i: int| 0 <= i < whole.len() implies (#[trigger] whole[i]).Type == kind by {
    }
}

proof fn merging_keeps_kinds(map: Seq<EFI_MEMORY_DESCRIPTOR>, index: int)
    requires
        map_sound(map),
        0 <= index,
        index + 1 < map.len(),
        mergeable(map[index], map[index + 1]),
    ensures
        map_sound(merged(map, index)),
        forall|address: int|
            #![trigger kind_at(merged(map, index), address)]
            kind_at(merged(map, index), address) == kind_at(map, address),
{
    sound_map_is_sorted(map);
    merging_keeps_order(map, index);
    let after = merged(map, index);
    assert(end_of(map[index]) == map[index + 1].PhysicalStart);
    assert forall|i: int, j: int| 0 <= i < j < after.len() implies end_of(#[trigger] after[i])
        <= (#[trigger] after[j]).PhysicalStart by {
        let from_i = if i < index {
            i
        } else {
            i + 1
        };
        let from_j = if j <= index {
            j
        } else {
            j + 1
        };
        assert(end_of(after[i]) == end_of(map[from_i]));
        assert(after[j].PhysicalStart == map[from_j].PhysicalStart);
        assert(end_of(map[from_i]) <= map[from_j].PhysicalStart);
    }
    assert forall|address: int|
        #![trigger kind_at(after, address)]
        kind_at(after, address) == kind_at(map, address) by {
        assert forall|i: int| 0 <= i < map.len() && covers(#[trigger] map[i], address) implies exists|
            j: int,
        | 0 <= j < after.len() && covers(#[trigger] after[j], address) && after[j].Type
            == map[i].Type by {
            if i < index {
                assert(after[i] == map[i]);
            } else if i > index + 1 {
                assert(after[i - 1] == map[i]);
            } else {
                assert(covers(after[index], address));
            }
        }
        assert forall|j: int| 0 <= j < after.len() && covers(#[trigger] after[j], address) implies exists|
            i: int,
        | 0 <= i < map.len() && covers(#[trigger] map[i], address) by {
            if j < index {
                assert(covers(map[j], address));
            } else if j > index {
                assert(covers(map[j + 1], address));
            } else if address < end_of(map[index]) {
                assert(covers(map[index], address));
            } else {
                assert(covers(map[index + 1], address));
            }
        }
        kinds_agree(map, after, address);
    }
}

/// A sound map is sorted.
pub proof fn sound_map_is_sorted(map: Seq<EFI_MEMORY_DESCRIPTOR>)
    requires
        map_sound(map),
    ensures
        sorted_by_start(map),
{
    assert forall|i: int, j: int| 0 <= i < j < map.len() implies (#[trigger] map[i]).PhysicalStart
        <= (#[trigger] map[j]).PhysicalStart by {
        assert(end_of(map[i]) <= map[j].PhysicalStart);
        assert(sound(map[i]));
    }
}

proof fn coalescing_keeps_kinds_from(map: Seq<EFI_MEMORY_DESCRIPTOR>, index: int)
    requires
        map_sound(map),
        0 <= index,
    ensures
        map_sound(coalesced_from(map, index)),
        forall|address: int|
            #![trigger kind_at(coalesced_from(map, index), address)]
            kind_at(coalesced_from(map, index), address) == kind_at(map, address),
    decreases map.len() - index,
{
    if index + 1 >= map.len() {
    } else if mergeable(map[index], map[index + 1]) {
        let after = merged(map, index);
        merging_keeps_kinds(map, index);
        coalescing_keeps_kinds_from(after, index);
        assert forall|address: int|
            #![trigger kind_at(coalesced_from(map, index), address)]
            kind_at(coalesced_from(map, index), address) == kind_at(map, address) by {
            assert(kind_at(coalesced_from(after, index), address) == kind_at(after, address));
            assert(kind_at(after, address) == kind_at(map, address));
        }
    } else {
        coalescing_keeps_kinds_from(map, index + 1);
    }
}

/// Merging neighbours keeps a map sound, leaves nothing to merge, takes no more
/// descriptors, and does not change the kind of any address.
pub proof fn coalescing_keeps_kinds(map: Seq<EFI_MEMORY_DESCRIPTOR>)
    requires
        map_sound(map),
    ensures
        map_sound(coalesced(map)),
        fully_merged(coalesced(map)),
        coalesced(map).len() <= map.len(),
        forall|address: int|
            #![trigger kind_at(coalesced(map), address)]
            kind_at(coalesced(map), address) == kind_at(map, address),
{
    sound_map_is_sorted(map);
    coalescing_keeps_order(map, 0);
    coalescing_keeps_kinds_from(map, 0);
}

/// A map under construction: the map as far as it got, and how it went.
pub struct Carving {
    pub map: Seq<EFI_MEMORY_DESCRIPTOR>,
    pub outcome: Result<(), MemoryError>,
}

/// Start of the part of a range that a descriptor covers.
pub open spec fn overlap_start(descriptor: EFI_MEMORY_DESCRIPTOR, start: int) -> int {
    if descriptor.PhysicalStart > start {
        descriptor.PhysicalStart as int
    } else {
        start
    }
}

/// End of the part of a range that a descriptor covers.
pub open spec fn overlap_end(descriptor: EFI_MEMORY_DESCRIPTOR, end: int) -> int {
    if end_of(descriptor) < end {
        end_of(descriptor)
    } else {
        end
    }
}

/// A map in which all conventional memory of a range, from descriptor `index`
/// on, becomes memory of another kind. A map of `capacity` descriptors that
/// would need more is an error.
pub open spec fn carved_from(
    map: Seq<EFI_MEMORY_DESCRIPTOR>,
    index: int,
    start: int,
    end: int,
    kind: u32,
    capacity: nat,
) -> Carving
    decreases map.len() - index,
{
    if index < 0 || index >= map.len() {
        Carving { map, outcome: Ok(()) }
    } else {
        let descriptor = map[index];
        let from = overlap_start(descriptor, start);
        let to = overlap_end(descriptor, end);
        let after = replaced(map, index, from, to, kind);
        if end_of(descriptor) <= start {
            carved_from(map, index + 1, start, end, kind, capacity)
        } else if descriptor.PhysicalStart >= end {
            Carving { map, outcome: Ok(()) }
        } else if descriptor.Type != CONVENTIONAL {
            carved_from(map, index + 1, start, end, kind, capacity)
        } else if after.len() > capacity {
            Carving { map, outcome: Err(MemoryError::BufferTooSmall) }
        } else if end < end_of(descriptor) {
            Carving { map: after, outcome: Ok(()) }
        } else {
            let next = if from > descriptor.PhysicalStart {
                index + 2
            } else {
                index + 1
            };
            carved_from(after, next, start, end, kind, capacity)
        }
    }
}

/// A map in which all conventional memory of a range becomes memory of another
/// kind.
pub open spec fn carved(
    map: Seq<EFI_MEMORY_DESCRIPTOR>,
    start: int,
    end: int,
    kind: u32,
    capacity: nat,
) -> Carving {
    carved_from(map, 0, start, end, kind, capacity)
}

/// Whether `after` gives an address of conventional memory in the range either
/// the new kind or, where `complete` does not hold, possibly still the old one,
/// and any other address what `before` gave it.
pub open spec fn carved_kind(
    before: Seq<EFI_MEMORY_DESCRIPTOR>,
    after: Seq<EFI_MEMORY_DESCRIPTOR>,
    start: int,
    end: int,
    kind: u32,
    complete: bool,
    address: int,
) -> bool {
    if start <= address < end && kind_at(before, address) == Some(CONVENTIONAL) {
        kind_at(after, address) == Some(kind) || (!complete && kind_at(after, address) == Some(
            CONVENTIONAL,
        ))
    } else {
        kind_at(after, address) == kind_at(before, address)
    }
}

proof fn carving_changes_range_from(
    map: Seq<EFI_MEMORY_DESCRIPTOR>,
    index: int,
    start: int,
    end: int,
    kind: u32,
    capacity: nat,
)
    requires
        map_sound(map),
        map.len() <= capacity,
        kind != CONVENTIONAL,
        0 <= index,
        start % 4096 == 0,
        end % 4096 == 0,
        start < end,
        forall|i: int|
            0 <= i < index && i < map.len() ==> end_of(#[trigger] map[i]) <= start || map[i].Type
                != CONVENTIONAL,
    ensures
        map_sound(carved_from(map, index, start, end, kind, capacity).map),
        carved_from(map, index, start, end, kind, capacity).map.len() <= capacity,
        forall|address: int|
            #![trigger kind_at(carved_from(map, index, start, end, kind, capacity).map, address)]
            carved_kind(
                map,
                carved_from(map, index, start, end, kind, capacity).map,
                start,
                end,
                kind,
                carved_from(map, index, start, end, kind, capacity).outcome is Ok,
                address,
            ),
    decreases map.len() - index,
{
    let whole = carved_from(map, index, start, end, kind, capacity);
    if index >= map.len() {
        assert forall|address: int| carved_kind(map, map, start, end, kind, true, address) by {
            untouched_kind(map, index, start, end, address);
        }
    } else {
        let d = map[index];
        let from = overlap_start(d, start);
        let to = overlap_end(d, end);
        let after = replaced(map, index, from, to, kind);
        if end_of(d) <= start {
            carving_changes_range_from(map, index + 1, start, end, kind, capacity);
        } else if d.PhysicalStart >= end {
            assert forall|address: int| carved_kind(map, map, start, end, kind, true, address) by {
                untouched_kind(map, index, start, end, address);
            }
        } else if d.Type != CONVENTIONAL {
            carving_changes_range_from(map, index + 1, start, end, kind, capacity);
        } else if after.len() > capacity {
        } else {
            assert(sound(d));
            assert(within(d, from, to));
            replaced_changes_range(map, index, from, to, kind);
            let prefix = from > d.PhysicalStart;
            let next = if prefix {
                index + 2
            } else {
                index + 1
            };
            assert forall|i: int| 0 <= i < next && i < after.len() implies end_of(
                #[trigger] after[i],
            ) <= start || after[i].Type != CONVENTIONAL by {
                if i < index {
                    assert(after[i] == map[i]);
                } else if prefix && i == index {
                    assert(after[i] == range_of(d.Type, d.PhysicalStart as int, from));
                } else {
                    assert(after[i] == range_of(kind, from, to));
                }
            }
            let rest = if end < end_of(d) {
                assert forall|address: int| carved_kind(
                    after,
                    after,
                    start,
                    end,
                    kind,
                    true,
                    address,
                ) by {
                    if next < after.len() {
                        assert(after[next] == range_of(d.Type, end, end_of(d)));
                    }
                    untouched_kind(after, next, start, end, address);
                }
                Carving { map: after, outcome: Ok(()) }
            } else {
                carving_changes_range_from(after, next, start, end, kind, capacity);
                carved_from(after, next, start, end, kind, capacity)
            };
            assert(whole == rest);
            assert forall|address: int|
                #![trigger kind_at(whole.map, address)]
                carved_kind(map, whole.map, start, end, kind, whole.outcome is Ok, address) by {
                assert(kind_at(rest.map, address) == kind_at(whole.map, address));
                assert(carved_kind(
                    after,
                    rest.map,
                    start,
                    end,
                    kind,
                    rest.outcome is Ok,
                    address,
                ));
                assert(kind_at(after, address) == if from <= address < to {
                    Some(kind)
                } else {
                    kind_at(map, address)
                });
                if from <= address < to {
                    kind_of_covered(map, index, address);
                }
            }
        }
    }
}

/// Conventional memory in a range is not covered by descriptors that were passed
/// over, nor by those that start behind the range.
proof fn untouched_kind(
    map: Seq<EFI_MEMORY_DESCRIPTOR>,
    index: int,
    start: int,
    end: int,
    address: int,
)
    requires
        map_sound(map),
        0 <= index,
        forall|i: int|
            0 <= i < index && i < map.len() ==> end_of(#[trigger] map[i]) <= start || map[i].Type
                != CONVENTIONAL,
        index < map.len() ==> map[index].PhysicalStart >= end,
    ensures
        start <= address < end ==> kind_at(map, address) != Some(CONVENTIONAL),
{
    if start <= address < end && kind_at(map, address) == Some(CONVENTIONAL) {
        let i = choose|i: int| 0 <= i < map.len() && covers(#[trigger] map[i], address);
        kind_of_covered(map, i, address);
        if i > index {
            assert(end_of(map[index]) <= map[i].PhysicalStart);
            assert(sound(map[index]));
        }
        assert(false);
    }
}

/// Carving a range keeps a map sound. It turns the conventional memory of the
/// range into the new kind and leaves everything else alone; where it runs out
/// of descriptors, part of the range may still be conventional.
pub proof fn carving_changes_range(
    map: Seq<EFI_MEMORY_DESCRIPTOR>,
    start: int,
    end: int,
    kind: u32,
    capacity: nat,
)
    requires
        map_sound(map),
        map.len() <= capacity,
        kind != CONVENTIONAL,
        start % 4096 == 0,
        end % 4096 == 0,
        start < end,
    ensures
        map_sound(carved(map, start, end, kind, capacity).map),
        carved(map, start, end, kind, capacity).map.len() <= capacity,
        forall|address: int|
            #![trigger kind_at(carved(map, start, end, kind, capacity).map, address)]
            carved_kind(
                map,
                carved(map, start, end, kind, capacity).map,
                start,
                end,
                kind,
                carved(map, start, end, kind, capacity).outcome is Ok,
                address,
            ),
{
    carving_changes_range_from(map, 0, start, end, kind, capacity);
}

/// Largest multiple of `unit` that is not above `value`.
pub open spec fn multiple_below(value: int, unit: int) -> int {
    value / unit * unit
}

/// Smallest multiple of `unit` that is not below `value`.
pub open spec fn multiple_above(value: int, unit: int) -> int {
    (value + unit - 1) / unit * unit
}

/// The whole pages of a region: those that it touches when `outward` holds, else
/// those that it covers. Nothing where there are none.
pub open spec fn region_pages(region: MemoryRegion, outward: bool) -> Result<
    Option<(int, int)>,
    MemoryError,
> {
    let limit = region.base + region.size;
    let start = if outward {
        multiple_below(region.base as int, 4096)
    } else {
        multiple_above(region.base as int, 4096)
    };
    let end = if outward {
        multiple_above(limit, 4096)
    } else {
        multiple_below(limit, 4096)
    };
    if limit > u64::MAX || (outward && limit + 4095 > u64::MAX) || (!outward && region.base + 4095
        > u64::MAX) {
        Err(MemoryError::AddressOverflow)
    } else if end <= start {
        Ok(None)
    } else {
        Ok(Some((start, end)))
    }
}

/// The map of the whole pages of memory regions, sorted by address.
pub open spec fn regions_inserted(regions: Seq<MemoryRegion>, capacity: nat) -> Carving
    decreases regions.len(),
{
    if regions.len() == 0 {
        Carving { map: Seq::empty(), outcome: Ok(()) }
    } else {
        let before = regions_inserted(regions.drop_last(), capacity);
        if before.outcome is Err {
            before
        } else {
            match region_pages(regions.last(), false) {
                Err(error) => Carving { outcome: Err(error), ..before },
                Ok(None) => before,
                Ok(Some((start, end))) => if before.map.len() >= capacity {
                    Carving { outcome: Err(MemoryError::BufferTooSmall), ..before }
                } else {
                    Carving {
                        map: sorted_insert(before.map, range_of(CONVENTIONAL, start, end)),
                        ..before
                    }
                },
            }
        }
    }
}

/// A map from which the pages that a region touches are carved.
pub open spec fn region_carved(
    map: Seq<EFI_MEMORY_DESCRIPTOR>,
    region: MemoryRegion,
    kind: u32,
    capacity: nat,
) -> Carving {
    match region_pages(region, true) {
        Err(error) => Carving { map, outcome: Err(error) },
        Ok(None) => Carving { map, outcome: Ok(()) },
        Ok(Some((start, end))) => carved(map, start, end, kind, capacity),
    }
}

/// A map from which regions are carved one after the other, up to the first
/// error.
pub open spec fn regions_carved(
    map: Seq<EFI_MEMORY_DESCRIPTOR>,
    regions: Seq<MemoryRegion>,
    kind: u32,
    capacity: nat,
) -> Carving
    decreases regions.len(),
{
    if regions.len() == 0 {
        Carving { map, outcome: Ok(()) }
    } else {
        let before = regions_carved(map, regions.drop_last(), kind, capacity);
        if before.outcome is Err {
            before
        } else {
            region_carved(before.map, regions.last(), kind, capacity)
        }
    }
}

/// A map from which the range from `start` to `end` is carved, if it is not
/// empty.
pub open spec fn span_carved(
    carving: Carving,
    start: u64,
    end: u64,
    kind: u32,
    capacity: nat,
) -> Carving {
    if carving.outcome is Err || end <= start {
        carving
    } else {
        region_carved(
            carving.map,
            MemoryRegion { base: start, size: (end - start) as u64 },
            kind,
            capacity,
        )
    }
}

/// How memory for an allocation is looked for.
#[derive(Clone, Copy, Debug, PartialEq, Eq, Structural)]
pub enum Placement {
    /// As high as possible.
    Anywhere,
    /// As high as possible with no byte above an address.
    UpTo(u64),
    /// As low as possible at a multiple of an alignment.
    AlignedLow(u64),
    /// As high as possible at a multiple of an alignment.
    AlignedHigh(u64),
}

/// Where a range of `bytes` bytes goes inside of one descriptor, if it fits.
pub open spec fn place_in(descriptor: EFI_MEMORY_DESCRIPTOR, bytes: int, placement: Placement) -> Option<
    int,
> {
    let end = end_of(descriptor);
    let place = match placement {
        Placement::Anywhere => end - bytes,
        Placement::UpTo(limit) => if limit < u64::MAX && limit + 1 < end {
            multiple_below(limit + 1 - bytes, 4096)
        } else {
            end - bytes
        },
        Placement::AlignedLow(alignment) => multiple_above(
            descriptor.PhysicalStart as int,
            alignment as int,
        ),
        Placement::AlignedHigh(alignment) => multiple_below(end - bytes, alignment as int),
    };
    if descriptor.Type == CONVENTIONAL && descriptor.PhysicalStart <= place && place + bytes <= end {
        Some(place)
    } else {
        None
    }
}

/// The better of two places: the lower one when memory is looked for from below,
/// else the higher one.
pub open spec fn better(a: Option<int>, b: Option<int>, placement: Placement) -> Option<int> {
    match (a, b) {
        (Some(x), Some(y)) => Some(
            if (placement is AlignedLow && x < y) || (!(placement is AlignedLow) && x > y) {
                x
            } else {
                y
            },
        ),
        (None, _) => b,
        (_, None) => a,
    }
}

/// The best place for a range of `bytes` bytes.
pub open spec fn best_place(map: Seq<EFI_MEMORY_DESCRIPTOR>, bytes: int, placement: Placement) -> Option<
    int,
>
    decreases map.len(),
{
    if map.len() == 0 {
        None
    } else {
        better(
            best_place(map.drop_last(), bytes, placement),
            place_in(map.last(), bytes, placement),
            placement,
        )
    }
}

/// The best place is one in some descriptor, and no descriptor has a better one.
pub proof fn best_place_is_best(map: Seq<EFI_MEMORY_DESCRIPTOR>, bytes: int, placement: Placement)
    ensures
        best_place(map, bytes, placement) is None <==> forall|i: int|
            0 <= i < map.len() ==> place_in(#[trigger] map[i], bytes, placement) is None,
        best_place(map, bytes, placement) matches Some(best) ==> (exists|i: int|
            0 <= i < map.len() && place_in(#[trigger] map[i], bytes, placement) == Some(best)) && (
        forall|i: int|
            0 <= i < map.len() ==> (place_in(#[trigger] map[i], bytes, placement) matches Some(
                other,
            ) ==> if placement is AlignedLow {
                best <= other
            } else {
                best >= other
            })),
    decreases map.len(),
{
    if map.len() > 0 {
        let shorter = map.drop_last();
        best_place_is_best(shorter, bytes, placement);
        assert(forall|i: int| 0 <= i < shorter.len() ==> shorter[i] == map[i]);
        assert(map[map.len() - 1] == map.last());
        let before = best_place(shorter, bytes, placement);
        if let Some(best) = best_place(map, bytes, placement) {
            if before == Some(best) {
                let i = choose|i: int|
                    0 <= i < shorter.len() && place_in(#[trigger] shorter[i], bytes, placement)
                        == Some(best);
                assert(place_in(map[i], bytes, placement) == Some(best));
            } else {
                assert(place_in(map[map.len() - 1], bytes, placement) == Some(best));
            }
        } else {
            assert forall|i: int| 0 <= i < map.len() implies place_in(
                #[trigger] map[i],
                bytes,
                placement,
            ) is None by {
                if i < shorter.len() {
                    assert(place_in(shorter[i], bytes, placement) is None);
                }
            }
        }
        assert forall|i: int| 0 <= i < map.len() && place_in(
            #[trigger] map[i],
            bytes,
            placement,
        ) is Some implies best_place(map, bytes, placement) is Some by {
            if i < shorter.len() {
                assert(place_in(shorter[i], bytes, placement) == place_in(
                    map[i],
                    bytes,
                    placement,
                ));
            }
        }
        if let Some(best) = best_place(map, bytes, placement) {
            assert forall|i: int| 0 <= i < map.len() implies (place_in(
                #[trigger] map[i],
                bytes,
                placement,
            ) matches Some(other) ==> if placement is AlignedLow {
                best <= other
            } else {
                best >= other
            }) by {
                if i < shorter.len() {
                    assert(place_in(shorter[i], bytes, placement) == place_in(
                        map[i],
                        bytes,
                        placement,
                    ));
                }
            }
        }
    }
}

/// Whether looking for an aligned place runs past the last address in some
/// descriptor that is large enough.
pub open spec fn alignment_overflows(
    map: Seq<EFI_MEMORY_DESCRIPTOR>,
    bytes: int,
    placement: Placement,
) -> bool {
    placement matches Placement::AlignedLow(alignment) && exists|i: int|
        0 <= i < map.len() && (#[trigger] map[i]).Type == CONVENTIONAL && end_of(map[i]) - bytes
            >= map[i].PhysicalStart && map[i].PhysicalStart + alignment - 1 > u64::MAX
}

/// The best place for a range, or why there is none.
pub open spec fn place_found(map: Seq<EFI_MEMORY_DESCRIPTOR>, bytes: int, placement: Placement) -> Result<
    u64,
    MemoryError,
> {
    if alignment_overflows(map, bytes, placement) {
        Err(MemoryError::AddressOverflow)
    } else {
        match best_place(map, bytes, placement) {
            Some(place) => Ok(place as u64),
            None => Err(MemoryError::OutOfResources),
        }
    }
}

/// The first descriptor from `index` on that covers a whole range.
pub open spec fn covering_from(
    map: Seq<EFI_MEMORY_DESCRIPTOR>,
    start: int,
    end: int,
    index: int,
) -> Option<int>
    decreases map.len() - index,
{
    if index < 0 || index >= map.len() {
        None
    } else if map[index].PhysicalStart <= start && end <= end_of(map[index]) {
        Some(index)
    } else {
        covering_from(map, start, end, index + 1)
    }
}

/// A map in which a range that lies inside of one descriptor gets a new kind,
/// with neighbours merged, or why it cannot be had.
pub open spec fn retyped(
    map: Seq<EFI_MEMORY_DESCRIPTOR>,
    index: int,
    start: int,
    end: int,
    kind: u32,
    capacity: nat,
) -> Result<Seq<EFI_MEMORY_DESCRIPTOR>, MemoryError> {
    let after = replaced(map, index, start, end, kind);
    if after.len() > capacity {
        Err(MemoryError::BufferTooSmall)
    } else {
        Ok(coalesced(after))
    }
}

/// The map after an allocation at `start`, or why it is refused. Only
/// conventional memory can be allocated.
pub open spec fn allocated(
    map: Seq<EFI_MEMORY_DESCRIPTOR>,
    start: u64,
    pages: u64,
    kind: u32,
    capacity: nat,
) -> Result<Seq<EFI_MEMORY_DESCRIPTOR>, MemoryError> {
    let end = start + pages * 4096;
    if end > u64::MAX {
        Err(MemoryError::AddressOverflow)
    } else {
        match covering_from(map, start as int, end, 0) {
            None => Err(MemoryError::NotFound),
            Some(index) => if map[index].Type != CONVENTIONAL {
                Err(MemoryError::OutOfResources)
            } else {
                retyped(map, index, start as int, end, kind, capacity)
            },
        }
    }
}

/// The map after the release of a range, or why it is refused. Conventional
/// memory is not allocated, and reserved memory stays reserved.
pub open spec fn released(
    map: Seq<EFI_MEMORY_DESCRIPTOR>,
    start: u64,
    pages: u64,
    capacity: nat,
) -> Result<Seq<EFI_MEMORY_DESCRIPTOR>, MemoryError> {
    let end = start + pages * 4096;
    if end > u64::MAX {
        Err(MemoryError::AddressOverflow)
    } else {
        match covering_from(map, start as int, end, 0) {
            None => Err(MemoryError::NotFound),
            Some(index) => if map[index].Type == CONVENTIONAL || map[index].Type == 0 {
                Err(MemoryError::InvalidParameter)
            } else {
                retyped(map, index, start as int, end, CONVENTIONAL, capacity)
            },
        }
    }
}

/// A descriptor that was found to cover a range does so.
pub proof fn covering_covers(map: Seq<EFI_MEMORY_DESCRIPTOR>, start: int, end: int, index: int)
    requires
        0 <= index,
    ensures
        covering_from(map, start, end, index) matches Some(found) ==> index <= found < map.len()
            && map[found].PhysicalStart <= start && end <= end_of(map[found]),
    decreases map.len() - index,
{
    if index < map.len() && !(map[index].PhysicalStart <= start && end <= end_of(map[index])) {
        covering_covers(map, start, end, index + 1);
    }
}

/// Giving a range a new kind keeps a map sound and changes the kind of the range
/// only.
pub proof fn retyping_changes_range(
    map: Seq<EFI_MEMORY_DESCRIPTOR>,
    index: int,
    start: int,
    end: int,
    kind: u32,
    capacity: nat,
)
    requires
        map_sound(map),
        0 <= index < map.len(),
        within(map[index], start, end),
    ensures
        retyped(map, index, start, end, kind, capacity) matches Ok(after) ==> map_sound(after)
            && after.len() <= capacity && forall|address: int|
            #![trigger kind_at(after, address)]
            kind_at(after, address) == if start <= address < end {
                Some(kind)
            } else {
                kind_at(map, address)
            },
{
    let middle = replaced(map, index, start, end, kind);
    replaced_changes_range(map, index, start, end, kind);
    coalescing_keeps_kinds(middle);
    let after = coalesced(middle);
    assert forall|address: int|
        #![trigger kind_at(after, address)]
        kind_at(after, address) == if start <= address < end {
            Some(kind)
        } else {
            kind_at(map, address)
        } by {
        assert(kind_at(after, address) == kind_at(middle, address));
    }
}

/// An allocation takes conventional memory only, gives it the requested kind, and
/// changes nothing else.
pub proof fn allocation_changes_range(
    map: Seq<EFI_MEMORY_DESCRIPTOR>,
    start: u64,
    pages: u64,
    kind: u32,
    capacity: nat,
)
    requires
        map_sound(map),
        pages > 0,
        start % 4096 == 0,
    ensures
        allocated(map, start, pages, kind, capacity) matches Ok(after) ==> map_sound(after)
            && after.len() <= capacity && forall|address: int|
            #![trigger kind_at(after, address)]
            if start <= address < start + pages * 4096 {
                kind_at(map, address) == Some(CONVENTIONAL) && kind_at(after, address) == Some(kind)
            } else {
                kind_at(after, address) == kind_at(map, address)
            },
{
    let end = start + pages * 4096;
    covering_covers(map, start as int, end, 0);
    if let Some(index) = covering_from(map, start as int, end, 0) {
        if end <= u64::MAX && map[index].Type == CONVENTIONAL {
            retyping_changes_range(map, index, start as int, end, kind, capacity);
            if let Ok(after) = allocated(map, start, pages, kind, capacity) {
                assert forall|address: int|
                    #![trigger kind_at(after, address)]
                    if start <= address < end {
                        kind_at(map, address) == Some(CONVENTIONAL) && kind_at(after, address)
                            == Some(kind)
                    } else {
                        kind_at(after, address) == kind_at(map, address)
                    } by {
                    if start <= address < end {
                        kind_of_covered(map, index, address);
                    }
                }
            }
        }
    }
}

/// A release takes memory that was neither conventional nor reserved, makes it
/// conventional, and changes nothing else.
pub proof fn release_changes_range(
    map: Seq<EFI_MEMORY_DESCRIPTOR>,
    start: u64,
    pages: u64,
    capacity: nat,
)
    requires
        map_sound(map),
        pages > 0,
        start % 4096 == 0,
    ensures
        released(map, start, pages, capacity) matches Ok(after) ==> map_sound(after) && after.len()
            <= capacity && forall|address: int|
            #![trigger kind_at(after, address)]
            if start <= address < start + pages * 4096 {
                kind_at(map, address) is Some && kind_at(map, address) != Some(CONVENTIONAL)
                    && kind_at(map, address) != Some(0u32) && kind_at(after, address) == Some(
                    CONVENTIONAL,
                )
            } else {
                kind_at(after, address) == kind_at(map, address)
            },
{
    let end = start + pages * 4096;
    covering_covers(map, start as int, end, 0);
    if let Some(index) = covering_from(map, start as int, end, 0) {
        if end <= u64::MAX && map[index].Type != CONVENTIONAL && map[index].Type != 0 {
            retyping_changes_range(map, index, start as int, end, CONVENTIONAL, capacity);
            if let Ok(after) = released(map, start, pages, capacity) {
                assert forall|address: int|
                    #![trigger kind_at(after, address)]
                    if start <= address < end {
                        kind_at(map, address) is Some && kind_at(map, address) != Some(CONVENTIONAL)
                            && kind_at(map, address) != Some(0u32) && kind_at(after, address)
                            == Some(CONVENTIONAL)
                    } else {
                        kind_at(after, address) == kind_at(map, address)
                    } by {
                    if start <= address < end {
                        kind_of_covered(map, index, address);
                    }
                }
            }
        }
    }
}

/// In a map with nothing left to merge, a range of one kind lies in one
/// descriptor, which is found to cover it.
pub proof fn one_kind_is_covered(map: Seq<EFI_MEMORY_DESCRIPTOR>, start: int, end: int, kind: u32)
    requires
        map_sound(map),
        fully_merged(map),
        start < end,
        forall|address: int| start <= address < end ==> #[trigger] kind_at(map, address) == Some(kind),
    ensures
        covering_from(map, start, end, 0) matches Some(index) && 0 <= index < map.len()
            && map[index].Type == kind,
{
    assert(kind_at(map, start) == Some(kind));
    let first = choose|i: int| 0 <= i < map.len() && covers(#[trigger] map[i], start);
    kind_of_covered(map, first, start);
    let edge = end_of(map[first]);
    if edge < end {
        assert(kind_at(map, edge) == Some(kind));
        let next = choose|i: int| 0 <= i < map.len() && covers(#[trigger] map[i], edge);
        kind_of_covered(map, next, edge);
        if next < first {
            assert(end_of(map[next]) <= map[first].PhysicalStart);
            assert(sound(map[first]));
        }
        assert(first < next);
        assert(end_of(map[first]) <= map[first + 1].PhysicalStart);
        if first + 1 < next {
            assert(end_of(map[first + 1]) <= map[next].PhysicalStart);
            assert(sound(map[first + 1]));
        }
        assert(sound(map[first]) && sound(map[first + 1]));
        assert(!mergeable(map[first], map[first + 1]));
        assert(false);
    }
    covering_is_found(map, start, end, 0, first);
    covering_covers(map, start, end, 0);
    if let Some(index) = covering_from(map, start, end, 0) {
        kind_of_covered(map, index, start);
    }
}

proof fn covering_is_found(
    map: Seq<EFI_MEMORY_DESCRIPTOR>,
    start: int,
    end: int,
    index: int,
    witness: int,
)
    requires
        0 <= index <= witness < map.len(),
        map[witness].PhysicalStart <= start,
        end <= end_of(map[witness]),
    ensures
        covering_from(map, start, end, index) is Some,
    decreases map.len() - index,
{
    if !(map[index].PhysicalStart <= start && end <= end_of(map[index])) {
        covering_is_found(map, start, end, index + 1, witness);
    }
}

/// Whether neighbours of one kind meet only at the given addresses, and no descriptor
/// goes across one of those.
spec fn cut_at(map: Seq<EFI_MEMORY_DESCRIPTOR>, cuts: Set<int>) -> bool {
    &&& forall|i: int|
        0 <= i && i + 1 < map.len() && mergeable(#[trigger] map[i], map[i + 1]) ==> cuts.contains(
            map[i + 1].PhysicalStart as int,
        )
    &&& forall|i: int, cut: int|
        0 <= i < map.len() && #[trigger] cuts.contains(cut) ==> !((#[trigger] map[i]).PhysicalStart
            < cut < end_of(map[i]))
}

/// A range of one kind that goes across no cut lies in one descriptor.
#[verifier::spinoff_prover]
proof fn uncut_range_is_covered(
    map: Seq<EFI_MEMORY_DESCRIPTOR>,
    cuts: Set<int>,
    start: int,
    end: int,
    kind: u32,
) -> (index: int)
    requires
        map_sound(map),
        cut_at(map, cuts),
        start < end,
        forall|cut: int| #[trigger] cuts.contains(cut) ==> !(start < cut < end),
        forall|address: int| start <= address < end ==> #[trigger] kind_at(map, address) == Some(kind),
    ensures
        0 <= index < map.len(),
        map[index].PhysicalStart <= start,
        end <= end_of(map[index]),
        map[index].Type == kind,
{
    assert(kind_at(map, start) == Some(kind));
    let first = choose|i: int| 0 <= i < map.len() && covers(#[trigger] map[i], start);
    kind_of_covered(map, first, start);
    let edge = end_of(map[first]);
    if edge < end {
        assert(kind_at(map, edge) == Some(kind));
        let next = choose|i: int| 0 <= i < map.len() && covers(#[trigger] map[i], edge);
        kind_of_covered(map, next, edge);
        if next < first {
            assert(end_of(map[next]) <= map[first].PhysicalStart);
            assert(sound(map[first]));
        }
        assert(first < next);
        assert(end_of(map[first]) <= map[first + 1].PhysicalStart);
        if first + 1 < next {
            assert(end_of(map[first + 1]) <= map[next].PhysicalStart);
            assert(sound(map[first + 1]));
        }
        assert(sound(map[first]) && sound(map[first + 1]));
        assert(mergeable(map[first], map[first + 1]));
        assert(cuts.contains(edge));
    }
    first
}

/// Two maps with the same cuts that give each address the same kind are the same.
proof fn same_kinds_same_map(
    left: Seq<EFI_MEMORY_DESCRIPTOR>,
    right: Seq<EFI_MEMORY_DESCRIPTOR>,
    cuts: Set<int>,
)
    requires
        map_sound(left),
        map_sound(right),
        cut_at(left, cuts),
        cut_at(right, cuts),
        forall|address: int| #[trigger] kind_at(left, address) == kind_at(right, address),
    ensures
        left == right,
{
    assert forall|address: int| #[trigger] kind_at(right, address) == kind_at(left, address) by {
        assert(kind_at(left, address) == kind_at(right, address));
    }
    if left.len() <= right.len() {
        same_descriptors(left, right, cuts, left.len() as int);
        if left.len() < right.len() {
            next_is_there(right, left, cuts, left.len() as int);
        }
    } else {
        same_descriptors(left, right, cuts, right.len() as int);
        next_is_there(left, right, cuts, right.len() as int);
    }
    assert(left =~= right);
}

/// Behind equal beginnings, the next descriptor of a map lies in one of the other.
#[verifier::spinoff_prover]
proof fn next_is_there(
    left: Seq<EFI_MEMORY_DESCRIPTOR>,
    right: Seq<EFI_MEMORY_DESCRIPTOR>,
    cuts: Set<int>,
    count: int,
) -> (index: int)
    requires
        map_sound(left),
        map_sound(right),
        cut_at(left, cuts),
        cut_at(right, cuts),
        forall|address: int| #[trigger] kind_at(left, address) == kind_at(right, address),
        0 <= count < left.len(),
        count <= right.len(),
        forall|i: int| 0 <= i < count ==> left[i] == right[i],
    ensures
        count <= index < right.len(),
        right[index].PhysicalStart <= left[count].PhysicalStart,
        end_of(left[count]) <= end_of(right[index]),
        right[index].Type == left[count].Type,
{
    let d = left[count];
    assert(sound(d));
    assert forall|address: int| d.PhysicalStart <= address < end_of(d) implies #[trigger] kind_at(
        right,
        address,
    ) == Some(d.Type) by {
        assert(kind_at(left, address) == kind_at(right, address));
        kind_of_covered(left, count, address);
    }
    let index = uncut_range_is_covered(
        right,
        cuts,
        d.PhysicalStart as int,
        end_of(d),
        d.Type,
    );
    if index < count {
        assert(left[index] == right[index]);
        assert(end_of(left[index]) <= left[count].PhysicalStart);
    }
    index
}

#[verifier::spinoff_prover]
proof fn same_descriptors(
    left: Seq<EFI_MEMORY_DESCRIPTOR>,
    right: Seq<EFI_MEMORY_DESCRIPTOR>,
    cuts: Set<int>,
    count: int,
)
    requires
        map_sound(left),
        map_sound(right),
        cut_at(left, cuts),
        cut_at(right, cuts),
        forall|address: int| #[trigger] kind_at(left, address) == kind_at(right, address),
        forall|address: int| #[trigger] kind_at(right, address) == kind_at(left, address),
        0 <= count <= left.len(),
        count <= right.len(),
    ensures
        forall|i: int| 0 <= i < count ==> left[i] == right[i],
    decreases count,
{
    if count > 0 {
        let last = count - 1;
        same_descriptors(left, right, cuts, last);
        let i = next_is_there(left, right, cuts, last);
        let j = next_is_there(right, left, cuts, last);
        assert(sound(left[last]) && sound(right[last]));
        if i > last {
            assert(end_of(right[last]) <= right[i].PhysicalStart);
            if j > last {
                assert(end_of(left[last]) <= left[j].PhysicalStart);
            }
            assert(false);
        }
        if j > last {
            assert(end_of(left[last]) <= left[j].PhysicalStart);
            assert(false);
        }
        assert(left[last] == right[last]);
    }
}

/// The descriptors that take the place of one, by their places.
proof fn parts_by_place(d: EFI_MEMORY_DESCRIPTOR, start: int, end: int, kind: u32)
    requires
        sound(d),
        within(d, start, end),
    ensures
        ({
            let parts = parts_of(d, start, end, kind);
            let before: int = if start > d.PhysicalStart {
                1
            } else {
                0
            };
            let behind: int = if end < end_of(d) {
                1
            } else {
                0
            };
            &&& parts.len() == before + 1 + behind
            &&& before == 1 ==> parts[0] == range_of(d.Type, d.PhysicalStart as int, start)
            &&& parts[before] == range_of(kind, start, end)
            &&& behind == 1 ==> parts[before + 1] == range_of(d.Type, end, end_of(d))
            &&& before == 1 ==> end_of(parts[0]) == start
            &&& end_of(parts[before]) == end
            &&& behind == 1 ==> end_of(parts[before + 1]) == end_of(d)
        }),
{
    assert(end_of(d) % 4096 == 0);
}

/// The descriptor at a place of a map in which a range was replaced.
proof fn replaced_by_place(
    map: Seq<EFI_MEMORY_DESCRIPTOR>,
    index: int,
    start: int,
    end: int,
    kind: u32,
    i: int,
)
    requires
        0 <= index < map.len(),
        0 <= i < replaced(map, index, start, end, kind).len(),
    ensures
        ({
            let parts = parts_of(map[index], start, end, kind);
            replaced(map, index, start, end, kind)[i] == if i < index {
                map[i]
            } else if i < index + parts.len() {
                parts[i - index]
            } else {
                map[i - parts.len() + 1]
            }
        }),
{
}

/// Neighbours of one kind in a map in which a range was replaced meet at an end of the
/// range.
#[verifier::spinoff_prover]
#[verifier::rlimit(40)]
proof fn neighbours_are_cut(
    map: Seq<EFI_MEMORY_DESCRIPTOR>,
    index: int,
    start: int,
    end: int,
    kind: u32,
    i: int,
)
    requires
        map_sound(map),
        fully_merged(map),
        0 <= index < map.len(),
        within(map[index], start, end),
        0 <= i,
        i + 1 < replaced(map, index, start, end, kind).len(),
        mergeable(
            replaced(map, index, start, end, kind)[i],
            replaced(map, index, start, end, kind)[i + 1],
        ),
    ensures
        replaced(map, index, start, end, kind)[i + 1].PhysicalStart == start || replaced(
            map,
            index,
            start,
            end,
            kind,
        )[i + 1].PhysicalStart == end,
{
    let d = map[index];
    let parts = parts_of(d, start, end, kind);
    let more = parts.len() - 1;
    assert(sound(d));
    parts_by_place(d, start, end, kind);
    replaced_by_place(map, index, start, end, kind, i);
    replaced_by_place(map, index, start, end, kind, i + 1);
    if i + 1 < index {
        assert(!mergeable(map[i], map[i + 1]));
    } else if i + 1 == index {
        assert(!mergeable(map[i], map[i + 1]));
    } else if i < index + more {
        assert(i - index + 1 == 1 || i - index + 1 == 2);
    } else if i == index + more {
        assert(!mergeable(map[index], map[index + 1]));
        assert(end_of(map[index]) <= map[index + 1].PhysicalStart);
    } else {
        assert(!mergeable(map[i - more], map[i - more + 1]));
    }
}

/// No descriptor goes across an end of a range that was replaced.
#[verifier::spinoff_prover]
#[verifier::rlimit(40)]
proof fn ends_are_cuts(
    map: Seq<EFI_MEMORY_DESCRIPTOR>,
    index: int,
    start: int,
    end: int,
    kind: u32,
    i: int,
)
    requires
        map_sound(map),
        0 <= index < map.len(),
        within(map[index], start, end),
        0 <= i < replaced(map, index, start, end, kind).len(),
    ensures
        ({
            let d = replaced(map, index, start, end, kind)[i];
            !(d.PhysicalStart < start < end_of(d)) && !(d.PhysicalStart < end < end_of(d))
        }),
{
    let d = map[index];
    let parts = parts_of(d, start, end, kind);
    let more = parts.len() - 1;
    assert(sound(d));
    parts_by_place(d, start, end, kind);
    replaced_by_place(map, index, start, end, kind, i);
    if i < index {
        assert(end_of(map[i]) <= map[index].PhysicalStart);
    } else if i <= index + more {
        assert(i - index == 0 || i - index == 1 || i - index == 2);
    } else {
        assert(end_of(map[index]) <= map[i - more].PhysicalStart);
    }
}

/// Replacing a range in a map with nothing left to merge cuts it at the ends of the
/// range.
proof fn replacing_cuts(
    map: Seq<EFI_MEMORY_DESCRIPTOR>,
    index: int,
    start: int,
    end: int,
    kind: u32,
)
    requires
        map_sound(map),
        fully_merged(map),
        0 <= index < map.len(),
        within(map[index], start, end),
    ensures
        cut_at(replaced(map, index, start, end, kind), set![start, end]),
{
    let after = replaced(map, index, start, end, kind);
    let cuts = set![start, end];
    assert forall|i: int|
        0 <= i && i + 1 < after.len() && mergeable(
            #[trigger] after[i],
            after[i + 1],
        ) implies cuts.contains(after[i + 1].PhysicalStart as int) by {
        neighbours_are_cut(map, index, start, end, kind, i);
    }
    assert forall|i: int, cut: int|
        0 <= i < after.len() && #[trigger] cuts.contains(cut) implies !((
    #[trigger] after[i]).PhysicalStart < cut < end_of(after[i])) by {
        ends_are_cuts(map, index, start, end, kind, i);
    }
}

/// Making a range conventional again in a map in which only that range had changed
/// splits this map as it splits the map from before, and merging gives back the map from
/// before.
#[verifier::spinoff_prover]
#[verifier::rlimit(40)]
proof fn reopening_restores(
    map: Seq<EFI_MEMORY_DESCRIPTOR>,
    taken: Seq<EFI_MEMORY_DESCRIPTOR>,
    index: int,
    place: int,
    start: int,
    end: int,
)
    requires
        map_sound(map),
        fully_merged(map),
        map_sound(taken),
        fully_merged(taken),
        0 <= index < map.len(),
        within(map[index], start, end),
        map[index].Type == CONVENTIONAL,
        0 <= place < taken.len(),
        within(taken[place], start, end),
        forall|address: int|
            !(start <= address < end) ==> #[trigger] kind_at(taken, address) == kind_at(
                map,
                address,
            ),
    ensures
        replaced(taken, place, start, end, CONVENTIONAL) == replaced(
            map,
            index,
            start,
            end,
            CONVENTIONAL,
        ),
        coalesced(replaced(taken, place, start, end, CONVENTIONAL)) == map,
{
    let opened = replaced(taken, place, start, end, CONVENTIONAL);
    let split = replaced(map, index, start, end, CONVENTIONAL);
    replaced_changes_range(taken, place, start, end, CONVENTIONAL);
    replaced_changes_range(map, index, start, end, CONVENTIONAL);
    replacing_cuts(taken, place, start, end, CONVENTIONAL);
    replacing_cuts(map, index, start, end, CONVENTIONAL);
    assert forall|address: int| #[trigger] kind_at(opened, address) == kind_at(split, address) by {
        if !(start <= address < end) {
            assert(kind_at(taken, address) == kind_at(map, address));
        }
    }
    same_kinds_same_map(opened, split, set![start, end]);
    coalescing_keeps_kinds(split);
    let after = coalesced(split);
    assert forall|address: int| #[trigger] kind_at(after, address) == kind_at(map, address) by {
        assert(kind_at(after, address) == kind_at(split, address));
        if start <= address < end {
            kind_of_covered(map, index, address);
        }
    }
    same_kinds_same_map(after, map, Set::empty());
}

/// In a map with nothing left to merge, releasing what was allocated always works and
/// gives back the map from before, unless the memory was allocated as reserved or as
/// conventional.
pub proof fn release_undoes_allocation(
    map: Seq<EFI_MEMORY_DESCRIPTOR>,
    start: u64,
    pages: u64,
    kind: u32,
    capacity: nat,
)
    requires
        map_sound(map),
        fully_merged(map),
        pages > 0,
        start % 4096 == 0,
        kind != CONVENTIONAL,
        kind != 0,
    ensures
        allocated(map, start, pages, kind, capacity) matches Ok(taken) ==> released(
            taken,
            start,
            pages,
            capacity,
        ) == Ok::<Seq<EFI_MEMORY_DESCRIPTOR>, MemoryError>(map),
{
    allocation_changes_range(map, start, pages, kind, capacity);
    if let Ok(taken) = allocated(map, start, pages, kind, capacity) {
        let from = start as int;
        let end = start + pages * 4096;
        covering_covers(map, from, end, 0);
        let index = covering_from(map, from, end, 0)->0;
        replaced_changes_range(map, index, from, end, kind);
        coalescing_keeps_kinds(replaced(map, index, from, end, kind));
        one_kind_is_covered(taken, from, end, kind);
        covering_covers(taken, from, end, 0);
        let place = covering_from(taken, from, end, 0)->0;
        reopening_restores(map, taken, index, place, from, end);
        assert(replaced(map, index, from, end, CONVENTIONAL).len() == replaced(
            map,
            index,
            from,
            end,
            kind,
        ).len());
    }
}

} // verus!
