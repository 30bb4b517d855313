//! Memory layout described by a device tree.

use vstd::prelude::*;
use vstd::string::*;
use crate::bytes::{bytes_equal, starts_with};
use crate::devicetree::{
    filled, fitting, is_memory_name, regions_in, reserve_entries, store_regions,
};
pub use crate::devicetree::MemoryRegion;
use crate::dtb_read::{spans_of, Fdt, FdtNode};
use crate::fdt_nodes::{child_named, children_of, node_at, property_number, property_of, NodeSpan};
use crate::memory::{MemoryError, PageAllocator};
use crate::memory_map::{coalesced, region_carved};

verus! {

/// Which nodes of a list are asked for.
#[derive(Clone, Copy, Debug, PartialEq, Eq, Structural)]
pub enum RegionKind {
    /// Nodes that describe usable memory.
    Memory,
    /// All nodes.
    Reserved,
}

/// Whether a node is one of those asked for.
pub open spec fn node_wanted(
    structure: Seq<u8>,
    strings: Seq<u8>,
    node: NodeSpan,
    kind: RegionKind,
) -> bool {
    match kind {
        RegionKind::Memory => is_memory_name(node.name) && (property_of(
            structure,
            strings,
            node,
            "device_type".spec_bytes(),
        ) matches Some(value) ==> value == "memory\0".spec_bytes()),
        RegionKind::Reserved => true,
    }
}

/// Whether the memory of a node may be mapped.
pub open spec fn node_mappable(structure: Seq<u8>, strings: Seq<u8>, node: NodeSpan) -> bool {
    property_of(structure, strings, node, "no-map".spec_bytes()) is None
}

/// The ranges in the `reg` property of a node, if it is one of those asked for.
pub open spec fn node_regions(
    structure: Seq<u8>,
    strings: Seq<u8>,
    node: NodeSpan,
    address_cells: u32,
    size_cells: u32,
    kind: RegionKind,
) -> Seq<MemoryRegion> {
    match property_of(structure, strings, node, "reg".spec_bytes()) {
        Some(reg) => if node_wanted(structure, strings, node, kind) {
            regions_in(reg, address_cells, size_cells)
        } else {
            Seq::empty()
        },
        None => Seq::empty(),
    }
}

/// The ranges of a list of nodes, in order.
pub open spec fn regions_of_nodes(
    structure: Seq<u8>,
    strings: Seq<u8>,
    nodes: Seq<NodeSpan>,
    address_cells: u32,
    size_cells: u32,
    kind: RegionKind,
) -> Seq<MemoryRegion>
    decreases nodes.len(),
{
    if nodes.len() == 0 {
        Seq::empty()
    } else {
        regions_of_nodes(
            structure,
            strings,
            nodes.drop_last(),
            address_cells,
            size_cells,
            kind,
        ) + node_regions(structure, strings, nodes.last(), address_cells, size_cells, kind)
    }
}

/// Which ranges of a list of nodes may be mapped, in the order of the ranges.
pub open spec fn mappable_of_nodes(
    structure: Seq<u8>,
    strings: Seq<u8>,
    nodes: Seq<NodeSpan>,
    address_cells: u32,
    size_cells: u32,
    kind: RegionKind,
) -> Seq<bool>
    decreases nodes.len(),
{
    if nodes.len() == 0 {
        Seq::empty()
    } else {
        let found = node_regions(
            structure,
            strings,
            nodes.last(),
            address_cells,
            size_cells,
            kind,
        );
        mappable_of_nodes(
            structure,
            strings,
            nodes.drop_last(),
            address_cells,
            size_cells,
            kind,
        ) + Seq::new(found.len(), |i: int| node_mappable(structure, strings, nodes.last()))
    }
}

/// A number in a property of a node, or `fallback` where there is none.
pub open spec fn cells_of(
    structure: Seq<u8>,
    strings: Seq<u8>,
    node: NodeSpan,
    name: Seq<u8>,
    fallback: u32,
) -> u32 {
    match property_number(structure, strings, node, name) {
        Some(cells) => cells,
        None => fallback,
    }
}

/// The usable memory that a device tree describes.
pub open spec fn tree_memory(structure: Seq<u8>, strings: Seq<u8>) -> Seq<MemoryRegion> {
    match node_at(structure, 0) {
        Some(root) => regions_of_nodes(
            structure,
            strings,
            children_of(structure, root),
            cells_of(structure, strings, root, "#address-cells".spec_bytes(), 2),
            cells_of(structure, strings, root, "#size-cells".spec_bytes(), 1),
            RegionKind::Memory,
        ),
        None => Seq::empty(),
    }
}

/// The nodes below `/reserved-memory`, and the cells that their ranges are read
/// with: those of `/reserved-memory`, or of the root where it has none.
pub open spec fn reserved_nodes(structure: Seq<u8>, strings: Seq<u8>) -> (Seq<NodeSpan>, u32, u32) {
    match node_at(structure, 0) {
        Some(root) => match child_named(structure, root, "reserved-memory".spec_bytes()) {
            Some(node) => (
                children_of(structure, node),
                cells_of(
                    structure,
                    strings,
                    node,
                    "#address-cells".spec_bytes(),
                    cells_of(structure, strings, root, "#address-cells".spec_bytes(), 2),
                ),
                cells_of(
                    structure,
                    strings,
                    node,
                    "#size-cells".spec_bytes(),
                    cells_of(structure, strings, root, "#size-cells".spec_bytes(), 1),
                ),
            ),
            None => (Seq::empty(), 2, 1),
        },
        None => (Seq::empty(), 2, 1),
    }
}

/// The ranges below `/reserved-memory`.
pub open spec fn tree_reserved(structure: Seq<u8>, strings: Seq<u8>) -> Seq<MemoryRegion> {
    let (nodes, address_cells, size_cells) = reserved_nodes(structure, strings);
    regions_of_nodes(
        structure,
        strings,
        nodes,
        address_cells,
        size_cells,
        RegionKind::Reserved,
    )
}

/// Which of the ranges below `/reserved-memory` may be mapped.
pub open spec fn tree_mappable(structure: Seq<u8>, strings: Seq<u8>) -> Seq<bool> {
    let (nodes, address_cells, size_cells) = reserved_nodes(structure, strings);
    mappable_of_nodes(
        structure,
        strings,
        nodes,
        address_cells,
        size_cells,
        RegionKind::Reserved,
    )
}

/// The entries of the reserve map followed by the ranges below
/// `/reserved-memory`. A tree without root has none.
pub open spec fn all_reserved(
    reserve_map: Seq<u8>,
    structure: Seq<u8>,
    strings: Seq<u8>,
) -> Seq<MemoryRegion> {
    match node_at(structure, 0) {
        Some(_) => reserve_entries(reserve_map, 0) + tree_reserved(structure, strings),
        None => Seq::empty(),
    }
}

/// Which of the reserved ranges may be mapped: none of the reserve map, and those
/// below `/reserved-memory` whose nodes have no `no-map`.
pub open spec fn all_mappable(reserve_map: Seq<u8>, structure: Seq<u8>, strings: Seq<u8>) -> Seq<
    bool,
> {
    match node_at(structure, 0) {
        Some(_) => Seq::new(reserve_entries(reserve_map, 0).len(), |i: int| false)
            + tree_mappable(structure, strings),
        None => Seq::empty(),
    }
}

/// For each range of a list of nodes it is told whether it may be mapped.
proof fn nodes_are_classified(
    structure: Seq<u8>,
    strings: Seq<u8>,
    nodes: Seq<NodeSpan>,
    address_cells: u32,
    size_cells: u32,
    kind: RegionKind,
)
    ensures
        mappable_of_nodes(structure, strings, nodes, address_cells, size_cells, kind).len()
            == regions_of_nodes(structure, strings, nodes, address_cells, size_cells, kind).len(),
    decreases nodes.len(),
{
    if nodes.len() > 0 {
        nodes_are_classified(
            structure,
            strings,
            nodes.drop_last(),
            address_cells,
            size_cells,
            kind,
        );
    }
}

/// For each reserved range of a device tree it is told whether it may be mapped.
pub proof fn reserved_ranges_are_classified(
    reserve_map: Seq<u8>,
    structure: Seq<u8>,
    strings: Seq<u8>,
)
    ensures
        all_mappable(reserve_map, structure, strings).len() == all_reserved(
            reserve_map,
            structure,
            strings,
        ).len(),
{
    let (nodes, address_cells, size_cells) = reserved_nodes(structure, strings);
    nodes_are_classified(
        structure,
        strings,
        nodes,
        address_cells,
        size_cells,
        RegionKind::Reserved,
    );
}

/// Reserves the original FDT blob in one EFI-style page allocator.
pub fn reserve_original_fdt(fdt: &Fdt<'_>, allocator: &mut PageAllocator<'_>) -> (outcome: Result<
    (),
    MemoryError,
>)
    requires
        old(allocator).well_formed(),
    ensures
        final(allocator).well_formed(),
        final(allocator).capacity() == old(allocator).capacity(),
        final(final(allocator).buffer())@ == final(old(allocator).buffer())@,
        ({
            let blob = MemoryRegion { base: fdt.base() as u64, size: fdt.total_size() as u64 };
            let after = region_carved(old(allocator).map(), blob, 0, old(allocator).capacity());
            outcome == after.outcome && final(allocator).map() == if outcome is Ok {
                coalesced(after.map)
            } else {
                after.map
            }
        }),
{
    allocator.reserve_region(
        MemoryRegion { base: fdt.base_ptr() as u64, size: fdt.total_size_bytes() as u64 },
    )
}

/// Tells whether a node is one of those asked for.
fn is_wanted<'a>(fdt: &Fdt<'a>, node: FdtNode<'a>, kind: RegionKind) -> (answer: bool)
    ensures
        answer == node_wanted(fdt.structure(), fdt.strings(), node.span(), kind),
{
    match kind {
        RegionKind::Memory => {
            let name = node.name.as_bytes();
            if !bytes_equal(name, "memory".as_bytes()) && !starts_with(name, "memory@".as_bytes()) {
                return false;
            }
            match fdt.get_property(node, "device_type") {
                Some(value) => bytes_equal(value, "memory\0".as_bytes()),
                None => true,
            }
        },
        RegionKind::Reserved => true,
    }
}

/// Stores the ranges of the wanted children of `parent` from place `first` on,
/// as many as fit, and returns which of those stored may be mapped.
fn store_children<'a>(
    fdt: &Fdt<'a>,
    parent: FdtNode<'a>,
    address_cells: u32,
    size_cells: u32,
    kind: RegionKind,
    output: &mut [MemoryRegion],
    first: usize,
) -> (mappable: Vec<bool>)
    requires
        first <= old(output)@.len(),
    ensures
        ({
            let nodes = children_of(fdt.structure(), parent.span());
            let found = regions_of_nodes(
                fdt.structure(),
                fdt.strings(),
                nodes,
                address_cells,
                size_cells,
                kind,
            );
            let answers = mappable_of_nodes(
                fdt.structure(),
                fdt.strings(),
                nodes,
                address_cells,
                size_cells,
                kind,
            );
            let room = (old(output)@.len() - first) as nat;
            &&& answers.len() == found.len()
            &&& mappable@ == answers.take(fitting(found, room) as int)
            &&& final(output)@ == old(output)@.take(first as int) + filled(
                old(output)@.skip(first as int),
                found,
            )
        }),
{
    let ghost structure = fdt.structure();
    let ghost strings = fdt.strings();
    let ghost head = output@.take(first as int);
    let ghost tail = output@.skip(first as int);
    let mut children: Vec<FdtNode<'a>> = Vec::new();
    fdt.for_each_child(parent, &mut children);
    let ghost nodes = children_of(structure, parent.span());
    assert(spans_of(children@) =~= nodes);
    let mut mappable: Vec<bool> = Vec::new();
    let mut index: usize = 0;
    let ghost mut found: Seq<MemoryRegion> = Seq::empty();
    let ghost mut answers: Seq<bool> = Seq::empty();
    assert(nodes.take(0) =~= Seq::empty());
    assert(output@ =~= head + filled(tail, found));
    assert(mappable@ =~= answers.take(0));
    while index < children.len()
        invariant
            structure == fdt.structure(),
            strings == fdt.strings(),
            first <= old(output)@.len(),
            head == old(output)@.take(first as int),
            tail == old(output)@.skip(first as int),
            output@.len() == old(output)@.len(),
            spans_of(children@) == nodes,
            index <= children@.len(),
            found == regions_of_nodes(
                structure,
                strings,
                nodes.take(index as int),
                address_cells,
                size_cells,
                kind,
            ),
            answers == mappable_of_nodes(
                structure,
                strings,
                nodes.take(index as int),
                address_cells,
                size_cells,
                kind,
            ),
            answers.len() == found.len(),
            mappable@ == answers.take(fitting(found, tail.len()) as int),
            output@ == head + filled(tail, found),
        decreases children@.len() - index,
    {
        let node = children[index];
        proof {
            let longer = nodes.take(index + 1);
            assert(longer.drop_last() =~= nodes.take(index as int));
            assert(longer.last() == node.span());
        }
        let ghost more = node_regions(
            structure,
            strings,
            node.span(),
            address_cells,
            size_cells,
            kind,
        );
        let answer = fdt.get_property(node, "no-map").is_none();
        let ghost more_answers = Seq::new(more.len(), |i: int| answer);
        let places: usize = output.len();
        assert(first + mappable@.len() <= places);
        let mut count: usize = first + mappable.len();
        if is_wanted(fdt, node, kind) {
            if let Some(reg) = fdt.get_property(node, "reg") {
                count = store_regions(reg, address_cells, size_cells, output, count);
            }
        }
        let ghost kept = mappable@;
        assert(count - first == fitting(found + more, tail.len()));
        while mappable.len() < count - first
            invariant
                first <= count,
                kept.len() <= mappable@.len() <= count - first,
                count - first <= kept.len() + more.len(),
                mappable@ == kept + more_answers.take(mappable@.len() - kept.len()),
                more_answers == Seq::new(more.len(), |i: int| answer),
            decreases count - first - mappable.len(),
        {
            let ghost pushed = mappable@.len() - kept.len();
            mappable.push(answer);
            assert(mappable@ =~= kept + more_answers.take(pushed + 1));
        }
        proof {
            assert(node_mappable(structure, strings, node.span()) == answer);
            assert(more_answers =~= Seq::new(
                more.len(),
                |i: int| node_mappable(structure, strings, node.span()),
            ));
            assert(output@ =~= head + filled(tail, found + more));
            assert(mappable@ =~= (answers + more_answers).take(
                fitting(found + more, tail.len()) as int,
            ));
            found = found + more;
            answers = answers + more_answers;
        }
        index += 1;
    }
    assert(nodes.take(index as int) =~= nodes);
    mappable
}

/// Returns one 32-bit property value, or `fallback` when the property is not
/// present and valid.
fn property_u32<'a>(fdt: &Fdt<'a>, node: FdtNode<'a>, property_name: &str, fallback: u32) -> (value:
    u32)
    ensures
        value == cells_of(
            fdt.structure(),
            fdt.strings(),
            node.span(),
            property_name.spec_bytes(),
            fallback,
        ),
{
    match fdt.get_property_u32(node, property_name) {
        Some(value) => value,
        None => fallback,
    }
}

/// Collects memory ranges from `/memory` nodes into `output`, as many as fit, and
/// returns how many were stored.
pub fn memory_regions(fdt: &Fdt<'_>, output: &mut [MemoryRegion]) -> (count: usize)
    ensures
        count == fitting(tree_memory(fdt.structure(), fdt.strings()), old(output)@.len()),
        final(output)@ == filled(
            old(output)@,
            tree_memory(fdt.structure(), fdt.strings()),
        ),
{
    let ghost before = output@;
    let root = match fdt.root_node() {
        Some(root) => root,
        None => {
            assert(output@ =~= filled(before, Seq::empty()));
            return 0;
        },
    };
    let address_cells: u32 = property_u32(fdt, root, "#address-cells", 2);
    let size_cells: u32 = property_u32(fdt, root, "#size-cells", 1);
    let stored = store_children(
        fdt,
        root,
        address_cells,
        size_cells,
        RegionKind::Memory,
        output,
        0,
    );
    assert(before.skip(0) =~= before);
    assert(output@ =~= filled(before, tree_memory(fdt.structure(), fdt.strings())));
    stored.len()
}

/// Collects reserved regions from both the reserve map and the
/// `/reserved-memory` subtree into `output`, as many as fit, and returns how many
/// were stored.
pub fn reserved_regions(fdt: &Fdt<'_>, output: &mut [MemoryRegion]) -> (count: usize)
    ensures
        ({
            let found = all_reserved(fdt.reserve_map(), fdt.structure(), fdt.strings());
            &&& count == fitting(found, old(output)@.len())
            &&& final(output)@ == filled(old(output)@, found)
        }),
{
    proof {
        reserved_ranges_are_classified(fdt.reserve_map(), fdt.structure(), fdt.strings());
    }
    classified_regions(fdt, output).len()
}

/// Collects the same regions as `reserved_regions` and returns which of those
/// stored may be mapped. Those of the reserve map and of nodes with `no-map` must
/// stay reserved.
pub fn classified_regions(fdt: &Fdt<'_>, output: &mut [MemoryRegion]) -> (mappable: Vec<bool>)
    ensures
        ({
            let found = all_reserved(fdt.reserve_map(), fdt.structure(), fdt.strings());
            &&& mappable@ == all_mappable(
                fdt.reserve_map(),
                fdt.structure(),
                fdt.strings(),
            ).take(fitting(found, old(output)@.len()) as int)
            &&& final(output)@ == filled(old(output)@, found)
        }),
{
    let ghost before = output@;
    let ghost entries = reserve_entries(fdt.reserve_map(), 0);
    let ghost nodes = tree_reserved(fdt.structure(), fdt.strings());
    let ghost answers = all_mappable(fdt.reserve_map(), fdt.structure(), fdt.strings());
    proof {
        reserved_ranges_are_classified(fdt.reserve_map(), fdt.structure(), fdt.strings());
    }
    let mut mappable: Vec<bool> = Vec::new();
    if fdt.root_node().is_none() {
        assert(output@ =~= filled(before, Seq::empty()));
        assert(mappable@ =~= answers.take(0));
        return mappable;
    }
    let count = reserve_map_regions(fdt, output);
    while mappable.len() < count
        invariant
            mappable@ == Seq::new(mappable@.len(), |i: int| false),
            mappable@.len() <= count,
        decreases count - mappable.len(),
    {
        let ghost longer = mappable@.len() + 1;
        mappable.push(false);
        assert(mappable@ =~= Seq::new(longer as nat, |i: int| false));
    }
    if count < output.len() {
        let mut more = reserved_memory_regions(fdt, output, count);
        mappable.append(&mut more);
    }
    assert(output@ =~= filled(before, entries + nodes));
    assert(mappable@ =~= answers.take(fitting(entries + nodes, before.len()) as int));
    mappable
}

/// Collects reserved regions from the reserve map into `output`.
fn reserve_map_regions(fdt: &Fdt<'_>, output: &mut [MemoryRegion]) -> (count: usize)
    ensures
        count == fitting(reserve_entries(fdt.reserve_map(), 0), old(output)@.len()),
        final(output)@ == filled(old(output)@, reserve_entries(fdt.reserve_map(), 0)),
{
    let ghost before = output@;
    let ghost map = fdt.reserve_map();
    let ghost entries = reserve_entries(map, 0);
    let ghost mut found: Seq<MemoryRegion> = Seq::empty();
    let mut count: usize = 0;
    assert(found + entries =~= entries);
    while count < output.len()
        invariant
            map == fdt.reserve_map(),
            count == found.len(),
            count <= before.len(),
            output@.len() == before.len(),
            forall|i: int| 0 <= i < count ==> output@[i] == found[i],
            forall|i: int| count <= i < before.len() ==> output@[i] == before[i],
            entries == found + reserve_entries(map, count * 16),
        ensures
            count < before.len() ==> entries == found,
        decreases output@.len() - count,
    {
        let entry = match fdt.reserve_entry(count) {
            Some(entry) => entry,
            None => {
                assert(entries =~= found);
                break;
            },
        };
        let region = MemoryRegion { base: entry.address, size: entry.size };
        output[count] = region;
        proof {
            let rest = reserve_entries(map, count * 16 + 16);
            assert(found + (seq![region] + rest) =~= found.push(region) + rest);
            found = found.push(region);
        }
        count += 1;
    }
    assert(output@ =~= filled(before, entries));
    count
}

/// Stores reserved regions from the `/reserved-memory` subtree from place `first`
/// on and returns which of those stored may be mapped.
fn reserved_memory_regions(fdt: &Fdt<'_>, output: &mut [MemoryRegion], first: usize) -> (mappable:
    Vec<bool>)
    requires
        first <= old(output)@.len(),
    ensures
        ({
            let found = tree_reserved(fdt.structure(), fdt.strings());
            let room = (old(output)@.len() - first) as nat;
            &&& mappable@ == tree_mappable(fdt.structure(), fdt.strings()).take(
                fitting(found, room) as int,
            )
            &&& final(output)@ == old(output)@.take(first as int) + filled(
                old(output)@.skip(first as int),
                found,
            )
        }),
{
    assert(output@ =~= output@.take(first as int) + filled(
        output@.skip(first as int),
        Seq::empty(),
    ));
    assert(Seq::<bool>::empty() =~= Seq::<bool>::empty().take(0));
    let root = match fdt.root_node() {
        Some(root) => root,
        None => return Vec::new(),
    };
    let root_address_cells: u32 = property_u32(fdt, root, "#address-cells", 2);
    let root_size_cells: u32 = property_u32(fdt, root, "#size-cells", 1);
    let node = match fdt.find_child(root, "reserved-memory") {
        Some(node) => node,
        None => return Vec::new(),
    };
    let address_cells: u32 = property_u32(fdt, node, "#address-cells", root_address_cells);
    let size_cells: u32 = property_u32(fdt, node, "#size-cells", root_size_cells);
    store_children(fdt, node, address_cells, size_cells, RegionKind::Reserved, output, first)
}

} // verus!
