//! Reading a device tree in one pass finds the memory that it was written with.

use vstd::prelude::*;
use vstd::string::*;
use vstd::utf8::*;
use crate::bytes::{be32_bytes, c_string};
use crate::devicetree::{
    header_fault, is_memory_name, memory_found, memory_step, memory_walk, regions_in,
    reserved_nodes_found, reserved_step, reserved_walk, MemoryRegion, MemoryWalk, ReservedWalk,
};
use crate::dtb_read::{blob_fault, reserve_map_of, strings_of, structure_of};
use crate::fdt_laws::{
    memory_of_node, node_fits, node_image, node_length, node_parts, nodes_fit, nodes_image,
    number_named, opening_image, opening_is_read, properties_fit, properties_image,
    properties_length, property_image, property_is_read, span_of, value_named, TreeNode,
    TreeProperty,
};
use crate::fdt_tokens::{token_at, FdtToken};
use crate::linux::literal_bytes;
use crate::records::{be32_stored, stored, stored_is_there, stored_parts};

verus! {

/// The words of a header.
pub struct BlobFields {
    pub total: u32,
    pub structure_at: u32,
    pub strings_at: u32,
    pub reserve_at: u32,
    pub version: u32,
    pub oldest: u32,
    pub boot_cpu: u32,
    pub strings_size: u32,
    pub structure_size: u32,
}

/// The header of a blob.
#[verifier::opaque]
pub open spec fn blob_header(fields: BlobFields) -> Seq<u8> {
    be32_bytes(0xd00d_feed) + be32_bytes(fields.total) + be32_bytes(fields.structure_at)
        + be32_bytes(fields.strings_at) + be32_bytes(fields.reserve_at) + be32_bytes(fields.version)
        + be32_bytes(fields.oldest) + be32_bytes(fields.boot_cpu) + be32_bytes(fields.strings_size)
        + be32_bytes(fields.structure_size)
}

/// Whether the blocks of a blob lie inside of it, behind the header.
pub open spec fn blocks_fit(fields: BlobFields) -> bool {
    &&& fields.version >= 17
    &&& fields.total >= 40
    &&& fields.reserve_at <= fields.total
    &&& 40 <= fields.structure_at
    &&& fields.structure_at + fields.structure_size <= fields.total
    &&& 40 <= fields.strings_at
    &&& fields.strings_at + fields.strings_size <= fields.total
}

/// A blob whose header tells of blocks that fit is accepted by both readers, and its blocks
/// are the bytes that stand where the header says.
#[verifier::spinoff_prover]
#[verifier::rlimit(40)]
pub proof fn written_blob_is_read(
    blob: Seq<u8>,
    fields: BlobFields,
    structure: Seq<u8>,
    strings: Seq<u8>,
)
    requires
        stored(blob, 0, blob_header(fields)),
        fields.total <= blob.len(),
        stored(blob, fields.structure_at as int, structure),
        structure.len() == fields.structure_size,
        stored(blob, fields.strings_at as int, strings),
        strings.len() == fields.strings_size,
    ensures
        blocks_fit(fields) ==> blob_fault(blob) is None && header_fault(blob) is None,
        !blocks_fit(fields) ==> blob_fault(blob) is Some,
        structure_of(blob) == structure,
        strings_of(blob) == strings,
        fields.reserve_at <= fields.total ==> reserve_map_of(blob) == blob.subrange(
            fields.reserve_at as int,
            fields.total as int,
        ),
{
    reveal(blob_header);
    let p0 = be32_bytes(0xd00d_feed);
    let p1 = p0 + be32_bytes(fields.total);
    let p2 = p1 + be32_bytes(fields.structure_at);
    let p3 = p2 + be32_bytes(fields.strings_at);
    let p4 = p3 + be32_bytes(fields.reserve_at);
    let p5 = p4 + be32_bytes(fields.version);
    let p6 = p5 + be32_bytes(fields.oldest);
    let p7 = p6 + be32_bytes(fields.boot_cpu);
    let p8 = p7 + be32_bytes(fields.strings_size);
    stored_is_there(blob, 0, blob_header(fields));
    stored_parts(blob, 0, p8, be32_bytes(fields.structure_size));
    stored_parts(blob, 0, p7, be32_bytes(fields.strings_size));
    stored_parts(blob, 0, p6, be32_bytes(fields.boot_cpu));
    stored_parts(blob, 0, p5, be32_bytes(fields.oldest));
    stored_parts(blob, 0, p4, be32_bytes(fields.version));
    stored_parts(blob, 0, p3, be32_bytes(fields.reserve_at));
    stored_parts(blob, 0, p2, be32_bytes(fields.strings_at));
    stored_parts(blob, 0, p1, be32_bytes(fields.structure_at));
    stored_parts(blob, 0, p0, be32_bytes(fields.total));
    be32_stored(blob, 0, 0xd00d_feed);
    be32_stored(blob, 4, fields.total);
    be32_stored(blob, 8, fields.structure_at);
    be32_stored(blob, 12, fields.strings_at);
    be32_stored(blob, 16, fields.reserve_at);
    be32_stored(blob, 20, fields.version);
    be32_stored(blob, 32, fields.strings_size);
    be32_stored(blob, 36, fields.structure_size);
    stored_is_there(blob, fields.structure_at as int, structure);
    stored_is_there(blob, fields.strings_at as int, strings);
}

/// The names of properties that count differ.
proof fn names_differ()
    ensures
        "#address-cells".spec_bytes() != "#size-cells".spec_bytes(),
        "#address-cells".spec_bytes() != "device_type".spec_bytes(),
        "#address-cells".spec_bytes() != "reg".spec_bytes(),
        "#size-cells".spec_bytes() != "device_type".spec_bytes(),
        "#size-cells".spec_bytes() != "reg".spec_bytes(),
        "device_type".spec_bytes() != "reg".spec_bytes(),
{
    reveal_strlit("#address-cells");
    reveal_strlit("#size-cells");
    reveal_strlit("device_type");
    reveal_strlit("reg");
    literal_bytes("#address-cells");
    literal_bytes("#size-cells");
    literal_bytes("device_type");
    literal_bytes("reg");
    assert("#size-cells".spec_bytes()[0] == "#size-cells"@[0] as u8);
    assert("device_type".spec_bytes()[0] == "device_type"@[0] as u8);
}

/// The token of the opening of a node.
proof fn opening_token(structure: Seq<u8>, strings: Seq<u8>, at: int, name: Seq<u8>)
    requires
        at % 4 == 0,
        stored(structure, at, opening_image(name)),
        crate::dtb_change::plain_name(name),
    ensures
        token_at(structure, strings, at) == Some(
            (FdtToken::BeginNode { name }, at + opening_image(name).len()),
        ),
{
    opening_is_read(structure, at, name);
}

/// The token of a property.
proof fn property_token(structure: Seq<u8>, strings: Seq<u8>, at: int, property: TreeProperty)
    requires
        at % 4 == 0,
        stored(structure, at, property_image(property)),
        property.value.len() <= u32::MAX,
        c_string(strings, property.name_offset as int) == Some(property.name),
    ensures
        token_at(structure, strings, at) == Some(
            (
                FdtToken::Property { name: property.name, value: property.value },
                at + property_image(property).len(),
            ),
        ),
{
    property_is_read(structure, at, property);
}

/// The search for memory after properties.
spec fn memory_after_properties(walk: MemoryWalk, properties: Seq<TreeProperty>) -> MemoryWalk
    decreases properties.len(),
{
    if properties.len() == 0 {
        walk
    } else {
        let first = properties[0];
        memory_after_properties(
            memory_step(walk, FdtToken::Property { name: first.name, value: first.value }),
            properties.drop_first(),
        )
    }
}

/// The search for memory after a node.
spec fn memory_after_node(walk: MemoryWalk, node: TreeNode) -> MemoryWalk
    decreases node,
{
    memory_step(
        memory_after_nodes(
            memory_after_properties(
                memory_step(walk, FdtToken::BeginNode { name: node.name }),
                node.properties,
            ),
            node.children,
        ),
        FdtToken::EndNode,
    )
}

/// The search for memory after nodes.
spec fn memory_after_nodes(walk: MemoryWalk, nodes: Seq<TreeNode>) -> MemoryWalk
    decreases nodes,
{
    if nodes.len() == 0 {
        walk
    } else {
        memory_after_nodes(memory_after_node(walk, nodes[0]), nodes.drop_first())
    }
}

proof fn rest_fits(properties: Seq<TreeProperty>, strings: Seq<u8>)
    requires
        properties.len() > 0,
        properties_fit(properties, strings),
    ensures
        properties_fit(properties.drop_first(), strings),
        properties[0].value.len() <= u32::MAX,
        c_string(strings, properties[0].name_offset as int) == Some(properties[0].name),
{
    let rest = properties.drop_first();
    assert(properties[0].value.len() <= u32::MAX);
    assert forall|i: int| 0 <= i < rest.len() implies (#[trigger] rest[i]).value.len() <= u32::MAX
        && c_string(strings, rest[i].name_offset as int) == Some(rest[i].name) by {
        assert(rest[i] == properties[i + 1]);
    }
}

proof fn memory_walk_passes_properties(
    structure: Seq<u8>,
    strings: Seq<u8>,
    at: int,
    properties: Seq<TreeProperty>,
    walk: MemoryWalk,
)
    requires
        at % 4 == 0,
        stored(structure, at, properties_image(properties)),
        properties_fit(properties, strings),
    ensures
        memory_walk(structure, strings, at, walk) == memory_walk(
            structure,
            strings,
            at + properties_image(properties).len(),
            memory_after_properties(walk, properties),
        ),
    decreases properties.len(),
{
    if properties.len() > 0 {
        let first = properties[0];
        let rest = properties.drop_first();
        stored_parts(structure, at, property_image(first), properties_image(rest));
        rest_fits(properties, strings);
        property_is_read(structure, at, first);
        property_token(structure, strings, at, first);
        memory_walk_passes_properties(
            structure,
            strings,
            at + property_image(first).len(),
            rest,
            memory_step(walk, FdtToken::Property { name: first.name, value: first.value }),
        );
    }
}

proof fn properties_keep_depth(walk: MemoryWalk, properties: Seq<TreeProperty>)
    ensures
        memory_after_properties(walk, properties).depth == walk.depth,
    decreases properties.len(),
{
    if properties.len() > 0 {
        let first = properties[0];
        properties_keep_depth(
            memory_step(walk, FdtToken::Property { name: first.name, value: first.value }),
            properties.drop_first(),
        );
    }
}

proof fn node_keeps_depth(walk: MemoryWalk, node: TreeNode)
    ensures
        memory_after_node(walk, node).depth == walk.depth,
    decreases node,
{
    let opened = memory_step(walk, FdtToken::BeginNode { name: node.name });
    properties_keep_depth(opened, node.properties);
    nodes_keep_depth(memory_after_properties(opened, node.properties), node.children);
}

proof fn nodes_keep_depth(walk: MemoryWalk, nodes: Seq<TreeNode>)
    ensures
        memory_after_nodes(walk, nodes).depth == walk.depth,
    decreases nodes,
{
    if nodes.len() > 0 {
        node_keeps_depth(walk, nodes[0]);
        nodes_keep_depth(memory_after_node(walk, nodes[0]), nodes.drop_first());
    }
}

#[verifier::spinoff_prover]
#[verifier::rlimit(30)]
proof fn memory_walk_passes_node(
    structure: Seq<u8>,
    strings: Seq<u8>,
    at: int,
    node: TreeNode,
    walk: MemoryWalk,
)
    requires
        at % 4 == 0,
        stored(structure, at, node_image(node)),
        node_fits(node, strings),
    ensures
        memory_walk(structure, strings, at, walk) == memory_walk(
            structure,
            strings,
            at + node_image(node).len(),
            memory_after_node(walk, node),
        ),
    decreases node, 1int,
{
    node_parts(structure, at, node);
    node_length(node);
    opening_is_read(structure, at, node.name);
    opening_token(structure, strings, at, node.name);
    properties_length(node.properties);
    let inside = at + opening_image(node.name).len();
    let below = inside + properties_image(node.properties).len();
    let opened = memory_step(walk, FdtToken::BeginNode { name: node.name });
    let told = memory_after_properties(opened, node.properties);
    memory_walk_passes_properties(structure, strings, inside, node.properties, opened);
    memory_walk_passes_nodes(structure, strings, below, node.children, told);
    properties_keep_depth(opened, node.properties);
    nodes_keep_depth(told, node.children);
    let end = span_of(node, at).end;
    assert(token_at(structure, strings, end) == Some((FdtToken::EndNode, end + 4)));
}

proof fn memory_walk_passes_nodes(
    structure: Seq<u8>,
    strings: Seq<u8>,
    at: int,
    nodes: Seq<TreeNode>,
    walk: MemoryWalk,
)
    requires
        at % 4 == 0,
        stored(structure, at, nodes_image(nodes)),
        nodes_fit(nodes, strings),
    ensures
        memory_walk(structure, strings, at, walk) == memory_walk(
            structure,
            strings,
            at + nodes_image(nodes).len(),
            memory_after_nodes(walk, nodes),
        ),
    decreases nodes, 0int,
{
    if nodes.len() > 0 {
        let first = nodes[0];
        stored_parts(structure, at, node_image(first), nodes_image(nodes.drop_first()));
        node_length(first);
        assert(node_fits(first, strings));
        memory_walk_passes_node(structure, strings, at, first, walk);
        memory_walk_passes_nodes(
            structure,
            strings,
            at + node_image(first).len(),
            nodes.drop_first(),
            memory_after_node(walk, first),
        );
    }
}

/// Whether no name occurs twice among properties.
pub open spec fn distinct(properties: Seq<TreeProperty>) -> bool {
    forall|i: int, j: int|
        0 <= i < j < properties.len() ==> (#[trigger] properties[i]).name != (
        #[trigger] properties[j]).name
}

/// A name that comes first among distinct ones does not come again.
proof fn first_is_alone(properties: Seq<TreeProperty>)
    requires
        properties.len() > 0,
        distinct(properties),
    ensures
        distinct(properties.drop_first()),
        value_named(properties.drop_first(), properties[0].name) is None,
{
    let rest = properties.drop_first();
    assert forall|i: int, j: int| 0 <= i < j < rest.len() implies (#[trigger] rest[i]).name != (
    #[trigger] rest[j]).name by {
        assert(rest[i] == properties[i + 1] && rest[j] == properties[j + 1]);
    }
    assert forall|j: int| 0 <= j < rest.len() implies (#[trigger] rest[j]).name
        != properties[0].name by {
        assert(rest[j] == properties[j + 1]);
    }
    none_of_name(rest, properties[0].name);
}

proof fn none_of_name(properties: Seq<TreeProperty>, name: Seq<u8>)
    requires
        forall|j: int| 0 <= j < properties.len() ==> (#[trigger] properties[j]).name != name,
    ensures
        value_named(properties, name) is None,
    decreases properties.len(),
{
    if properties.len() > 0 {
        let rest = properties.drop_first();
        assert forall|j: int| 0 <= j < rest.len() implies (#[trigger] rest[j]).name != name by {
            assert(rest[j] == properties[j + 1]);
        }
        none_of_name(rest, name);
    }
}

/// The properties of the root set the cells.
proof fn root_properties_set_cells(walk: MemoryWalk, properties: Seq<TreeProperty>)
    requires
        walk.depth == 1,
        !walk.in_memory,
        distinct(properties),
    ensures
        memory_after_properties(walk, properties) == (MemoryWalk {
            address_cells: number_named(
                properties,
                "#address-cells".spec_bytes(),
                walk.address_cells,
            ),
            size_cells: number_named(properties, "#size-cells".spec_bytes(), walk.size_cells),
            ..walk
        }),
    decreases properties.len(),
{
    names_differ();
    if properties.len() > 0 {
        let first = properties[0];
        let next = memory_step(walk, FdtToken::Property { name: first.name, value: first.value });
        first_is_alone(properties);
        root_properties_set_cells(next, properties.drop_first());
    }
}

/// Properties outside of a memory node, and deeper ones, change nothing.
proof fn other_properties_change_nothing(walk: MemoryWalk, properties: Seq<TreeProperty>)
    requires
        walk.depth >= 2,
        walk.depth > 2 || !walk.in_memory,
    ensures
        memory_after_properties(walk, properties) == walk,
    decreases properties.len(),
{
    if properties.len() > 0 {
        other_properties_change_nothing(walk, properties.drop_first());
    }
}

/// Nodes below a child of the root change nothing.
proof fn deeper_node_changes_nothing(walk: MemoryWalk, node: TreeNode)
    requires
        walk.depth >= 2,
    ensures
        memory_after_node(walk, node) == walk,
    decreases node,
{
    let opened = memory_step(walk, FdtToken::BeginNode { name: node.name });
    other_properties_change_nothing(opened, node.properties);
    deeper_nodes_change_nothing(opened, node.children);
}

proof fn deeper_nodes_change_nothing(walk: MemoryWalk, nodes: Seq<TreeNode>)
    requires
        walk.depth >= 2,
    ensures
        memory_after_nodes(walk, nodes) == walk,
    decreases nodes,
{
    if nodes.len() > 0 {
        deeper_node_changes_nothing(walk, nodes[0]);
        deeper_nodes_change_nothing(walk, nodes.drop_first());
    }
}

/// Whether a node tells what it is before its ranges, or is memory: its `device_type` comes
/// first, says memory, or is missing.
pub open spec fn kind_is_told(node: TreeNode) -> bool {
    match value_named(node.properties, "device_type".spec_bytes()) {
        None => true,
        Some(value) => value == "memory\0".spec_bytes() || node.properties[0].name
            == "device_type".spec_bytes(),
    }
}

/// The properties of a memory node add its ranges.
proof fn memory_properties_add_ranges(walk: MemoryWalk, properties: Seq<TreeProperty>)
    requires
        walk.depth == 2,
        walk.in_memory,
        distinct(properties),
        value_named(properties, "device_type".spec_bytes()) matches Some(value) ==> value
            == "memory\0".spec_bytes(),
    ensures
        memory_after_properties(walk, properties) == (MemoryWalk {
            found: walk.found + match value_named(properties, "reg".spec_bytes()) {
                Some(value) => regions_in(value, walk.address_cells, walk.size_cells),
                None => Seq::empty(),
            },
            ..walk
        }),
    decreases properties.len(),
{
    names_differ();
    if properties.len() > 0 {
        let first = properties[0];
        let rest = properties.drop_first();
        let next = memory_step(walk, FdtToken::Property { name: first.name, value: first.value });
        first_is_alone(properties);
        memory_properties_add_ranges(next, rest);
        let more = match value_named(rest, "reg".spec_bytes()) {
            Some(value) => regions_in(value, walk.address_cells, walk.size_cells),
            None => Seq::empty(),
        };
        if first.name == "reg".spec_bytes() {
            assert(next.found + Seq::<MemoryRegion>::empty() =~= next.found);
        }
    } else {
        assert(walk.found + Seq::<MemoryRegion>::empty() =~= walk.found);
    }
}

#[verifier::spinoff_prover]
#[verifier::rlimit(30)]
proof fn child_adds_memory(walk: MemoryWalk, node: TreeNode)
    requires
        walk.depth == 1,
        !walk.in_memory,
        distinct(node.properties),
        kind_is_told(node),
    ensures
        memory_after_node(walk, node) == (MemoryWalk {
            found: walk.found + memory_of_node(node, walk.address_cells, walk.size_cells),
            ..walk
        }),
{
    let opened = memory_step(walk, FdtToken::BeginNode { name: node.name });
    let told = memory_after_properties(opened, node.properties);
    crate::fdt_laws::memory_text();
    let text = seq![0x6du8, 0x65u8, 0x6du8, 0x6fu8, 0x72u8, 0x79u8];
    assert(text.push(0x40u8) =~= "memory@".spec_bytes());
    assert(text.push(0u8) =~= "memory\0".spec_bytes());
    assert(is_memory_name(node.name) == (node.name == text || (node.name.len() >= 7
        && node.name.take(7) == text.push(0x40u8))));
    let kind = value_named(node.properties, "device_type".spec_bytes());
    if !is_memory_name(node.name) {
        other_properties_change_nothing(opened, node.properties);
    } else if kind is None || kind == Some("memory\0".spec_bytes()) {
        memory_properties_add_ranges(opened, node.properties);
    } else {
        names_differ();
        let first = node.properties[0];
        let next = memory_step(
            opened,
            FdtToken::Property { name: first.name, value: first.value },
        );
        assert(!next.in_memory);
        other_properties_change_nothing(next, node.properties.drop_first());
    }
    properties_keep_depth(opened, node.properties);
    deeper_nodes_change_nothing(told, node.children);
    assert(walk.found + Seq::<MemoryRegion>::empty() =~= walk.found);
}

/// The memory of nodes, from the first on.
pub open spec fn memory_of_list(nodes: Seq<TreeNode>, address_cells: u32, size_cells: u32) -> Seq<
    MemoryRegion,
>
    decreases nodes.len(),
{
    if nodes.len() == 0 {
        Seq::empty()
    } else {
        memory_of_node(nodes[0], address_cells, size_cells) + memory_of_list(
            nodes.drop_first(),
            address_cells,
            size_cells,
        )
    }
}

proof fn children_add_memory(walk: MemoryWalk, nodes: Seq<TreeNode>)
    requires
        walk.depth == 1,
        !walk.in_memory,
        forall|i: int|
            0 <= i < nodes.len() ==> distinct((#[trigger] nodes[i]).properties) && kind_is_told(
                nodes[i],
            ),
    ensures
        memory_after_nodes(walk, nodes) == (MemoryWalk {
            found: walk.found + memory_of_list(nodes, walk.address_cells, walk.size_cells),
            ..walk
        }),
    decreases nodes.len(),
{
    if nodes.len() > 0 {
        let first = nodes[0];
        let rest = nodes.drop_first();
        assert(distinct(nodes[0].properties) && kind_is_told(nodes[0]));
        child_adds_memory(walk, first);
        assert forall|i: int| 0 <= i < rest.len() implies distinct(
            (#[trigger] rest[i]).properties,
        ) && kind_is_told(rest[i]) by {
            assert(rest[i] == nodes[i + 1]);
        }
        let next = memory_after_node(walk, first);
        children_add_memory(next, rest);
        assert(walk.found + memory_of_node(first, walk.address_cells, walk.size_cells)
            + memory_of_list(rest, walk.address_cells, walk.size_cells) =~= walk.found
            + memory_of_list(nodes, walk.address_cells, walk.size_cells));
    } else {
        assert(walk.found + Seq::<MemoryRegion>::empty() =~= walk.found);
    }
}

/// Reading a written tree in one pass finds the memory of the nodes below its root, in order,
/// with the cells that the root names, or two for addresses and one for sizes.
pub proof fn written_memory_is_found_in_one_pass(
    structure: Seq<u8>,
    strings: Seq<u8>,
    root: TreeNode,
)
    requires
        stored(structure, 0, node_image(root) + be32_bytes(9)),
        node_fits(root, strings),
        distinct(root.properties),
        forall|i: int|
            0 <= i < root.children.len() ==> distinct((#[trigger] root.children[i]).properties)
                && kind_is_told(root.children[i]),
    ensures
        memory_found(structure, strings) == memory_of_list(
            root.children,
            number_named(root.properties, "#address-cells".spec_bytes(), 2),
            number_named(root.properties, "#size-cells".spec_bytes(), 1),
        ),
{
    let walk = MemoryWalk {
        depth: 0,
        address_cells: 2,
        size_cells: 1,
        in_memory: false,
        found: Seq::empty(),
    };
    let end = node_image(root).len() as int;
    stored_parts(structure, 0, node_image(root), be32_bytes(9));
    stored_is_there(structure, end, be32_bytes(9));
    be32_stored(structure, end, 9);
    memory_walk_passes_node(structure, strings, 0, root, walk);
    let opened = memory_step(walk, FdtToken::BeginNode { name: root.name });
    root_properties_set_cells(opened, root.properties);
    let told = memory_after_properties(opened, root.properties);
    children_add_memory(told, root.children);
    assert(token_at(structure, strings, end) is None);
    let found = memory_of_list(root.children, told.address_cells, told.size_cells);
    assert(Seq::<MemoryRegion>::empty() + found =~= found);
}

/// The ranges of all properties of a name.
pub open spec fn ranges_in_properties(
    properties: Seq<TreeProperty>,
    address_cells: u32,
    size_cells: u32,
) -> Seq<MemoryRegion>
    decreases properties.len(),
{
    if properties.len() == 0 {
        Seq::empty()
    } else {
        (if properties[0].name == "reg".spec_bytes() {
            regions_in(properties[0].value, address_cells, size_cells)
        } else {
            Seq::empty()
        }) + ranges_in_properties(properties.drop_first(), address_cells, size_cells)
    }
}

/// The ranges of a node and of all nodes below it.
pub open spec fn ranges_in_node(node: TreeNode, address_cells: u32, size_cells: u32) -> Seq<
    MemoryRegion,
>
    decreases node,
{
    ranges_in_properties(node.properties, address_cells, size_cells) + ranges_in_nodes(
        node.children,
        address_cells,
        size_cells,
    )
}

/// The ranges of nodes and of all nodes below them.
pub open spec fn ranges_in_nodes(nodes: Seq<TreeNode>, address_cells: u32, size_cells: u32) -> Seq<
    MemoryRegion,
>
    decreases nodes,
{
    if nodes.len() == 0 {
        Seq::empty()
    } else {
        ranges_in_node(nodes[0], address_cells, size_cells) + ranges_in_nodes(
            nodes.drop_first(),
            address_cells,
            size_cells,
        )
    }
}

/// The search for reserved memory after properties.
spec fn reserved_after_properties(walk: ReservedWalk, properties: Seq<TreeProperty>) -> ReservedWalk
    decreases properties.len(),
{
    if properties.len() == 0 {
        walk
    } else {
        let first = properties[0];
        reserved_after_properties(
            reserved_step(walk, FdtToken::Property { name: first.name, value: first.value }),
            properties.drop_first(),
        )
    }
}

/// The search for reserved memory after a node.
spec fn reserved_after_node(walk: ReservedWalk, node: TreeNode) -> ReservedWalk
    decreases node,
{
    reserved_step(
        reserved_after_nodes(
            reserved_after_properties(
                reserved_step(walk, FdtToken::BeginNode { name: node.name }),
                node.properties,
            ),
            node.children,
        ),
        FdtToken::EndNode,
    )
}

/// The search for reserved memory after nodes.
spec fn reserved_after_nodes(walk: ReservedWalk, nodes: Seq<TreeNode>) -> ReservedWalk
    decreases nodes,
{
    if nodes.len() == 0 {
        walk
    } else {
        reserved_after_nodes(reserved_after_node(walk, nodes[0]), nodes.drop_first())
    }
}

proof fn reserved_properties_keep_depth(walk: ReservedWalk, properties: Seq<TreeProperty>)
    requires
        walk.cells.len() >= 1,
    ensures
        reserved_after_properties(walk, properties).cells.len() == walk.cells.len(),
    decreases properties.len(),
{
    if properties.len() > 0 {
        let first = properties[0];
        reserved_properties_keep_depth(
            reserved_step(walk, FdtToken::Property { name: first.name, value: first.value }),
            properties.drop_first(),
        );
    }
}

proof fn reserved_node_keeps_depth(walk: ReservedWalk, node: TreeNode)
    requires
        walk.cells.len() >= 1,
    ensures
        reserved_after_node(walk, node).cells.len() == walk.cells.len(),
    decreases node,
{
    let opened = reserved_step(walk, FdtToken::BeginNode { name: node.name });
    reserved_properties_keep_depth(opened, node.properties);
    reserved_nodes_keep_depth(reserved_after_properties(opened, node.properties), node.children);
}

proof fn reserved_nodes_keep_depth(walk: ReservedWalk, nodes: Seq<TreeNode>)
    requires
        walk.cells.len() >= 1,
    ensures
        reserved_after_nodes(walk, nodes).cells.len() == walk.cells.len(),
    decreases nodes,
{
    if nodes.len() > 0 {
        reserved_node_keeps_depth(walk, nodes[0]);
        reserved_nodes_keep_depth(reserved_after_node(walk, nodes[0]), nodes.drop_first());
    }
}

proof fn reserved_walk_passes_properties(
    structure: Seq<u8>,
    strings: Seq<u8>,
    at: int,
    properties: Seq<TreeProperty>,
    walk: ReservedWalk,
)
    requires
        at % 4 == 0,
        stored(structure, at, properties_image(properties)),
        properties_fit(properties, strings),
    ensures
        reserved_walk(structure, strings, at, walk) == reserved_walk(
            structure,
            strings,
            at + properties_image(properties).len(),
            reserved_after_properties(walk, properties),
        ),
    decreases properties.len(),
{
    if properties.len() > 0 {
        let first = properties[0];
        let rest = properties.drop_first();
        stored_parts(structure, at, property_image(first), properties_image(rest));
        rest_fits(properties, strings);
        property_is_read(structure, at, first);
        property_token(structure, strings, at, first);
        reserved_walk_passes_properties(
            structure,
            strings,
            at + property_image(first).len(),
            rest,
            reserved_step(walk, FdtToken::Property { name: first.name, value: first.value }),
        );
    }
}

#[verifier::spinoff_prover]
#[verifier::rlimit(30)]
proof fn reserved_walk_passes_node(
    structure: Seq<u8>,
    strings: Seq<u8>,
    at: int,
    node: TreeNode,
    walk: ReservedWalk,
)
    requires
        at % 4 == 0,
        walk.cells.len() >= 1,
        stored(structure, at, node_image(node)),
        node_fits(node, strings),
    ensures
        reserved_walk(structure, strings, at, walk) == reserved_walk(
            structure,
            strings,
            at + node_image(node).len(),
            reserved_after_node(walk, node),
        ),
    decreases node, 1int,
{
    node_parts(structure, at, node);
    node_length(node);
    opening_is_read(structure, at, node.name);
    opening_token(structure, strings, at, node.name);
    properties_length(node.properties);
    let inside = at + opening_image(node.name).len();
    let below = inside + properties_image(node.properties).len();
    let opened = reserved_step(walk, FdtToken::BeginNode { name: node.name });
    let told = reserved_after_properties(opened, node.properties);
    reserved_walk_passes_properties(structure, strings, inside, node.properties, opened);
    reserved_properties_keep_depth(opened, node.properties);
    reserved_walk_passes_nodes(structure, strings, below, node.children, told);
    reserved_nodes_keep_depth(told, node.children);
    let end = span_of(node, at).end;
    assert(token_at(structure, strings, end) == Some((FdtToken::EndNode, end + 4)));
}

proof fn reserved_walk_passes_nodes(
    structure: Seq<u8>,
    strings: Seq<u8>,
    at: int,
    nodes: Seq<TreeNode>,
    walk: ReservedWalk,
)
    requires
        at % 4 == 0,
        walk.cells.len() >= 1,
        stored(structure, at, nodes_image(nodes)),
        nodes_fit(nodes, strings),
    ensures
        reserved_walk(structure, strings, at, walk) == reserved_walk(
            structure,
            strings,
            at + nodes_image(nodes).len(),
            reserved_after_nodes(walk, nodes),
        ),
    decreases nodes, 0int,
{
    if nodes.len() > 0 {
        let first = nodes[0];
        stored_parts(structure, at, node_image(first), nodes_image(nodes.drop_first()));
        node_length(first);
        assert(node_fits(first, strings));
        reserved_walk_passes_node(structure, strings, at, first, walk);
        reserved_node_keeps_depth(walk, first);
        reserved_walk_passes_nodes(
            structure,
            strings,
            at + node_image(first).len(),
            nodes.drop_first(),
            reserved_after_node(walk, first),
        );
    }
}

/// Properties of a node set its cells, and below `/reserved-memory` add its ranges.
#[verifier::spinoff_prover]
#[verifier::rlimit(30)]
proof fn reserved_properties(walk: ReservedWalk, properties: Seq<TreeProperty>)
    requires
        walk.cells.len() >= 2,
        walk.in_reserved ==> walk.cells.len() >= 3,
    ensures
        ({
            let after = reserved_after_properties(walk, properties);
            let depth = walk.cells.len() - 1;
            &&& after.cells.len() == walk.cells.len()
            &&& after.in_reserved == walk.in_reserved
            &&& forall|i: int| 0 <= i < depth ==> #[trigger] after.cells[i] == walk.cells[i]
            &&& after.found == walk.found + if walk.in_reserved && depth > 2 {
                ranges_in_properties(properties, walk.cells[2].0, walk.cells[2].1)
            } else {
                Seq::empty()
            }
            &&& distinct(properties) ==> after.cells[depth] == (
                number_named(properties, "#address-cells".spec_bytes(), walk.cells[depth].0),
                number_named(properties, "#size-cells".spec_bytes(), walk.cells[depth].1),
            )
        }),
    decreases properties.len(),
{
    names_differ();
    assert(walk.found + Seq::<MemoryRegion>::empty() =~= walk.found);
    if properties.len() > 0 {
        let first = properties[0];
        let rest = properties.drop_first();
        let next = reserved_step(walk, FdtToken::Property { name: first.name, value: first.value });
        let depth = walk.cells.len() - 1;
        reserved_properties(next, rest);
        if distinct(properties) {
            first_is_alone(properties);
        }
        if walk.in_reserved && depth > 2 {
            let more = ranges_in_properties(rest, walk.cells[2].0, walk.cells[2].1);
            assert(next.cells[2] == walk.cells[2]);
            if first.name == "reg".spec_bytes() {
                let here = regions_in(first.value, walk.cells[2].0, walk.cells[2].1);
                assert(walk.found + here + more =~= walk.found + (here + more));
            } else {
                assert(Seq::<MemoryRegion>::empty() + more =~= more);
            }
        }
    }
}

/// A node below a child of the root leaves the cells as they were, and below
/// `/reserved-memory` adds its ranges and those below it.
#[verifier::spinoff_prover]
#[verifier::rlimit(40)]
proof fn inner_node_adds_ranges(walk: ReservedWalk, node: TreeNode)
    requires
        walk.cells.len() >= 3,
    ensures
        reserved_after_node(walk, node) == (ReservedWalk {
            found: walk.found + if walk.in_reserved {
                ranges_in_node(node, walk.cells[2].0, walk.cells[2].1)
            } else {
                Seq::empty()
            },
            ..walk
        }),
    decreases node,
{
    let opened = reserved_step(walk, FdtToken::BeginNode { name: node.name });
    let told = reserved_after_properties(opened, node.properties);
    reserved_properties(opened, node.properties);
    inner_nodes_add_ranges(told, node.children);
    let inner = reserved_after_nodes(told, node.children);
    let after = reserved_after_node(walk, node);
    assert(after.cells =~= walk.cells);
    assert(told.cells[2] == walk.cells[2]);
    if walk.in_reserved {
        let here = ranges_in_properties(node.properties, walk.cells[2].0, walk.cells[2].1);
        let more = ranges_in_nodes(node.children, walk.cells[2].0, walk.cells[2].1);
        assert(walk.found + here + more =~= walk.found + (here + more));
    } else {
        assert(walk.found + Seq::<MemoryRegion>::empty() =~= walk.found);
    }
}

proof fn inner_nodes_add_ranges(walk: ReservedWalk, nodes: Seq<TreeNode>)
    requires
        walk.cells.len() >= 3,
    ensures
        reserved_after_nodes(walk, nodes) == (ReservedWalk {
            found: walk.found + if walk.in_reserved {
                ranges_in_nodes(nodes, walk.cells[2].0, walk.cells[2].1)
            } else {
                Seq::empty()
            },
            ..walk
        }),
    decreases nodes,
{
    assert(walk.found + Seq::<MemoryRegion>::empty() =~= walk.found);
    if nodes.len() > 0 {
        inner_node_adds_ranges(walk, nodes[0]);
        let next = reserved_after_node(walk, nodes[0]);
        inner_nodes_add_ranges(next, nodes.drop_first());
        if walk.in_reserved {
            let here = ranges_in_node(nodes[0], walk.cells[2].0, walk.cells[2].1);
            let more = ranges_in_nodes(nodes.drop_first(), walk.cells[2].0, walk.cells[2].1);
            assert(walk.found + here + more =~= walk.found + (here + more));
        }
    }
}

/// The ranges below a child of the root with given cells, if it is the node of reserved
/// memory.
pub open spec fn reserved_in_child(node: TreeNode, address_cells: u32, size_cells: u32) -> Seq<
    MemoryRegion,
> {
    if node.name == "reserved-memory".spec_bytes() {
        ranges_in_nodes(
            node.children,
            number_named(node.properties, "#address-cells".spec_bytes(), address_cells),
            number_named(node.properties, "#size-cells".spec_bytes(), size_cells),
        )
    } else {
        Seq::empty()
    }
}

/// The ranges below the children of the root, in order.
pub open spec fn reserved_in_children(nodes: Seq<TreeNode>, address_cells: u32, size_cells: u32) -> Seq<
    MemoryRegion,
>
    decreases nodes.len(),
{
    if nodes.len() == 0 {
        Seq::empty()
    } else {
        reserved_in_child(nodes[0], address_cells, size_cells) + reserved_in_children(
            nodes.drop_first(),
            address_cells,
            size_cells,
        )
    }
}

#[verifier::spinoff_prover]
#[verifier::rlimit(40)]
proof fn child_adds_reserved(walk: ReservedWalk, node: TreeNode)
    requires
        walk.cells.len() == 2,
        !walk.in_reserved,
        distinct(node.properties),
    ensures
        reserved_after_node(walk, node) == (ReservedWalk {
            found: walk.found + reserved_in_child(node, walk.cells[1].0, walk.cells[1].1),
            ..walk
        }),
{
    let opened = reserved_step(walk, FdtToken::BeginNode { name: node.name });
    let told = reserved_after_properties(opened, node.properties);
    reserved_properties(opened, node.properties);
    inner_nodes_add_ranges(told, node.children);
    let after = reserved_after_node(walk, node);
    assert(after.cells =~= walk.cells);
    assert(walk.found + Seq::<MemoryRegion>::empty() =~= walk.found);
}

proof fn children_add_reserved(walk: ReservedWalk, nodes: Seq<TreeNode>)
    requires
        walk.cells.len() == 2,
        !walk.in_reserved,
        forall|i: int| 0 <= i < nodes.len() ==> distinct((#[trigger] nodes[i]).properties),
    ensures
        reserved_after_nodes(walk, nodes) == (ReservedWalk {
            found: walk.found + reserved_in_children(nodes, walk.cells[1].0, walk.cells[1].1),
            ..walk
        }),
    decreases nodes.len(),
{
    assert(walk.found + Seq::<MemoryRegion>::empty() =~= walk.found);
    if nodes.len() > 0 {
        let rest = nodes.drop_first();
        assert(distinct(nodes[0].properties));
        child_adds_reserved(walk, nodes[0]);
        assert forall|i: int| 0 <= i < rest.len() implies distinct(
            (#[trigger] rest[i]).properties,
        ) by {
            assert(rest[i] == nodes[i + 1]);
        }
        children_add_reserved(reserved_after_node(walk, nodes[0]), rest);
        let here = reserved_in_child(nodes[0], walk.cells[1].0, walk.cells[1].1);
        let more = reserved_in_children(rest, walk.cells[1].0, walk.cells[1].1);
        assert(walk.found + here + more =~= walk.found + (here + more));
    }
}

/// Reading a written tree in one pass finds the ranges below `/reserved-memory`, in order,
/// with the cells that it names, or else those of the root, or two for addresses and one for
/// sizes.
pub proof fn written_reserved_memory_is_found_in_one_pass(
    structure: Seq<u8>,
    strings: Seq<u8>,
    root: TreeNode,
)
    requires
        stored(structure, 0, node_image(root) + be32_bytes(9)),
        node_fits(root, strings),
        distinct(root.properties),
        forall|i: int|
            0 <= i < root.children.len() ==> distinct((#[trigger] root.children[i]).properties),
    ensures
        reserved_nodes_found(structure, strings) == reserved_in_children(
            root.children,
            number_named(root.properties, "#address-cells".spec_bytes(), 2),
            number_named(root.properties, "#size-cells".spec_bytes(), 1),
        ),
{
    let walk = ReservedWalk { cells: seq![(2u32, 1u32)], in_reserved: false, found: Seq::empty() };
    let end = node_image(root).len() as int;
    stored_parts(structure, 0, node_image(root), be32_bytes(9));
    stored_is_there(structure, end, be32_bytes(9));
    be32_stored(structure, end, 9);
    reserved_walk_passes_node(structure, strings, 0, root, walk);
    let opened = reserved_step(walk, FdtToken::BeginNode { name: root.name });
    let told = reserved_after_properties(opened, root.properties);
    reserved_properties(opened, root.properties);
    children_add_reserved(told, root.children);
    assert(token_at(structure, strings, end) is None);
    let found = reserved_in_children(root.children, told.cells[1].0, told.cells[1].1);
    assert(told.found =~= Seq::<MemoryRegion>::empty());
    assert(Seq::<MemoryRegion>::empty() + found =~= found);
}

} // verus!
