//! A device tree that is written as a structure block is what is read from it.

use vstd::prelude::*;
use vstd::string::*;
use vstd::utf8::*;
use crate::bytes::{aligned4, be32, be32_bytes, begins_with, c_string, zero_from};
use crate::devicetree::{regions_in, MemoryRegion};
use crate::dtb_change::plain_name;
use crate::dtb_memory::{
    mappable_of_nodes, node_mappable, node_regions, regions_of_nodes, tree_mappable, tree_memory,
    tree_reserved, RegionKind,
};
use crate::fdt_nodes::{
    after_begin, after_property, child_named, children_of, closing_from, named_from, node_at,
    node_name, nodes_from, property_from, property_of, tag_at, NodeSpan,
};
use crate::fdt_tokens::{token_at, FdtToken};
use crate::records::{be32_stored, stored, stored_is_there, stored_parts, zeros};

verus! {

/// A property of a node: its name, where that stands in the strings block, and its value.
pub struct TreeProperty {
    pub name: Seq<u8>,
    pub name_offset: u32,
    pub value: Seq<u8>,
}

/// A node of a device tree.
pub struct TreeNode {
    pub name: Seq<u8>,
    pub properties: Seq<TreeProperty>,
    pub children: Seq<TreeNode>,
}

/// Bytes that are filled up with zeros to a whole number of words.
#[verifier::opaque]
pub open spec fn padded(bytes: Seq<u8>) -> Seq<u8> {
    bytes + zeros(((4 - bytes.len() % 4) % 4) as nat)
}

/// The record of a property.
#[verifier::opaque]
pub open spec fn property_image(property: TreeProperty) -> Seq<u8> {
    be32_bytes(3) + be32_bytes(property.value.len() as u32) + be32_bytes(property.name_offset)
        + padded(property.value)
}

/// The records of properties, one behind the other.
pub open spec fn properties_image(properties: Seq<TreeProperty>) -> Seq<u8>
    decreases properties.len(),
{
    if properties.len() == 0 {
        Seq::empty()
    } else {
        property_image(properties[0]) + properties_image(properties.drop_first())
    }
}

/// The opening of a node.
#[verifier::opaque]
pub open spec fn opening_image(name: Seq<u8>) -> Seq<u8> {
    be32_bytes(1) + padded(name.push(0u8))
}

/// The record of a node: its opening, its properties, its children, and its end.
pub open spec fn node_image(node: TreeNode) -> Seq<u8>
    decreases node,
{
    opening_image(node.name) + properties_image(node.properties) + nodes_image(node.children)
        + be32_bytes(2)
}

/// The records of nodes, one behind the other.
pub open spec fn nodes_image(nodes: Seq<TreeNode>) -> Seq<u8>
    decreases nodes,
{
    if nodes.len() == 0 {
        Seq::empty()
    } else {
        node_image(nodes[0]) + nodes_image(nodes.drop_first())
    }
}

/// Whether the properties of a node can be written, with their names in the strings block.
pub open spec fn properties_fit(properties: Seq<TreeProperty>, strings: Seq<u8>) -> bool {
    forall|i: int|
        0 <= i < properties.len() ==> (#[trigger] properties[i]).value.len() <= u32::MAX
            && c_string(strings, properties[i].name_offset as int) == Some(properties[i].name)
}

/// Whether a node and all below it can be written.
pub open spec fn node_fits(node: TreeNode, strings: Seq<u8>) -> bool
    decreases node,
{
    plain_name(node.name) && properties_fit(node.properties, strings) && nodes_fit(
        node.children,
        strings,
    )
}

/// Whether nodes can be written.
pub open spec fn nodes_fit(nodes: Seq<TreeNode>, strings: Seq<u8>) -> bool
    decreases nodes,
{
    nodes.len() > 0 ==> node_fits(nodes[0], strings) && nodes_fit(nodes.drop_first(), strings)
}

/// Where a node is that starts at an offset.
pub open spec fn span_of(node: TreeNode, at: int) -> NodeSpan {
    NodeSpan { name: node.name, begin: at, end: at + node_image(node).len() - 4 }
}

/// Where nodes are that stand one behind the other from an offset on.
pub open spec fn spans_from(nodes: Seq<TreeNode>, at: int) -> Seq<NodeSpan>
    decreases nodes.len(),
{
    if nodes.len() == 0 {
        Seq::empty()
    } else {
        seq![span_of(nodes[0], at)] + spans_from(
            nodes.drop_first(),
            at + node_image(nodes[0]).len(),
        )
    }
}

/// Where the children of a node are that starts at an offset.
pub open spec fn child_spans(node: TreeNode, at: int) -> Seq<NodeSpan> {
    spans_from(
        node.children,
        at + opening_image(node.name).len() + properties_image(node.properties).len(),
    )
}

/// The value of the first property of a name.
pub open spec fn value_named(properties: Seq<TreeProperty>, name: Seq<u8>) -> Option<Seq<u8>>
    decreases properties.len(),
{
    if properties.len() == 0 {
        None
    } else if properties[0].name == name {
        Some(properties[0].value)
    } else {
        value_named(properties.drop_first(), name)
    }
}

proof fn padded_length(bytes: Seq<u8>)
    ensures
        padded(bytes).len() % 4 == 0,
        padded(bytes).len() == aligned4(bytes.len() as int),
        bytes.len() <= padded(bytes).len(),
{
    reveal(padded);
}

pub proof fn property_length(property: TreeProperty)
    ensures
        property_image(property).len() == 12 + aligned4(property.value.len() as int),
{
    reveal(property_image);
    padded_length(property.value);
}

pub proof fn properties_length(properties: Seq<TreeProperty>)
    ensures
        properties_image(properties).len() % 4 == 0,
    decreases properties.len(),
{
    reveal(property_image);
    if properties.len() > 0 {
        padded_length(properties[0].value);
        properties_length(properties.drop_first());
    }
}

/// Records of nodes take whole words, at least three.
#[verifier::spinoff_prover]
#[verifier::rlimit(30)]
pub proof fn node_length(node: TreeNode)
    ensures
        node_image(node).len() % 4 == 0,
        node_image(node).len() >= 12,
        opening_image(node.name).len() % 4 == 0,
    decreases node,
{
    reveal(opening_image);
    padded_length(node.name.push(0u8));
    properties_length(node.properties);
    nodes_length(node.children);
}

pub proof fn nodes_length(nodes: Seq<TreeNode>)
    ensures
        nodes_image(nodes).len() % 4 == 0,
    decreases nodes,
{
    if nodes.len() > 0 {
        node_length(nodes[0]);
        nodes_length(nodes.drop_first());
    }
}

/// The first terminator behind a name without terminators.
proof fn terminator_is_found(bytes: Seq<u8>, from: int, end: int)
    requires
        0 <= from <= end < bytes.len(),
        forall|i: int| from <= i < end ==> bytes[i] != 0,
        bytes[end] == 0,
    ensures
        zero_from(bytes, from) == Some(end),
    decreases end - from,
{
    if from < end {
        terminator_is_found(bytes, from + 1, end);
    }
}

/// The opening of a node is passed over.
#[verifier::spinoff_prover]
#[verifier::rlimit(30)]
pub proof fn opening_is_read(structure: Seq<u8>, at: int, name: Seq<u8>)
    requires
        at % 4 == 0,
        stored(structure, at, opening_image(name)),
        plain_name(name),
    ensures
        tag_at(structure, at) == Some(1u32),
        node_name(structure, at) == Some(name),
        after_begin(structure, at) == Some(at + opening_image(name).len()),
        0 <= at,
        at + opening_image(name).len() <= structure.len(),
        opening_image(name).len() % 4 == 0,
        opening_image(name).len() >= 8,
{
    reveal(opening_image);
    reveal(padded);
    let text = name.push(0u8);
    padded_length(text);
    let fill = zeros(((4 - text.len() % 4) % 4) as nat);
    stored_is_there(structure, at, opening_image(name));
    stored_parts(structure, at, be32_bytes(1), padded(text));
    be32_stored(structure, at, 1);
    stored_parts(structure, at + 4, text, fill);
    stored_is_there(structure, at + 4, text);
    let start = at + 4;
    let end = start + name.len();
    assert(structure[start + name.len()] == text[name.len() as int]);
    assert forall|i: int| start <= i < end implies structure[i] != 0 by {
        assert(structure[start + (i - start)] == text[i - start]);
        assert(text[i - start] == name[i - start]);
    }
    terminator_is_found(structure, start, end);
    assert(structure.subrange(start, end) =~= name) by {
        assert forall|i: int| 0 <= i < name.len() implies structure[start + i] == name[i] by {
            assert(structure[start + i] == text[i]);
        }
    }
    assert(c_string(structure, start) == Some(name));
    assert(aligned4(at + 4 + name.len() + 1) == at + 4 + aligned4((name.len() + 1) as int));
}

/// A property is passed over.
#[verifier::spinoff_prover]
#[verifier::rlimit(30)]
pub proof fn property_is_read(structure: Seq<u8>, at: int, property: TreeProperty)
    requires
        at % 4 == 0,
        stored(structure, at, property_image(property)),
        property.value.len() <= u32::MAX,
    ensures
        tag_at(structure, at) == Some(3u32),
        be32(structure, at + 4) == property.value.len(),
        be32(structure, at + 8) == property.name_offset,
        structure.subrange(at + 12, at + 12 + property.value.len()) == property.value,
        after_property(structure, at) == Some(at + property_image(property).len()),
        0 <= at,
        at + property_image(property).len() <= structure.len(),
        property_image(property).len() % 4 == 0,
        property_image(property).len() >= 12,
{
    reveal(property_image);
    reveal(padded);
    let length = property.value.len() as u32;
    padded_length(property.value);
    let fill = zeros(((4 - property.value.len() % 4) % 4) as nat);
    let p0 = be32_bytes(3);
    let p1 = p0 + be32_bytes(length);
    let p2 = p1 + be32_bytes(property.name_offset);
    stored_is_there(structure, at, property_image(property));
    stored_parts(structure, at, p2, padded(property.value));
    stored_parts(structure, at, p1, be32_bytes(property.name_offset));
    stored_parts(structure, at, p0, be32_bytes(length));
    be32_stored(structure, at, 3);
    be32_stored(structure, at + 4, length);
    be32_stored(structure, at + 8, property.name_offset);
    stored_parts(structure, at + 12, property.value, fill);
    stored_is_there(structure, at + 12, property.value);
    assert(aligned4(at + 12 + property.value.len()) == at + 12 + aligned4(
        property.value.len() as int,
    ));
}

/// Properties are passed over.
proof fn properties_are_passed(
    structure: Seq<u8>,
    strings: Seq<u8>,
    at: int,
    properties: Seq<TreeProperty>,
    depth: nat,
    end: int,
)
    requires
        at % 4 == 0,
        stored(structure, at, properties_image(properties)),
        properties_fit(properties, strings),
        at + properties_image(properties).len() < structure.len(),
        at + properties_image(properties).len() <= end,
    ensures
        ({
            let behind = at + properties_image(properties).len();
            &&& behind % 4 == 0
            &&& closing_from(structure, at, depth) == closing_from(structure, behind, depth)
            &&& nodes_from(structure, at, end) == nodes_from(structure, behind, end)
        }),
    decreases properties.len(),
{
    properties_length(properties);
    if properties.len() > 0 {
        let first = properties[0];
        let rest = properties.drop_first();
        stored_parts(structure, at, property_image(first), properties_image(rest));
        assert(properties[0].value.len() <= u32::MAX);
        property_is_read(structure, at, first);
        assert forall|i: int| 0 <= i < rest.len() implies (#[trigger] rest[i]).value.len()
            <= u32::MAX && c_string(strings, rest[i].name_offset as int) == Some(
            rest[i].name,
        ) by {
            assert(rest[i] == properties[i + 1]);
        }
        properties_are_passed(
            structure,
            strings,
            at + property_image(first).len(),
            rest,
            depth,
            end,
        );
    }
}

/// The properties of a node are read back by their names.
proof fn properties_are_read(
    structure: Seq<u8>,
    strings: Seq<u8>,
    at: int,
    properties: Seq<TreeProperty>,
    end: int,
    name: Seq<u8>,
)
    requires
        at % 4 == 0,
        stored(structure, at, properties_image(properties)),
        properties_fit(properties, strings),
        at + properties_image(properties).len() < structure.len(),
        at + properties_image(properties).len() <= end,
        at + properties_image(properties).len() == end || tag_at(
            structure,
            at + properties_image(properties).len(),
        ) == Some(1u32),
    ensures
        property_from(structure, strings, at, end, name) == value_named(properties, name),
    decreases properties.len(),
{
    if properties.len() > 0 {
        let first = properties[0];
        let rest = properties.drop_first();
        stored_parts(structure, at, property_image(first), properties_image(rest));
        assert(properties[0].value.len() <= u32::MAX && c_string(
            strings,
            properties[0].name_offset as int,
        ) == Some(properties[0].name));
        property_is_read(structure, at, first);
        assert forall|i: int| 0 <= i < rest.len() implies (#[trigger] rest[i]).value.len()
            <= u32::MAX && c_string(strings, rest[i].name_offset as int) == Some(
            rest[i].name,
        ) by {
            assert(rest[i] == properties[i + 1]);
        }
        properties_are_read(
            structure,
            strings,
            at + property_image(first).len(),
            rest,
            end,
            name,
        );
    }
}

/// The parts of the record of a node.
pub proof fn node_parts(structure: Seq<u8>, at: int, node: TreeNode)
    requires
        stored(structure, at, node_image(node)),
    ensures
        ({
            let inside = at + opening_image(node.name).len();
            let below = inside + properties_image(node.properties).len();
            let end = below + nodes_image(node.children).len();
            &&& stored(structure, at, opening_image(node.name))
            &&& stored(structure, inside, properties_image(node.properties))
            &&& stored(structure, below, nodes_image(node.children))
            &&& stored(structure, end, be32_bytes(2))
            &&& end == span_of(node, at).end
            &&& tag_at(structure, end) == Some(2u32)
            &&& 0 <= at
            &&& end + 4 <= structure.len()
        }),
{
    let opening = opening_image(node.name);
    let properties = properties_image(node.properties);
    let children = nodes_image(node.children);
    stored_is_there(structure, at, node_image(node));
    stored_parts(structure, at, opening + properties + children, be32_bytes(2));
    stored_parts(structure, at, opening + properties, children);
    stored_parts(structure, at, opening, properties);
    be32_stored(structure, span_of(node, at).end, 2);
}

/// A node is closed where its record ends, and passed over by the nodes around it.
#[verifier::spinoff_prover]
#[verifier::rlimit(30)]
pub proof fn written_node_closes(
    structure: Seq<u8>,
    strings: Seq<u8>,
    at: int,
    node: TreeNode,
    depth: nat,
)
    requires
        at % 4 == 0,
        stored(structure, at, node_image(node)),
        at + node_image(node).len() < structure.len(),
        node_fits(node, strings),
    ensures
        depth == 0 ==> closing_from(structure, at, 0) == Some(span_of(node, at).end),
        depth > 0 ==> closing_from(structure, at, depth) == closing_from(
            structure,
            at + node_image(node).len(),
            depth,
        ),
    decreases node, 1int,
{
    node_parts(structure, at, node);
    node_length(node);
    opening_is_read(structure, at, node.name);
    let inside = at + opening_image(node.name).len();
    let below = inside + properties_image(node.properties).len();
    let end = span_of(node, at).end;
    properties_length(node.properties);
    properties_are_passed(structure, strings, inside, node.properties, depth + 1, end);
    written_nodes_close(structure, strings, below, node.children, depth + 1);
    assert(closing_from(structure, at, depth) == closing_from(structure, inside, depth + 1));
}

proof fn written_nodes_close(
    structure: Seq<u8>,
    strings: Seq<u8>,
    at: int,
    nodes: Seq<TreeNode>,
    depth: nat,
)
    requires
        at % 4 == 0,
        depth > 0,
        stored(structure, at, nodes_image(nodes)),
        at + nodes_image(nodes).len() < structure.len(),
        nodes_fit(nodes, strings),
    ensures
        closing_from(structure, at, depth) == closing_from(
            structure,
            at + nodes_image(nodes).len(),
            depth,
        ),
    decreases nodes, 0int,
{
    if nodes.len() > 0 {
        let first = nodes[0];
        stored_parts(structure, at, node_image(first), nodes_image(nodes.drop_first()));
        node_length(first);
        written_node_closes(structure, strings, at, first, depth);
        written_nodes_close(
            structure,
            strings,
            at + node_image(first).len(),
            nodes.drop_first(),
            depth,
        );
    }
}

/// A node that is written is found where it starts, with its name and its end.
pub proof fn written_node_is_found(
    structure: Seq<u8>,
    strings: Seq<u8>,
    at: int,
    node: TreeNode,
)
    requires
        at % 4 == 0,
        stored(structure, at, node_image(node)),
        at + node_image(node).len() < structure.len(),
        node_fits(node, strings),
    ensures
        node_at(structure, at) == Some(span_of(node, at)),
{
    written_node_closes(structure, strings, at, node, 0);
    node_parts(structure, at, node);
    opening_is_read(structure, at, node.name);
}

/// Nodes that are written one behind the other are listed in order.
#[verifier::spinoff_prover]
#[verifier::rlimit(30)]
proof fn written_nodes_are_listed(
    structure: Seq<u8>,
    strings: Seq<u8>,
    at: int,
    nodes: Seq<TreeNode>,
)
    requires
        at % 4 == 0,
        stored(structure, at, nodes_image(nodes)),
        at + nodes_image(nodes).len() < structure.len(),
        nodes_fit(nodes, strings),
    ensures
        nodes_from(structure, at, at + nodes_image(nodes).len()) == spans_from(nodes, at),
    decreases nodes.len(),
{
    if nodes.len() > 0 {
        let first = nodes[0];
        let rest = nodes.drop_first();
        let end = at + nodes_image(nodes).len();
        stored_parts(structure, at, node_image(first), nodes_image(rest));
        node_length(first);
        node_parts(structure, at, first);
        assert(node_fits(first, strings));
        opening_is_read(structure, at, first.name);
        written_node_is_found(structure, strings, at, first);
        written_nodes_are_listed(structure, strings, at + node_image(first).len(), rest);
    }
}

/// The children of a node that is written are those that it was written with, in order.
#[verifier::spinoff_prover]
#[verifier::rlimit(30)]
pub proof fn written_children_are_found(
    structure: Seq<u8>,
    strings: Seq<u8>,
    at: int,
    node: TreeNode,
)
    requires
        at % 4 == 0,
        stored(structure, at, node_image(node)),
        at + node_image(node).len() < structure.len(),
        node_fits(node, strings),
    ensures
        children_of(structure, span_of(node, at)) == child_spans(node, at),
{
    node_parts(structure, at, node);
    node_length(node);
    opening_is_read(structure, at, node.name);
    let inside = at + opening_image(node.name).len();
    let below = inside + properties_image(node.properties).len();
    let end = span_of(node, at).end;
    properties_length(node.properties);
    properties_are_passed(structure, strings, inside, node.properties, 1, end);
    written_nodes_are_listed(structure, strings, below, node.children);
}

/// The properties of a node that is written are those that it was written with: the first of
/// a name counts.
#[verifier::spinoff_prover]
#[verifier::rlimit(30)]
pub proof fn written_property_is_found(
    structure: Seq<u8>,
    strings: Seq<u8>,
    at: int,
    node: TreeNode,
    name: Seq<u8>,
)
    requires
        at % 4 == 0,
        stored(structure, at, node_image(node)),
        at + node_image(node).len() < structure.len(),
        node_fits(node, strings),
    ensures
        property_of(structure, strings, span_of(node, at), name) == value_named(
            node.properties,
            name,
        ),
{
    node_parts(structure, at, node);
    node_length(node);
    opening_is_read(structure, at, node.name);
    let inside = at + opening_image(node.name).len();
    let below = inside + properties_image(node.properties).len();
    let end = span_of(node, at).end;
    properties_length(node.properties);
    if node.children.len() > 0 {
        let first = node.children[0];
        let rest = nodes_image(node.children.drop_first());
        stored_parts(structure, below, node_image(first), rest);
        node_parts(structure, below, first);
        node_length(first);
        assert(nodes_fit(node.children, strings));
        assert(node_fits(first, strings));
        opening_is_read(structure, below, first.name);
    } else {
        assert(below == end);
    }
    properties_are_read(structure, strings, inside, node.properties, end, name);
}

/// Where a node of a list is.
pub open spec fn place_in_list(nodes: Seq<TreeNode>, at: int, index: int) -> int
    decreases index,
{
    if index <= 0 || nodes.len() == 0 {
        at
    } else {
        place_in_list(nodes.drop_first(), at + node_image(nodes[0]).len(), index - 1)
    }
}

/// Each node of a list stands where it is counted to, and fits.
#[verifier::spinoff_prover]
#[verifier::rlimit(30)]
proof fn listed_node_is_stored(
    structure: Seq<u8>,
    strings: Seq<u8>,
    at: int,
    nodes: Seq<TreeNode>,
    index: int,
)
    requires
        at % 4 == 0,
        stored(structure, at, nodes_image(nodes)),
        at + nodes_image(nodes).len() < structure.len(),
        nodes_fit(nodes, strings),
        0 <= index < nodes.len(),
    ensures
        ({
            let place = place_in_list(nodes, at, index);
            &&& place % 4 == 0
            &&& stored(structure, place, node_image(nodes[index]))
            &&& place + node_image(nodes[index]).len() < structure.len()
            &&& node_fits(nodes[index], strings)
            &&& spans_from(nodes, at).len() == nodes.len()
            &&& spans_from(nodes, at)[index] == span_of(nodes[index], place)
        }),
    decreases nodes.len(),
{
    let first = nodes[0];
    let rest = nodes.drop_first();
    stored_parts(structure, at, node_image(first), nodes_image(rest));
    node_length(first);
    spans_length(nodes, at);
    if index > 0 {
        listed_node_is_stored(
            structure,
            strings,
            at + node_image(first).len(),
            rest,
            index - 1,
        );
        assert(rest[index - 1] == nodes[index]);
    }
}

proof fn spans_length(nodes: Seq<TreeNode>, at: int)
    ensures
        spans_from(nodes, at).len() == nodes.len(),
    decreases nodes.len(),
{
    if nodes.len() > 0 {
        spans_length(nodes.drop_first(), at + node_image(nodes[0]).len());
    }
}

/// The first node of a list that has a given name.
pub open spec fn first_with_name(nodes: Seq<TreeNode>, name: Seq<u8>) -> Option<int>
    decreases nodes.len(),
{
    if nodes.len() == 0 {
        None
    } else if nodes[0].name == name {
        Some(0)
    } else {
        match first_with_name(nodes.drop_first(), name) {
            Some(index) => Some(index + 1),
            None => None,
        }
    }
}

/// The child that a name leads to is the first one that was written with that name, and it
/// stands in the block as a node of its own.
#[verifier::spinoff_prover]
#[verifier::rlimit(30)]
pub proof fn written_child_is_found(
    structure: Seq<u8>,
    strings: Seq<u8>,
    at: int,
    node: TreeNode,
    name: Seq<u8>,
)
    requires
        at % 4 == 0,
        stored(structure, at, node_image(node)),
        at + node_image(node).len() < structure.len(),
        node_fits(node, strings),
    ensures
        match first_with_name(node.children, name) {
            None => child_named(structure, span_of(node, at), name) is None,
            Some(index) => 0 <= index < node.children.len() && node.children[index].name == name && ({
                let below = at + opening_image(node.name).len() + properties_image(
                    node.properties,
                ).len();
                let place = place_in_list(node.children, below, index);
                &&& child_named(structure, span_of(node, at), name) == Some(
                    span_of(node.children[index], place),
                )
                &&& place % 4 == 0
                &&& stored(structure, place, node_image(node.children[index]))
                &&& place + node_image(node.children[index]).len() < structure.len()
                &&& node_fits(node.children[index], strings)
            }),
        },
{
    written_children_are_found(structure, strings, at, node);
    node_parts(structure, at, node);
    node_length(node);
    properties_length(node.properties);
    let below = at + opening_image(node.name).len() + properties_image(node.properties).len();
    spans_length(node.children, below);
    named_among_spans(node.children, below, name, child_spans(node, at), 0);
    if let Some(index) = first_with_name(node.children, name) {
        listed_node_is_stored(structure, strings, below, node.children, index);
    }
}

proof fn named_among_spans(
    nodes: Seq<TreeNode>,
    at: int,
    name: Seq<u8>,
    spans: Seq<NodeSpan>,
    from: int,
)
    requires
        0 <= from,
        spans.len() == from + nodes.len(),
        forall|i: int| 0 <= i < nodes.len() ==> #[trigger] spans[from + i] == spans_from(nodes, at)[i],
    ensures
        match first_with_name(nodes, name) {
            None => named_from(spans, name, from) is None,
            Some(index) => 0 <= index < nodes.len() && nodes[index].name == name && named_from(
                spans,
                name,
                from,
            ) == Some(spans[from + index]),
        },
    decreases nodes.len(),
{
    if nodes.len() > 0 {
        let rest = nodes.drop_first();
        let behind = at + node_image(nodes[0]).len();
        spans_length(rest, behind);
        assert(spans[from + 0] == spans_from(nodes, at)[0]);
        assert forall|i: int| 0 <= i < rest.len() implies #[trigger] spans[from + 1 + i]
            == spans_from(rest, behind)[i] by {
            assert(spans[from + (i + 1)] == spans_from(nodes, at)[i + 1]);
        }
        named_among_spans(rest, behind, name, spans, from + 1);
        if let Some(index) = first_with_name(rest, name) {
            assert(rest[index] == nodes[index + 1]);
            assert(spans[from + 1 + index] == spans[from + (index + 1)]);
        }
    }
}

/// The number that the first word of a property holds, or another one where the property is
/// missing or too short.
pub open spec fn number_named(
    properties: Seq<TreeProperty>,
    name: Seq<u8>,
    fallback: u32,
) -> u32 {
    match value_named(properties, name) {
        Some(value) => if value.len() >= 4 {
            be32(value, 0)
        } else {
            fallback
        },
        None => fallback,
    }
}

/// The ranges of a memory node below a root with given cells. Its name is `memory`, alone or
/// with an address, and it says nothing else of its kind.
pub open spec fn memory_of_node(node: TreeNode, address_cells: u32, size_cells: u32) -> Seq<
    MemoryRegion,
> {
    let text = seq![0x6du8, 0x65u8, 0x6du8, 0x6fu8, 0x72u8, 0x79u8];
    let named = node.name == text || (node.name.len() >= 7 && node.name.take(7) == text.push(
        0x40u8,
    ));
    let kind = value_named(node.properties, "device_type".spec_bytes());
    let told = kind is None || kind == Some(text.push(0u8));
    match value_named(node.properties, "reg".spec_bytes()) {
        Some(value) => if named && told {
            regions_in(value, address_cells, size_cells)
        } else {
            Seq::empty()
        },
        None => Seq::empty(),
    }
}

/// The memory of the nodes below a root with given cells.
pub open spec fn memory_of_nodes(nodes: Seq<TreeNode>, address_cells: u32, size_cells: u32) -> Seq<
    MemoryRegion,
>
    decreases nodes.len(),
{
    if nodes.len() == 0 {
        Seq::empty()
    } else {
        memory_of_nodes(nodes.drop_last(), address_cells, size_cells) + memory_of_node(
            nodes.last(),
            address_cells,
            size_cells,
        )
    }
}

/// The ranges of nodes with given cells, whatever the nodes are.
pub open spec fn ranges_of_nodes(nodes: Seq<TreeNode>, address_cells: u32, size_cells: u32) -> Seq<
    MemoryRegion,
>
    decreases nodes.len(),
{
    if nodes.len() == 0 {
        Seq::empty()
    } else {
        ranges_of_nodes(nodes.drop_last(), address_cells, size_cells) + match value_named(
            nodes.last().properties,
            "reg".spec_bytes(),
        ) {
            Some(value) => regions_in(value, address_cells, size_cells),
            None => Seq::empty(),
        }
    }
}

pub proof fn memory_text()
    ensures
        "memory".spec_bytes() == seq![0x6du8, 0x65u8, 0x6du8, 0x6fu8, 0x72u8, 0x79u8],
        "memory@".spec_bytes() == seq![0x6du8, 0x65u8, 0x6du8, 0x6fu8, 0x72u8, 0x79u8, 0x40u8],
        "memory\0".spec_bytes() == seq![0x6du8, 0x65u8, 0x6du8, 0x6fu8, 0x72u8, 0x79u8, 0u8],
{
    reveal_strlit("memory");
    reveal_strlit("memory@");
    reveal_strlit("memory\0");
    crate::linux::literal_bytes("memory");
    crate::linux::literal_bytes("memory@");
    crate::linux::literal_bytes("memory\0");
    let a = seq![0x6du8, 0x65u8, 0x6du8, 0x6fu8, 0x72u8, 0x79u8];
    assert forall|i: int| 0 <= i < 6 implies "memory".spec_bytes()[i] == a[i] by {
        assert("memory".spec_bytes()[i] == "memory"@[i] as u8);
    }
    let b = a.push(0x40u8);
    assert forall|i: int| 0 <= i < 7 implies "memory@".spec_bytes()[i] == b[i] by {
        assert("memory@".spec_bytes()[i] == "memory@"@[i] as u8);
    }
    let c = a.push(0u8);
    assert forall|i: int| 0 <= i < 7 implies "memory\0".spec_bytes()[i] == c[i] by {
        assert("memory\0".spec_bytes()[i] == "memory\0"@[i] as u8);
    }
    assert("memory".spec_bytes() =~= a);
    assert("memory@".spec_bytes() =~= b);
    assert("memory\0".spec_bytes() =~= c);
}

/// The ranges of the first nodes of a list.
#[verifier::spinoff_prover]
#[verifier::rlimit(40)]
proof fn ranges_of_list(
    structure: Seq<u8>,
    strings: Seq<u8>,
    at: int,
    nodes: Seq<TreeNode>,
    count: int,
    address_cells: u32,
    size_cells: u32,
)
    requires
        at % 4 == 0,
        stored(structure, at, nodes_image(nodes)),
        at + nodes_image(nodes).len() < structure.len(),
        nodes_fit(nodes, strings),
        0 <= count <= nodes.len(),
    ensures
        regions_of_nodes(
            structure,
            strings,
            spans_from(nodes, at).take(count),
            address_cells,
            size_cells,
            RegionKind::Memory,
        ) == memory_of_nodes(nodes.take(count), address_cells, size_cells),
        regions_of_nodes(
            structure,
            strings,
            spans_from(nodes, at).take(count),
            address_cells,
            size_cells,
            RegionKind::Reserved,
        ) == ranges_of_nodes(nodes.take(count), address_cells, size_cells),
    decreases count,
{
    spans_length(nodes, at);
    if count > 0 {
        let index = count - 1;
        let spans = spans_from(nodes, at);
        ranges_of_list(structure, strings, at, nodes, index, address_cells, size_cells);
        assert(spans.take(count).drop_last() =~= spans.take(index));
        assert(nodes.take(count).drop_last() =~= nodes.take(index));
        listed_node_is_stored(structure, strings, at, nodes, index);
        let place = place_in_list(nodes, at, index);
        let node = nodes[index];
        written_property_is_found(structure, strings, place, node, "reg".spec_bytes());
        written_property_is_found(structure, strings, place, node, "device_type".spec_bytes());
        memory_text();
        let text = seq![0x6du8, 0x65u8, 0x6du8, 0x6fu8, 0x72u8, 0x79u8];
        assert(text.push(0x40u8) =~= "memory@".spec_bytes());
        assert(text.push(0u8) =~= "memory\0".spec_bytes());
        assert(begins_with(node.name, "memory@".spec_bytes()) == (node.name.len() >= 7
            && node.name.take(7) == text.push(0x40u8)));
    } else {
        assert(spans_from(nodes, at).take(0) =~= Seq::empty());
    }
}

/// The usable memory of a device tree that is written is what the memory nodes below its root
/// say, in order, with the cells that the root names, or two for addresses and one for sizes.
#[verifier::spinoff_prover]
#[verifier::rlimit(30)]
pub proof fn written_memory_is_found(
    structure: Seq<u8>,
    strings: Seq<u8>,
    root: TreeNode,
)
    requires
        stored(structure, 0, node_image(root)),
        node_image(root).len() < structure.len(),
        node_fits(root, strings),
    ensures
        tree_memory(structure, strings) == memory_of_nodes(
            root.children,
            number_named(root.properties, "#address-cells".spec_bytes(), 2),
            number_named(root.properties, "#size-cells".spec_bytes(), 1),
        ),
{
    written_node_is_found(structure, strings, 0, root);
    written_children_are_found(structure, strings, 0, root);
    written_property_is_found(structure, strings, 0, root, "#address-cells".spec_bytes());
    written_property_is_found(structure, strings, 0, root, "#size-cells".spec_bytes());
    node_parts(structure, 0, root);
    node_length(root);
    properties_length(root.properties);
    let below = opening_image(root.name).len() + properties_image(root.properties).len();
    spans_length(root.children, below as int);
    let count = root.children.len() as int;
    ranges_of_list(
        structure,
        strings,
        below as int,
        root.children,
        count,
        number_named(root.properties, "#address-cells".spec_bytes(), 2),
        number_named(root.properties, "#size-cells".spec_bytes(), 1),
    );
    assert(root.children.take(count) =~= root.children);
    assert(child_spans(root, 0).take(count) =~= child_spans(root, 0));
}

/// The reserved memory of a device tree that is written is what the nodes below
/// `/reserved-memory` say, in order, with the cells that it names, or else those of the root.
#[verifier::spinoff_prover]
#[verifier::rlimit(40)]
pub proof fn written_reserved_memory_is_found(
    structure: Seq<u8>,
    strings: Seq<u8>,
    root: TreeNode,
)
    requires
        stored(structure, 0, node_image(root)),
        node_image(root).len() < structure.len(),
        node_fits(root, strings),
    ensures
        tree_reserved(structure, strings) == match first_with_name(
            root.children,
            "reserved-memory".spec_bytes(),
        ) {
            None => Seq::empty(),
            Some(index) => {
                let node = root.children[index];
                ranges_of_nodes(
                    node.children,
                    number_named(
                        node.properties,
                        "#address-cells".spec_bytes(),
                        number_named(root.properties, "#address-cells".spec_bytes(), 2),
                    ),
                    number_named(
                        node.properties,
                        "#size-cells".spec_bytes(),
                        number_named(root.properties, "#size-cells".spec_bytes(), 1),
                    ),
                )
            },
        },
{
    let address_name = "#address-cells".spec_bytes();
    let size_name = "#size-cells".spec_bytes();
    let reserved_name = "reserved-memory".spec_bytes();
    written_node_is_found(structure, strings, 0, root);
    written_child_is_found(structure, strings, 0, root, reserved_name);
    written_property_is_found(structure, strings, 0, root, address_name);
    written_property_is_found(structure, strings, 0, root, size_name);
    if let Some(index) = first_with_name(root.children, reserved_name) {
        let node = root.children[index];
        let below = opening_image(root.name).len() + properties_image(root.properties).len();
        let place = place_in_list(root.children, below as int, index);
        written_children_are_found(structure, strings, place, node);
        written_property_is_found(structure, strings, place, node, address_name);
        written_property_is_found(structure, strings, place, node, size_name);
        node_parts(structure, place, node);
        node_length(node);
        properties_length(node.properties);
        let inner = place + opening_image(node.name).len() + properties_image(
            node.properties,
        ).len();
        spans_length(node.children, inner);
        let count = node.children.len() as int;
        ranges_of_list(
            structure,
            strings,
            inner,
            node.children,
            count,
            number_named(
                node.properties,
                address_name,
                number_named(root.properties, address_name, 2),
            ),
            number_named(node.properties, size_name, number_named(root.properties, size_name, 1)),
        );
        assert(node.children.take(count) =~= node.children);
        assert(child_spans(node, place).take(count) =~= child_spans(node, place));
    }
}

/// Words without meaning are passed over wherever they stand: between properties, between
/// nodes, and before the end of a node.
pub proof fn empty_words_are_passed(
    structure: Seq<u8>,
    strings: Seq<u8>,
    at: int,
    end: int,
    depth: nat,
    name: Seq<u8>,
)
    requires
        0 <= at,
        stored(structure, at, be32_bytes(4)),
        at < end,
    ensures
        closing_from(structure, at, depth) == closing_from(structure, at + 4, depth),
        nodes_from(structure, at, end) == nodes_from(structure, at + 4, end),
        property_from(structure, strings, at, end, name) == property_from(
            structure,
            strings,
            at + 4,
            end,
            name,
        ),
        token_at(structure, strings, at) == Some((FdtToken::Nop, at + 4)),
{
    stored_is_there(structure, at, be32_bytes(4));
    be32_stored(structure, at, 4);
}

/// Whether each range of nodes may be mapped: those of a node with `no-map` may not.
pub open spec fn mappable_ranges(nodes: Seq<TreeNode>, address_cells: u32, size_cells: u32) -> Seq<bool>
    decreases nodes.len(),
{
    if nodes.len() == 0 {
        Seq::empty()
    } else {
        let node = nodes.last();
        let count = match value_named(node.properties, "reg".spec_bytes()) {
            Some(value) => regions_in(value, address_cells, size_cells).len(),
            None => 0,
        };
        mappable_ranges(nodes.drop_last(), address_cells, size_cells) + Seq::new(
            count,
            |i: int| value_named(node.properties, "no-map".spec_bytes()) is None,
        )
    }
}

#[verifier::spinoff_prover]
#[verifier::rlimit(40)]
proof fn mappable_of_list(
    structure: Seq<u8>,
    strings: Seq<u8>,
    at: int,
    nodes: Seq<TreeNode>,
    count: int,
    address_cells: u32,
    size_cells: u32,
)
    requires
        at % 4 == 0,
        stored(structure, at, nodes_image(nodes)),
        at + nodes_image(nodes).len() < structure.len(),
        nodes_fit(nodes, strings),
        0 <= count <= nodes.len(),
    ensures
        mappable_of_nodes(
            structure,
            strings,
            spans_from(nodes, at).take(count),
            address_cells,
            size_cells,
            RegionKind::Reserved,
        ) == mappable_ranges(nodes.take(count), address_cells, size_cells),
    decreases count,
{
    spans_length(nodes, at);
    if count > 0 {
        let index = count - 1;
        let spans = spans_from(nodes, at);
        mappable_of_list(structure, strings, at, nodes, index, address_cells, size_cells);
        assert(spans.take(count).drop_last() =~= spans.take(index));
        assert(nodes.take(count).drop_last() =~= nodes.take(index));
        listed_node_is_stored(structure, strings, at, nodes, index);
        let place = place_in_list(nodes, at, index);
        let node = nodes[index];
        written_property_is_found(structure, strings, place, node, "reg".spec_bytes());
        written_property_is_found(structure, strings, place, node, "no-map".spec_bytes());
        let found = node_regions(
            structure,
            strings,
            spans[index],
            address_cells,
            size_cells,
            RegionKind::Reserved,
        );
        assert(Seq::new(
            found.len(),
            |i: int| node_mappable(structure, strings, spans[index]),
        ) =~= Seq::new(
            found.len(),
            |i: int| value_named(node.properties, "no-map".spec_bytes()) is None,
        ));
    } else {
        assert(spans_from(nodes, at).take(0) =~= Seq::empty());
    }
}

/// Of the reserved memory of a device tree that is written, those ranges may be mapped whose
/// nodes were written without `no-map`.
#[verifier::spinoff_prover]
#[verifier::rlimit(40)]
pub proof fn written_no_map_is_found(
    structure: Seq<u8>,
    strings: Seq<u8>,
    root: TreeNode,
)
    requires
        stored(structure, 0, node_image(root)),
        node_image(root).len() < structure.len(),
        node_fits(root, strings),
    ensures
        tree_mappable(structure, strings) == match first_with_name(
            root.children,
            "reserved-memory".spec_bytes(),
        ) {
            None => Seq::empty(),
            Some(index) => {
                let node = root.children[index];
                mappable_ranges(
                    node.children,
                    number_named(
                        node.properties,
                        "#address-cells".spec_bytes(),
                        number_named(root.properties, "#address-cells".spec_bytes(), 2),
                    ),
                    number_named(
                        node.properties,
                        "#size-cells".spec_bytes(),
                        number_named(root.properties, "#size-cells".spec_bytes(), 1),
                    ),
                )
            },
        },
{
    let address_name = "#address-cells".spec_bytes();
    let size_name = "#size-cells".spec_bytes();
    let reserved_name = "reserved-memory".spec_bytes();
    written_node_is_found(structure, strings, 0, root);
    written_child_is_found(structure, strings, 0, root, reserved_name);
    written_property_is_found(structure, strings, 0, root, address_name);
    written_property_is_found(structure, strings, 0, root, size_name);
    if let Some(index) = first_with_name(root.children, reserved_name) {
        let node = root.children[index];
        let below = opening_image(root.name).len() + properties_image(root.properties).len();
        let place = place_in_list(root.children, below as int, index);
        written_children_are_found(structure, strings, place, node);
        written_property_is_found(structure, strings, place, node, address_name);
        written_property_is_found(structure, strings, place, node, size_name);
        node_parts(structure, place, node);
        node_length(node);
        properties_length(node.properties);
        let inner = place + opening_image(node.name).len() + properties_image(
            node.properties,
        ).len();
        spans_length(node.children, inner);
        let count = node.children.len() as int;
        mappable_of_list(
            structure,
            strings,
            inner,
            node.children,
            count,
            number_named(
                node.properties,
                address_name,
                number_named(root.properties, address_name, 2),
            ),
            number_named(node.properties, size_name, number_named(root.properties, size_name, 1)),
        );
        assert(node.children.take(count) =~= node.children);
        assert(child_spans(node, place).take(count) =~= child_spans(node, place));
    }
}

} // verus!
