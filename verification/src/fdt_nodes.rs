//! Nodes and properties in the structure block of a flattened device tree.
//!
//! Everything here is stated over the bytes of the structure block and of the
//! strings block, and over offsets into the structure block.

use vstd::prelude::*;
use crate::bytes::{aligned4_within, be32, c_string, zero_from_is_first};
use crate::fdt_tokens::{FDT_BEGIN_NODE, FDT_END_NODE, FDT_NOP, FDT_PROP};

verus! {

/// The token at an offset, if one fits there.
pub open spec fn tag_at(structure: Seq<u8>, offset: int) -> Option<u32> {
    if 0 <= offset && offset + 4 <= structure.len() {
        Some(be32(structure, offset))
    } else {
        None
    }
}

/// The name of the node that opens at an offset.
pub open spec fn node_name(structure: Seq<u8>, offset: int) -> Option<Seq<u8>> {
    if tag_at(structure, offset) == Some(FDT_BEGIN_NODE) {
        c_string(structure, offset + 4)
    } else {
        None
    }
}

/// The offset behind the opening of a node. The end of the block limits it.
pub open spec fn after_begin(structure: Seq<u8>, offset: int) -> Option<int> {
    match node_name(structure, offset) {
        Some(name) => Some(
            aligned4_within(offset + 4 + name.len() + 1, structure.len() as int),
        ),
        None => None,
    }
}

/// The offset behind a property, if its value lies inside of the block.
pub open spec fn after_property(structure: Seq<u8>, offset: int) -> Option<int> {
    let size = structure.len() as int;
    if 0 <= offset && offset + 12 <= size && offset + 12 + be32(structure, offset + 4) <= size {
        Some(aligned4_within(offset + 12 + be32(structure, offset + 4), size))
    } else {
        None
    }
}

/// The offset of the token that closes the outermost of `depth` open nodes, when
/// reading goes on from `offset`.
pub open spec fn closing_from(structure: Seq<u8>, offset: int, depth: nat) -> Option<int>
    decreases structure.len() - offset,
{
    let next = match tag_at(structure, offset) {
        Some(tag) => if tag == FDT_BEGIN_NODE {
            after_begin(structure, offset)
        } else if tag == FDT_PROP {
            after_property(structure, offset)
        } else if tag == FDT_END_NODE || tag == FDT_NOP {
            Some(offset + 4)
        } else {
            None
        },
        None => None,
    };
    match next {
        Some(place) => if place <= offset || place > structure.len() {
            None
        } else if be32(structure, offset) == FDT_BEGIN_NODE {
            closing_from(structure, place, depth + 1)
        } else if be32(structure, offset) == FDT_END_NODE {
            if depth == 0 {
                None
            } else if depth == 1 {
                Some(offset)
            } else {
                closing_from(structure, place, (depth - 1) as nat)
            }
        } else {
            closing_from(structure, place, depth)
        },
        None => None,
    }
}

/// One node of the structure block.
pub struct NodeSpan {
    /// Name of the node.
    pub name: Seq<u8>,
    /// Offset of the token that opens the node.
    pub begin: int,
    /// Offset of the token that closes the node.
    pub end: int,
}

/// The node that opens at an offset.
pub open spec fn node_at(structure: Seq<u8>, offset: int) -> Option<NodeSpan> {
    match (node_name(structure, offset), closing_from(structure, offset, 0)) {
        (Some(name), Some(end)) => Some(NodeSpan { name, begin: offset, end }),
        _ => None,
    }
}

/// The nodes from `offset` up to `end`, without those inside of them. A
/// malformed token ends the list.
pub open spec fn nodes_from(structure: Seq<u8>, offset: int, end: int) -> Seq<NodeSpan>
    decreases structure.len() - offset,
{
    if offset >= end {
        Seq::empty()
    } else {
        match tag_at(structure, offset) {
            Some(tag) => if tag == FDT_PROP {
                match after_property(structure, offset) {
                    Some(next) => if next <= offset || next > structure.len() {
                        Seq::empty()
                    } else {
                        nodes_from(structure, next, end)
                    },
                    None => Seq::empty(),
                }
            } else if tag == FDT_NOP {
                nodes_from(structure, offset + 4, end)
            } else if tag == FDT_BEGIN_NODE {
                match node_at(structure, offset) {
                    Some(node) => if node.end < offset || node.end + 4 > structure.len() {
                        Seq::empty()
                    } else {
                        seq![node] + nodes_from(structure, node.end + 4, end)
                    },
                    None => Seq::empty(),
                }
            } else {
                Seq::empty()
            },
            None => Seq::empty(),
        }
    }
}

/// The direct children of a node, in order.
pub open spec fn children_of(structure: Seq<u8>, parent: NodeSpan) -> Seq<NodeSpan> {
    match after_begin(structure, parent.begin) {
        Some(offset) => nodes_from(structure, offset, parent.end),
        None => Seq::empty(),
    }
}

/// The first node of a list from place `from` on that has a given name.
pub open spec fn named_from(nodes: Seq<NodeSpan>, name: Seq<u8>, from: int) -> Option<NodeSpan>
    decreases nodes.len() - from,
{
    if from < 0 || from >= nodes.len() {
        None
    } else if nodes[from].name == name {
        Some(nodes[from])
    } else {
        named_from(nodes, name, from + 1)
    }
}

/// The first direct child of a node that has a given name.
pub open spec fn child_named(structure: Seq<u8>, parent: NodeSpan, name: Seq<u8>) -> Option<NodeSpan> {
    named_from(children_of(structure, parent), name, 0)
}

/// The node that a sequence of names leads to from a node. An empty name leads
/// nowhere.
pub open spec fn descendant(structure: Seq<u8>, node: NodeSpan, names: Seq<Seq<u8>>) -> Option<NodeSpan>
    decreases names.len(),
{
    if names.len() == 0 {
        Some(node)
    } else if names[0].len() == 0 {
        None
    } else {
        match child_named(structure, node, names[0]) {
            Some(child) => descendant(structure, child, names.drop_first()),
            None => None,
        }
    }
}

/// The parts between the slashes of a path from `from` on, empty ones included.
pub open spec fn parts_from(path: Seq<u8>, start: int, cursor: int) -> Seq<Seq<u8>>
    decreases path.len() - cursor,
{
    if cursor < 0 || cursor >= path.len() {
        seq![path.subrange(start, path.len() as int)]
    } else if path[cursor] == 0x2f {
        seq![path.subrange(start, cursor)] + parts_from(path, cursor + 1, cursor + 1)
    } else {
        parts_from(path, start, cursor + 1)
    }
}

/// The parts between the slashes of a path, empty ones included.
pub open spec fn path_parts(path: Seq<u8>) -> Seq<Seq<u8>> {
    parts_from(path, 0, 0)
}

/// A path has at least one part.
pub proof fn parts_are_some(path: Seq<u8>, start: int, cursor: int)
    ensures
        parts_from(path, start, cursor).len() >= 1,
    decreases path.len() - cursor,
{
    if 0 <= cursor < path.len() && path[cursor] != 0x2f {
        parts_are_some(path, start, cursor + 1);
    }
}

/// The names that an absolute path goes through, or nothing where the path is
/// not absolute. The path `/` goes through none.
pub open spec fn path_names(path: Seq<u8>) -> Option<Seq<Seq<u8>>> {
    if path == seq![0x2fu8] {
        Some(Seq::empty())
    } else if path_parts(path)[0].len() != 0 {
        None
    } else {
        Some(path_parts(path).drop_first())
    }
}

/// The node at an absolute path.
pub open spec fn node_at_path(structure: Seq<u8>, path: Seq<u8>) -> Option<NodeSpan> {
    match (path_names(path), node_at(structure, 0)) {
        (Some(names), Some(root)) => descendant(structure, root, names),
        _ => None,
    }
}

/// The value of the first property of a given name from `offset` up to `end`.
/// Properties come before child nodes.
pub open spec fn property_from(
    structure: Seq<u8>,
    strings: Seq<u8>,
    offset: int,
    end: int,
    name: Seq<u8>,
) -> Option<Seq<u8>>
    decreases structure.len() - offset,
{
    if offset >= end {
        None
    } else {
        match tag_at(structure, offset) {
            Some(tag) => if tag == FDT_PROP {
                if offset + 12 > structure.len() {
                    None
                } else {
                    match (
                        c_string(strings, be32(structure, offset + 8) as int),
                        after_property(structure, offset),
                    ) {
                        (Some(found), Some(next)) => if found == name {
                            Some(
                                structure.subrange(
                                    offset + 12,
                                    offset + 12 + be32(structure, offset + 4),
                                ),
                            )
                        } else if next <= offset || next > structure.len() {
                            None
                        } else {
                            property_from(structure, strings, next, end, name)
                        },
                        _ => None,
                    }
                }
            } else if tag == FDT_NOP {
                property_from(structure, strings, offset + 4, end, name)
            } else {
                None
            },
            None => None,
        }
    }
}

/// The value of a property of a node.
pub open spec fn property_of(
    structure: Seq<u8>,
    strings: Seq<u8>,
    node: NodeSpan,
    name: Seq<u8>,
) -> Option<Seq<u8>> {
    match after_begin(structure, node.begin) {
        Some(offset) => property_from(structure, strings, offset, node.end, name),
        None => None,
    }
}

/// The number that a property of a node starts with.
pub open spec fn property_number(
    structure: Seq<u8>,
    strings: Seq<u8>,
    node: NodeSpan,
    name: Seq<u8>,
) -> Option<u32> {
    match property_of(structure, strings, node, name) {
        Some(value) => if value.len() >= 4 {
            Some(be32(value, 0))
        } else {
            None
        },
        None => None,
    }
}

/// Openings and properties move forward and stay inside of the block.
pub proof fn steps_advance(structure: Seq<u8>, offset: int)
    ensures
        after_begin(structure, offset) matches Some(next) ==> offset + 4 < next <= structure.len(),
        after_property(structure, offset) matches Some(next) ==> offset + 12 <= next
            <= structure.len(),
{
    if 0 <= offset && offset + 4 <= structure.len() {
        zero_from_is_first(structure, offset + 4);
    }
}

/// The token that closes a node lies behind the token that opens it, inside of
/// the block.
pub proof fn closing_is_ahead(structure: Seq<u8>, offset: int, depth: nat)
    ensures
        closing_from(structure, offset, depth) matches Some(end) ==> offset <= end && end + 4
            <= structure.len() && be32(structure, end) == FDT_END_NODE && (depth == 0 ==> offset
            < end),
    decreases structure.len() - offset,
{
    steps_advance(structure, offset);
    if let Some(tag) = tag_at(structure, offset) {
        if tag == FDT_BEGIN_NODE {
            if let Some(next) = after_begin(structure, offset) {
                closing_is_ahead(structure, next, depth + 1);
            }
        } else if tag == FDT_PROP {
            if let Some(next) = after_property(structure, offset) {
                closing_is_ahead(structure, next, depth);
            }
        } else if tag == FDT_END_NODE {
            if depth > 1 {
                closing_is_ahead(structure, offset + 4, (depth - 1) as nat);
            }
        } else if tag == FDT_NOP {
            closing_is_ahead(structure, offset + 4, depth);
        }
    }
}

} // verus!
