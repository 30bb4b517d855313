//! What a splice of the structure block of a device tree leaves as it was.

use vstd::prelude::*;
use vstd::utf8::*;
use crate::bytes::be32;
use crate::dtb_edit::EditError;
use crate::fdt_nodes::{
    after_begin, after_property, child_named, children_of, closing_from, closing_is_ahead,
    descendant, named_from, node_at, nodes_from, property_from, property_of, steps_advance, tag_at,
    NodeSpan,
};
use crate::fdt_records::{
    child_is_there, found_node_is_there, node_record, node_record_reads_back,
    node_splice_is_transparent, passing_lists_nothing, property_behind, property_record,
    property_record_reads_back, property_splice_is_transparent, reached_is_aligned, root_reaches,
    writing_place, writing_place_is_inside,
};
use crate::fdt_splice::{
    child_closes, closing_before, closing_behind, first_named, listed_is_ahead, listed_to,
    listing_comes_to_end, listing_comes_to_node, listing_joins, listing_reaches, listing_survives,
    named_has_index, node_opens_inside, node_survives, reaches, reaching_closes_alike,
    reaching_joins, reaching_lifts, spliced, splices_words, steps_before, steps_behind, stretched,
    transparent,
};
use crate::fdt_tokens::{FDT_BEGIN_NODE, FDT_NOP, FDT_PROP};

verus! {

/// A node that has moved.
pub open spec fn moved(node: NodeSpan, growth: int) -> NodeSpan {
    NodeSpan { begin: node.begin + growth, end: node.end + growth, ..node }
}

/// Nodes that have moved.
pub open spec fn all_moved(nodes: Seq<NodeSpan>, growth: int) -> Seq<NodeSpan> {
    Seq::new(nodes.len(), |i: int| moved(nodes[i], growth))
}

/// The names of nodes, in order.
pub open spec fn names_of(nodes: Seq<NodeSpan>) -> Seq<Seq<u8>> {
    Seq::new(nodes.len(), |i: int| nodes[i].name)
}

/// The names of the direct children of a node, in order.
pub open spec fn child_names(structure: Seq<u8>, node: NodeSpan) -> Seq<Seq<u8>> {
    names_of(children_of(structure, node))
}

/// Whether a node has the name and the properties of another one.
pub open spec fn same_contents(
    structure: Seq<u8>,
    node: NodeSpan,
    other_structure: Seq<u8>,
    other: NodeSpan,
    strings: Seq<u8>,
) -> bool {
    &&& other.name == node.name
    &&& forall|name: Seq<u8>|
        #![trigger property_of(other_structure, strings, other, name)]
        property_of(other_structure, strings, other, name) == property_of(
            structure,
            strings,
            node,
            name,
        )
}

/// A list of nodes behind a splice has moved with it.
proof fn nodes_behind(
    block: Seq<u8>,
    place: int,
    old_length: int,
    part: Seq<u8>,
    offset: int,
    end: int,
)
    requires
        splices_words(block, place, old_length, part),
        place + old_length <= offset,
    ensures
        ({
            let growth = part.len() - old_length;
            nodes_from(spliced(block, place, old_length, part), offset + growth, end + growth)
                == all_moved(nodes_from(block, offset, end), growth)
        }),
    decreases block.len() - offset,
{
    let after = spliced(block, place, old_length, part);
    let growth = part.len() - old_length;
    let here = nodes_from(block, offset, end);
    let there = nodes_from(after, offset + growth, end + growth);
    steps_behind(block, place, old_length, part, offset);
    steps_advance(block, offset);
    assert(after.len() == block.len() + growth);
    if offset < end {
        if let Some(tag) = tag_at(block, offset) {
            if tag == FDT_PROP {
                if let Some(next) = after_property(block, offset) {
                    nodes_behind(block, place, old_length, part, next, end);
                }
            } else if tag == FDT_NOP {
                nodes_behind(block, place, old_length, part, offset + 4, end);
            } else if tag == FDT_BEGIN_NODE {
                closing_behind(block, place, old_length, part, offset, 0);
                closing_is_ahead(block, offset, 0);
                if let Some(node) = node_at(block, offset) {
                    nodes_behind(block, place, old_length, part, node.end + 4, end);
                    assert(node_at(after, offset + growth) == Some(moved(node, growth)));
                }
            }
        }
    }
    assert(there =~= all_moved(here, growth));
}

/// A node behind a splice has moved with it, with its children and properties.
proof fn node_behind(
    block: Seq<u8>,
    place: int,
    old_length: int,
    part: Seq<u8>,
    node: NodeSpan,
    strings: Seq<u8>,
)
    requires
        splices_words(block, place, old_length, part),
        place + old_length <= node.begin,
        node_at(block, node.begin) == Some(node),
    ensures
        ({
            let after = spliced(block, place, old_length, part);
            let growth = part.len() - old_length;
            &&& node_at(after, node.begin + growth) == Some(moved(node, growth))
            &&& children_of(after, moved(node, growth)) == all_moved(
                children_of(block, node),
                growth,
            )
            &&& same_contents(block, node, after, moved(node, growth), strings)
        }),
{
    let after = spliced(block, place, old_length, part);
    let growth = part.len() - old_length;
    steps_behind(block, place, old_length, part, node.begin);
    closing_behind(block, place, old_length, part, node.begin, 0);
    node_opens_inside(block, node.begin);
    let start = after_begin(block, node.begin)->0;
    nodes_behind(block, place, old_length, part, start, node.end);
    assert forall|name: Seq<u8>|
        #![trigger property_of(after, strings, moved(node, growth), name)]
        property_of(after, strings, moved(node, growth), name) == property_of(
            block,
            strings,
            node,
            name,
        ) by {
        property_behind(block, place, old_length, part, strings, start, node.end, name);
    }
}

/// A name is found among moved nodes as before.
proof fn name_moves(nodes: Seq<NodeSpan>, growth: int, name: Seq<u8>, from: int)
    requires
        0 <= from,
    ensures
        named_from(all_moved(nodes, growth), name, from) == match named_from(nodes, name, from) {
            Some(node) => Some(moved(node, growth)),
            None => None,
        },
    decreases nodes.len() - from,
{
    if from < nodes.len() && nodes[from].name != name {
        name_moves(nodes, growth, name, from + 1);
    }
}

/// The names of moved nodes are the same.
proof fn moved_names(nodes: Seq<NodeSpan>, growth: int)
    ensures
        names_of(all_moved(nodes, growth)) == names_of(nodes),
{
    assert(names_of(all_moved(nodes, growth)) =~= names_of(nodes));
}

/// A node below one that is behind a splice is found by the same names, with its
/// children and properties.
proof fn subtree_behind(
    block: Seq<u8>,
    place: int,
    old_length: int,
    part: Seq<u8>,
    top: NodeSpan,
    names: Seq<Seq<u8>>,
    node: NodeSpan,
    strings: Seq<u8>,
)
    requires
        splices_words(block, place, old_length, part),
        place + old_length <= top.begin,
        node_at(block, top.begin) == Some(top),
        descendant(block, top, names) == Some(node),
    ensures
        ({
            let after = spliced(block, place, old_length, part);
            let growth = part.len() - old_length;
            &&& descendant(after, moved(top, growth), names) == Some(moved(node, growth))
            &&& same_contents(block, node, after, moved(node, growth), strings)
            &&& child_names(after, moved(node, growth)) == child_names(block, node)
        }),
    decreases names.len(),
{
    let growth = part.len() - old_length;
    node_behind(block, place, old_length, part, top, strings);
    if names.len() == 0 {
        moved_names(children_of(block, top), growth);
    } else {
        let child = child_named(block, top, names[0])->0;
        name_moves(children_of(block, top), growth, names[0], 0);
        child_is_there(block, top, names[0]);
        subtree_behind(
            block,
            place,
            old_length,
            part,
            child,
            names.drop_first(),
            node,
            strings,
        );
    }
}

/// A property is read as before when it is read as before from a place on that
/// reading comes to.
proof fn property_through(
    block: Seq<u8>,
    place: int,
    old_length: int,
    part: Seq<u8>,
    strings: Seq<u8>,
    offset: int,
    target: int,
    end: int,
    new_end: int,
    name: Seq<u8>,
)
    requires
        splices_words(block, place, old_length, part),
        0 <= offset,
        target <= place,
        target <= end,
        target <= new_end,
        listed_to(block, offset, target) is Some,
        property_from(
            spliced(block, place, old_length, part),
            strings,
            target,
            new_end,
            name,
        ) == property_from(block, strings, target, end, name),
    ensures
        property_from(
            spliced(block, place, old_length, part),
            strings,
            offset,
            new_end,
            name,
        ) == property_from(block, strings, offset, end, name),
    decreases block.len() - offset,
{
    let after = spliced(block, place, old_length, part);
    if offset < target {
        steps_before(block, place, old_length, part, offset);
        steps_advance(block, offset);
        let tag = tag_at(block, offset)->0;
        if tag == FDT_PROP {
            let next = after_property(block, offset)->0;
            listed_is_ahead(block, next, target);
            property_through(
                block,
                place,
                old_length,
                part,
                strings,
                next,
                target,
                end,
                new_end,
                name,
            );
            let length = be32(block, offset + 4);
            assert(after.subrange(offset + 12, offset + 12 + length) =~= block.subrange(
                offset + 12,
                offset + 12 + length,
            ));
        } else if tag == FDT_NOP {
            listed_is_ahead(block, offset + 4, target);
            property_through(
                block,
                place,
                old_length,
                part,
                strings,
                offset + 4,
                target,
                end,
                new_end,
                name,
            );
        } else {
            let node = node_at(block, offset)->0;
            listed_is_ahead(block, node.end + 4, target);
            closing_is_ahead(block, offset, 0);
            assert(tag_at(after, offset) == Some(tag));
        }
    }
}

/// A node before a splice is the same, with its children and properties.
proof fn node_before(
    block: Seq<u8>,
    place: int,
    old_length: int,
    part: Seq<u8>,
    node: NodeSpan,
    strings: Seq<u8>,
)
    requires
        splices_words(block, place, old_length, part),
        0 <= node.begin,
        node.end + 4 <= place,
        node_at(block, node.begin) == Some(node),
    ensures
        ({
            let after = spliced(block, place, old_length, part);
            &&& node_at(after, node.begin) == Some(node)
            &&& children_of(after, node) == children_of(block, node)
            &&& same_contents(block, node, after, node, strings)
        }),
{
    let after = spliced(block, place, old_length, part);
    node_opens_inside(block, node.begin);
    let start = after_begin(block, node.begin)->0;
    steps_before(block, place, old_length, part, node.begin);
    closing_before(block, place, old_length, part, node.begin, 0);
    assert(closing_from(block, start, 1) == Some(node.end));
    listing_comes_to_end(block, start);
    listing_survives(block, place, old_length, part, start, node.end);
    listing_joins(block, start, node.end, node.end);
    listing_joins(after, start, node.end, node.end);
    assert forall|name: Seq<u8>|
        #![trigger property_of(after, strings, node, name)]
        property_of(after, strings, node, name) == property_of(block, strings, node, name) by {
        property_through(
            block,
            place,
            old_length,
            part,
            strings,
            start,
            node.end,
            node.end,
            node.end,
            name,
        );
    }
}

/// A child closes before its parent.
proof fn child_is_inside(block: Seq<u8>, parent: NodeSpan, index: int)
    requires
        node_at(block, parent.begin) == Some(parent),
        0 <= index < children_of(block, parent).len(),
    ensures
        ({
            let child = children_of(block, parent)[index];
            &&& node_at(block, child.begin) == Some(child)
            &&& parent.begin < child.begin
            &&& child.end + 4 <= parent.end
        }),
{
    node_opens_inside(block, parent.begin);
    let start = after_begin(block, parent.begin)->0;
    let child = children_of(block, parent)[index];
    listing_comes_to_node(block, start, parent.end, index);
    listing_reaches(block, start, child.begin, 1);
    node_opens_inside(block, child.begin);
    reaching_closes_alike(block, start, 1, child.begin, 1);
    assert(closing_from(block, start, 1) == Some(parent.end));
    let inside = after_begin(block, child.begin)->0;
    assert(closing_from(block, inside, 2) == Some(parent.end));
    child_closes(block, inside, 1, 1);
    assert(closing_from(block, inside, 1) == Some(child.end));
    closing_is_ahead(block, child.end + 4, 1);
}

/// A node below one that is before a splice is found by the same names, with its
/// children and properties.
proof fn subtree_before(
    block: Seq<u8>,
    place: int,
    old_length: int,
    part: Seq<u8>,
    top: NodeSpan,
    names: Seq<Seq<u8>>,
    node: NodeSpan,
    strings: Seq<u8>,
)
    requires
        splices_words(block, place, old_length, part),
        0 <= top.begin,
        top.end + 4 <= place,
        node_at(block, top.begin) == Some(top),
        descendant(block, top, names) == Some(node),
    ensures
        ({
            let after = spliced(block, place, old_length, part);
            &&& descendant(after, top, names) == Some(node)
            &&& same_contents(block, node, after, node, strings)
            &&& child_names(after, node) == child_names(block, node)
        }),
    decreases names.len(),
{
    node_before(block, place, old_length, part, top, strings);
    if names.len() > 0 {
        let child = child_named(block, top, names[0])->0;
        let index = child_index(block, top, names[0]);
        child_is_inside(block, top, index);
        subtree_before(
            block,
            place,
            old_length,
            part,
            child,
            names.drop_first(),
            node,
            strings,
        );
    }
}

/// A node that names lead to closes no later than the node that they lead from.
pub proof fn descendant_is_inside(block: Seq<u8>, top: NodeSpan, names: Seq<Seq<u8>>)
    requires
        node_at(block, top.begin) == Some(top),
    ensures
        descendant(block, top, names) matches Some(node) ==> node.end <= top.end,
    decreases names.len(),
{
    if names.len() > 0 && names[0].len() > 0 {
        if let Some(child) = child_named(block, top, names[0]) {
            let index = child_index(block, top, names[0]);
            child_is_inside(block, top, index);
            descendant_is_inside(block, child, names.drop_first());
        }
    }
}

/// The place of a child that is found by its name among the children.
proof fn child_index(block: Seq<u8>, parent: NodeSpan, name: Seq<u8>) -> (index: int)
    requires
        child_named(block, parent, name) is Some,
    ensures
        0 <= index < children_of(block, parent).len(),
        children_of(block, parent)[index] == child_named(block, parent, name)->0,
        children_of(block, parent)[index].name == name,
        forall|j: int| 0 <= j < index ==> (#[trigger] children_of(block, parent)[j]).name != name,
{
    let children = children_of(block, parent);
    let child = child_named(block, parent, name)->0;
    named_has_index(children, name, 0);
    choose|i: int|
        0 <= i < children.len() && children[i] == child && child.name == name && forall|j: int|
            0 <= j < i ==> (#[trigger] children[j]).name != name
}

/// Of two nodes of a list, the first closes before the second opens.
proof fn nodes_in_order(block: Seq<u8>, offset: int, end: int, first: int, second: int)
    requires
        0 <= first < second < nodes_from(block, offset, end).len(),
    ensures
        nodes_from(block, offset, end)[first].end + 4 <= nodes_from(
            block,
            offset,
            end,
        )[second].begin,
    decreases block.len() - offset,
{
    let nodes = nodes_from(block, offset, end);
    steps_advance(block, offset);
    let tag = tag_at(block, offset)->0;
    if tag == FDT_PROP {
        nodes_in_order(block, after_property(block, offset)->0, end, first, second);
    } else if tag == FDT_NOP {
        nodes_in_order(block, offset + 4, end, first, second);
    } else {
        let node = node_at(block, offset)->0;
        let rest = nodes_from(block, node.end + 4, end);
        assert(nodes[second] == rest[second - 1]);
        if first == 0 {
            listing_comes_to_node(block, node.end + 4, end, second - 1);
        } else {
            assert(nodes[first] == rest[first - 1]);
            nodes_in_order(block, node.end + 4, end, first - 1, second - 1);
        }
    }
}

/// The nodes that are passed on the way to a place close before it.
proof fn passed_nodes_close(block: Seq<u8>, offset: int, target: int, index: int)
    requires
        listed_to(block, offset, target) is Some,
        0 <= index < listed_to(block, offset, target)->0.len(),
    ensures
        listed_to(block, offset, target)->0[index].end + 4 <= target,
    decreases block.len() - offset,
{
    let nodes = listed_to(block, offset, target)->0;
    steps_advance(block, offset);
    let tag = tag_at(block, offset)->0;
    if tag == FDT_PROP {
        passed_nodes_close(block, after_property(block, offset)->0, target, index);
    } else if tag == FDT_NOP {
        passed_nodes_close(block, offset + 4, target, index);
    } else {
        let node = node_at(block, offset)->0;
        let rest = listed_to(block, node.end + 4, target)->0;
        listed_is_ahead(block, node.end + 4, target);
        if index > 0 {
            assert(nodes[index] == rest[index - 1]);
            passed_nodes_close(block, node.end + 4, target, index - 1);
        }
    }
}

/// The children of a node around a splice: those before it, the one around it, which
/// has grown, and those behind it, which have moved. The properties of the node are
/// the same.
#[verifier::spinoff_prover]
#[verifier::rlimit(60)]
proof fn children_around(
    block: Seq<u8>,
    place: int,
    old_length: int,
    part: Seq<u8>,
    parent: NodeSpan,
    index: int,
    depth: nat,
    strings: Seq<u8>,
)
    requires
        splices_words(block, place, old_length, part),
        transparent(block, place, old_length, part),
        0 <= parent.begin,
        node_at(block, parent.begin) == Some(parent),
        0 <= index < children_of(block, parent).len(),
        children_of(block, parent)[index].begin < place,
        reaches(block, children_of(block, parent)[index].begin, 0, place, depth),
    ensures
        ({
            let after = spliced(block, place, old_length, part);
            let growth = part.len() - old_length;
            let children = children_of(block, parent);
            let child = children[index];
            &&& node_at(after, parent.begin) == Some(stretched(parent, growth))
            &&& children_of(after, stretched(parent, growth)) == children.take(index) + seq![
                stretched(child, growth),
            ] + all_moved(children.skip(index + 1), growth)
            &&& same_contents(block, parent, after, stretched(parent, growth), strings)
            &&& child_names(after, stretched(parent, growth)) == child_names(block, parent)
            &&& place + old_length <= child.end
        }),
{
    let after = spliced(block, place, old_length, part);
    let growth = part.len() - old_length;
    let children = children_of(block, parent);
    let child = children[index];
    child_is_inside(block, parent, index);
    node_opens_inside(block, parent.begin);
    let start = after_begin(block, parent.begin)->0;
    listing_comes_to_node(block, start, parent.end, index);
    listing_reaches(block, start, child.begin, 1);
    reaching_lifts(block, child.begin, 0, place, depth, 1);
    reaching_joins(block, start, 1, child.begin, 1, place, depth + 1);
    assert(reaches(block, parent.begin, 0, place, depth + 1));
    node_survives(block, place, old_length, part, parent, depth + 1);
    node_survives(block, place, old_length, part, child, depth);
    let grown_parent = stretched(parent, growth);
    let grown_child = stretched(child, growth);
    listing_survives(block, place, old_length, part, start, child.begin);
    listing_joins(after, start, child.begin, grown_parent.end);
    listing_joins(block, start, child.begin, parent.end);
    closing_is_ahead(after, child.begin, 0);
    closing_is_ahead(block, child.begin, 0);
    node_opens_inside(block, child.begin);
    node_opens_inside(after, child.begin);
    let rest = nodes_from(block, child.end + 4, parent.end);
    let grown_rest = nodes_from(after, grown_child.end + 4, grown_parent.end);
    assert(nodes_from(block, child.begin, parent.end) == seq![child] + rest);
    assert(nodes_from(after, child.begin, grown_parent.end) == seq![grown_child] + grown_rest);
    nodes_behind(block, place, old_length, part, child.end + 4, parent.end);
    assert(children.skip(index + 1) =~= rest);
    let grown = children_of(after, grown_parent);
    assert(grown =~= children.take(index) + seq![grown_child] + all_moved(
        children.skip(index + 1),
        growth,
    ));
    assert(names_of(grown) =~= names_of(children));
    assert forall|name: Seq<u8>|
        #![trigger property_of(after, strings, grown_parent, name)]
        property_of(after, strings, grown_parent, name) == property_of(
            block,
            strings,
            parent,
            name,
        ) by {
        property_through(
            block,
            place,
            old_length,
            part,
            strings,
            start,
            child.begin,
            parent.end,
            grown_parent.end,
            name,
        );
    }
}

/// What a node is after a splice at a place in `target`, by which `extra` nodes come
/// into `target`: it has its name and its children, and unless it is `target` itself
/// its properties.
spec fn kept(
    block: Seq<u8>,
    node: NodeSpan,
    after: Seq<u8>,
    found: NodeSpan,
    strings: Seq<u8>,
    is_target: bool,
    extra: Seq<NodeSpan>,
) -> bool {
    &&& found.name == node.name
    &&& is_target || same_contents(block, node, after, found, strings)
    &&& child_names(after, found) == if is_target {
        child_names(block, node) + names_of(extra)
    } else {
        child_names(block, node)
    }
}

/// Whether what is at the place of a splice in `target` are its children behind the
/// replaced bytes, and after the splice `extra` nodes and then these.
#[verifier::opaque]
pub open spec fn adds_nodes(
    block: Seq<u8>,
    place: int,
    old_length: int,
    part: Seq<u8>,
    target: NodeSpan,
    extra: Seq<NodeSpan>,
) -> bool {
    let after = spliced(block, place, old_length, part);
    let growth = part.len() - old_length;
    let rest = nodes_from(block, place + old_length, target.end);
    &&& target.begin < place <= target.end
    &&& after_begin(block, target.begin) matches Some(start) && listed_to(block, start, place)
        is Some
    &&& nodes_from(block, place, target.end) == rest
    &&& nodes_from(after, place, target.end + growth) == extra + nodes_from(
        after,
        place + part.len(),
        target.end + growth,
    )
    &&& extra.len() == 0 || rest.len() == 0
}

/// The children of the node in which a splice is.
#[verifier::spinoff_prover]
#[verifier::rlimit(60)]
proof fn target_children(
    block: Seq<u8>,
    place: int,
    old_length: int,
    part: Seq<u8>,
    target: NodeSpan,
    extra: Seq<NodeSpan>,
)
    requires
        splices_words(block, place, old_length, part),
        transparent(block, place, old_length, part),
        0 <= target.begin,
        node_at(block, target.begin) == Some(target),
        adds_nodes(block, place, old_length, part, target, extra),
    ensures
        ({
            let after = spliced(block, place, old_length, part);
            let growth = part.len() - old_length;
            let start = after_begin(block, target.begin)->0;
            let first = listed_to(block, start, place)->0;
            let rest = nodes_from(block, place + old_length, target.end);
            &&& children_of(block, target) == first + rest
            &&& children_of(after, stretched(target, growth)) == first + extra + all_moved(
                rest,
                growth,
            )
            &&& child_names(after, stretched(target, growth)) == child_names(block, target)
                + names_of(extra)
            &&& node_at(after, target.begin) == Some(stretched(target, growth))
            &&& reaches(block, target.begin, 0, place, 1)
            &&& target.begin < place
        }),
{
    reveal(adds_nodes);
    let after = spliced(block, place, old_length, part);
    let growth = part.len() - old_length;
    node_opens_inside(block, target.begin);
    let start = after_begin(block, target.begin)->0;
    let first = listed_to(block, start, place)->0;
    let rest = nodes_from(block, place + old_length, target.end);
    listed_is_ahead(block, start, place);
    listing_reaches(block, start, place, 1);
    assert(reaches(block, target.begin, 0, place, 1));
    node_survives(block, place, old_length, part, target, 1);
    listing_joins(block, start, place, target.end);
    listing_survives(block, place, old_length, part, start, place);
    listing_joins(after, start, place, target.end + growth);
    nodes_behind(block, place, old_length, part, place + old_length, target.end);
    let grown = children_of(after, stretched(target, growth));
    assert(grown =~= first + extra + all_moved(rest, growth));
    assert(names_of(grown) =~= child_names(block, target) + names_of(extra));
}

/// After a splice in `target`, each node is found by the names that led to it before,
/// and is as it was.
#[verifier::spinoff_prover]
#[verifier::rlimit(60)]
proof fn splice_keeps_nodes(
    block: Seq<u8>,
    place: int,
    old_length: int,
    part: Seq<u8>,
    target: NodeSpan,
    extra: Seq<NodeSpan>,
    top: NodeSpan,
    way: Seq<Seq<u8>>,
    names: Seq<Seq<u8>>,
    node: NodeSpan,
    strings: Seq<u8>,
)
    requires
        splices_words(block, place, old_length, part),
        transparent(block, place, old_length, part),
        adds_nodes(block, place, old_length, part, target, extra),
        0 <= top.begin,
        node_at(block, top.begin) == Some(top),
        descendant(block, top, way) == Some(target),
        descendant(block, top, names) == Some(node),
    ensures
        ({
            let after = spliced(block, place, old_length, part);
            let growth = part.len() - old_length;
            descendant(after, stretched(top, growth), names) matches Some(found) && (names == way
                ==> found == stretched(target, growth)) && kept(
                block,
                node,
                after,
                found,
                strings,
                names == way,
                extra,
            )
        }),
    decreases way.len(), 1int,
{
    let after = spliced(block, place, old_length, part);
    let growth = part.len() - old_length;
    if way.len() == 0 {
        reveal(adds_nodes);
        target_children(block, place, old_length, part, target, extra);
        if names.len() == 0 {
            assert(names =~= way);
        } else {
            let start = after_begin(block, target.begin)->0;
            let first = listed_to(block, start, place)->0;
            let rest = nodes_from(block, place + old_length, target.end);
            let children = children_of(block, target);
            let grown = children_of(after, stretched(target, growth));
            let child = child_named(block, target, names[0])->0;
            let index = child_index(block, target, names[0]);
            child_is_inside(block, target, index);
            if index < first.len() {
                assert(first[index] == child);
                passed_nodes_close(block, start, place, index);
                assert forall|j: int| 0 <= j < index implies (#[trigger] grown[j]).name
                    != names[0] by {
                    assert(grown[j] == children[j]);
                }
                assert(grown[index] == child);
                first_named(grown, names[0], 0, index);
                subtree_before(
                    block,
                    place,
                    old_length,
                    part,
                    child,
                    names.drop_first(),
                    node,
                    strings,
                );
            } else {
                let behind = index - first.len();
                assert(rest[behind] == child);
                assert(extra.len() == 0);
                assert forall|j: int| 0 <= j < index implies (#[trigger] grown[j]).name
                    != names[0] by {
                    assert(grown[j].name == children[j].name);
                }
                assert(grown[index] == moved(child, growth));
                first_named(grown, names[0], 0, index);
                listing_comes_to_node(block, place + old_length, target.end, behind);
                subtree_behind(
                    block,
                    place,
                    old_length,
                    part,
                    child,
                    names.drop_first(),
                    node,
                    strings,
                );
            }
        }
    } else {
        splice_keeps_others(
            block,
            place,
            old_length,
            part,
            target,
            extra,
            top,
            way,
            names,
            node,
            strings,
        );
    }
}

#[verifier::spinoff_prover]
#[verifier::rlimit(60)]
proof fn splice_keeps_others(
    block: Seq<u8>,
    place: int,
    old_length: int,
    part: Seq<u8>,
    target: NodeSpan,
    extra: Seq<NodeSpan>,
    top: NodeSpan,
    way: Seq<Seq<u8>>,
    names: Seq<Seq<u8>>,
    node: NodeSpan,
    strings: Seq<u8>,
)
    requires
        way.len() > 0,
        splices_words(block, place, old_length, part),
        transparent(block, place, old_length, part),
        adds_nodes(block, place, old_length, part, target, extra),
        0 <= top.begin,
        node_at(block, top.begin) == Some(top),
        descendant(block, top, way) == Some(target),
        descendant(block, top, names) == Some(node),
    ensures
        ({
            let after = spliced(block, place, old_length, part);
            let growth = part.len() - old_length;
            descendant(after, stretched(top, growth), names) matches Some(found) && (names == way
                ==> found == stretched(target, growth)) && kept(
                block,
                node,
                after,
                found,
                strings,
                names == way,
                extra,
            )
        }),
    decreases way.len(), 0int,
{
    let after = spliced(block, place, old_length, part);
    let growth = part.len() - old_length;
    let children = children_of(block, top);
    let inner = child_named(block, top, way[0])->0;
    let index = child_index(block, top, way[0]);
    child_is_inside(block, top, index);
    found_node_is_there(block, inner, way.drop_first());
    target_children(block, place, old_length, part, target, extra);
    root_reaches(block, inner, way.drop_first(), target, place, 1);
    let depth = (1 + way.drop_first().len()) as nat;
    children_around(block, place, old_length, part, top, index, depth, strings);
    let grown = children_of(after, stretched(top, growth));
    if names.len() > 0 {
        let child = child_named(block, top, names[0])->0;
        let at = child_index(block, top, names[0]);
        child_is_inside(block, top, at);
        node_opens_inside(block, top.begin);
        let start = after_begin(block, top.begin)->0;
        assert forall|j: int| 0 <= j < at implies (#[trigger] grown[j]).name != names[0] by {
            assert(grown[j].name == children[j].name);
        }
        assert(grown[at].name == children[at].name);
        first_named(grown, names[0], 0, at);
        if names[0] == way[0] {
            assert(at == index);
            splice_keeps_nodes(
                block,
                place,
                old_length,
                part,
                target,
                extra,
                inner,
                way.drop_first(),
                names.drop_first(),
                node,
                strings,
            );
            if names.drop_first() == way.drop_first() {
                assert(names =~= seq![names[0]] + names.drop_first());
                assert(way =~= seq![way[0]] + way.drop_first());
            }
        } else if at < index {
            nodes_in_order(block, start, top.end, at, index);
            assert(grown[at] == child);
            subtree_before(
                block,
                place,
                old_length,
                part,
                child,
                names.drop_first(),
                node,
                strings,
            );
        } else {
            nodes_in_order(block, start, top.end, index, at);
            assert(grown[at] == moved(child, growth));
            subtree_behind(
                block,
                place,
                old_length,
                part,
                child,
                names.drop_first(),
                node,
                strings,
            );
        }
    }
}

/// The node that is inserted at the end of `parent`.
pub open spec fn added_node(parent: NodeSpan, name: Seq<u8>) -> NodeSpan {
    NodeSpan { name, begin: parent.end, end: parent.end + node_record(name).len() - 4 }
}

/// Inserting a node at the end of `parent` is a splice in it that adds this node, which
/// has no properties and no children.
#[verifier::spinoff_prover]
#[verifier::rlimit(60)]
proof fn insertion_adds_node(
    structure: Seq<u8>,
    root: NodeSpan,
    way: Seq<Seq<u8>>,
    parent: NodeSpan,
    name: Seq<u8>,
    strings: Seq<u8>,
)
    requires
        node_at(structure, 0) == Some(root),
        descendant(structure, root, way) == Some(parent),
        valid_utf8(name),
        forall|i: int| 0 <= i < name.len() ==> name[i] != 0,
    ensures
        ({
            let part = node_record(name);
            let after = spliced(structure, parent.end, 0, part);
            let added = added_node(parent, name);
            let grown = stretched(parent, part.len() as int);
            &&& splices_words(structure, parent.end, 0, part)
            &&& transparent(structure, parent.end, 0, part)
            &&& adds_nodes(structure, parent.end, 0, part, parent, seq![added])
            &&& same_contents(structure, parent, after, grown, strings)
            &&& child_names(after, added) == Seq::<Seq<u8>>::empty()
            &&& forall|other: Seq<u8>| #[trigger] property_of(after, strings, added, other) is None
        }),
{
    let part = node_record(name);
    let growth = part.len() as int;
    let place = parent.end;
    let after = spliced(structure, place, 0, part);
    let added = added_node(parent, name);
    let grown = stretched(parent, growth);
    found_node_is_there(structure, root, way);
    node_opens_inside(structure, parent.begin);
    let start = after_begin(structure, parent.begin)->0;
    assert(closing_from(structure, start, 1) == Some(place));
    listing_comes_to_end(structure, start);
    listing_reaches(structure, start, place, 1);
    assert(reaches(structure, parent.begin, 0, place, 1));
    root_reaches(structure, root, way, parent, place, 1);
    reached_is_aligned(structure, 0, 0, place, (1 + way.len()) as nat);
    node_record_reads_back(structure, place, name);
    node_splice_is_transparent(structure, place, name);
    assert(nodes_from(after, place, place + growth) == seq![added] + nodes_from(
        after,
        place + growth,
        place + growth,
    ));
    assert(adds_nodes(structure, place, 0, part, parent, seq![added])) by {
        reveal(adds_nodes);
        assert(seq![added] + Seq::<NodeSpan>::empty() =~= seq![added]);
    }
    assert(child_names(after, added) =~= Seq::empty());
    node_survives(structure, place, 0, part, parent, 1);
    assert forall|other: Seq<u8>|
        #![trigger property_of(after, strings, grown, other)]
        property_of(after, strings, grown, other) == property_of(
            structure,
            strings,
            parent,
            other,
        ) by {
        property_through(
            structure,
            place,
            0,
            part,
            strings,
            start,
            place,
            place,
            grown.end,
            other,
        );
    }
}

/// Whether a node is found after a node was inserted at the end of the node that `way`
/// leads to, as it was but for the new child of that node.
pub open spec fn found_with_child(
    structure: Seq<u8>,
    root: NodeSpan,
    after: Seq<u8>,
    top: NodeSpan,
    strings: Seq<u8>,
    way: Seq<Seq<u8>>,
    name: Seq<u8>,
    names: Seq<Seq<u8>>,
) -> bool {
    descendant(structure, root, names) matches Some(node) ==> (descendant(after, top, names)
        matches Some(found) && same_contents(structure, node, after, found, strings)
        && child_names(after, found) == if names == way {
        child_names(structure, node).push(name)
    } else {
        child_names(structure, node)
    })
}

/// A node is found after a node was inserted.
proof fn insertion_keeps_node(
    structure: Seq<u8>,
    root: NodeSpan,
    way: Seq<Seq<u8>>,
    parent: NodeSpan,
    name: Seq<u8>,
    strings: Seq<u8>,
    names: Seq<Seq<u8>>,
)
    requires
        node_at(structure, 0) == Some(root),
        descendant(structure, root, way) == Some(parent),
        valid_utf8(name),
        forall|i: int| 0 <= i < name.len() ==> name[i] != 0,
    ensures
        found_with_child(
            structure,
            root,
            spliced(structure, parent.end, 0, node_record(name)),
            stretched(root, node_record(name).len() as int),
            strings,
            way,
            name,
            names,
        ),
{
    if let Some(node) = descendant(structure, root, names) {
        let extra = seq![added_node(parent, name)];
        insertion_adds_node(structure, root, way, parent, name, strings);
        splice_keeps_nodes(
            structure,
            parent.end,
            0,
            node_record(name),
            parent,
            extra,
            root,
            way,
            names,
            node,
            strings,
        );
        assert(child_names(structure, node) + names_of(extra) =~= child_names(
            structure,
            node,
        ).push(name));
    }
}

/// After a node was inserted at the end of `parent`, the new node has no properties and
/// no children. Each other node is found by the names that led to it before, with its
/// properties and its children; `parent` has the new node as its last child.
pub proof fn insertion_keeps_tree(
    structure: Seq<u8>,
    root: NodeSpan,
    way: Seq<Seq<u8>>,
    parent: NodeSpan,
    name: Seq<u8>,
    strings: Seq<u8>,
)
    requires
        node_at(structure, 0) == Some(root),
        descendant(structure, root, way) == Some(parent),
        valid_utf8(name),
        forall|i: int| 0 <= i < name.len() ==> name[i] != 0,
    ensures
        ({
            let part = node_record(name);
            let after = spliced(structure, parent.end, 0, part);
            let top = stretched(root, part.len() as int);
            let added = added_node(parent, name);
            &&& child_names(after, added) == Seq::<Seq<u8>>::empty()
            &&& forall|other: Seq<u8>| #[trigger] property_of(after, strings, added, other) is None
            &&& forall|names: Seq<Seq<u8>>|
                #![trigger descendant(after, top, names)]
                found_with_child(structure, root, after, top, strings, way, name, names)
        }),
{
    let part = node_record(name);
    let after = spliced(structure, parent.end, 0, part);
    let top = stretched(root, part.len() as int);
    insertion_adds_node(structure, root, way, parent, name, strings);
    assert forall|names: Seq<Seq<u8>>|
        #![trigger descendant(after, top, names)]
        found_with_child(structure, root, after, top, strings, way, name, names) by {
        insertion_keeps_node(structure, root, way, parent, name, strings, names);
    }
}

/// Writing a property of `target` is a splice in it that adds no nodes.
#[verifier::spinoff_prover]
#[verifier::rlimit(60)]
proof fn writing_adds_nothing(
    structure: Seq<u8>,
    strings: Seq<u8>,
    root: NodeSpan,
    way: Seq<Seq<u8>>,
    target: NodeSpan,
    name: Seq<u8>,
    name_offset: u32,
    value: Seq<u8>,
    place: int,
    old_length: int,
)
    requires
        node_at(structure, 0) == Some(root),
        descendant(structure, root, way) == Some(target),
        value.len() <= u32::MAX,
        writing_place(structure, strings, target, name) == Ok::<(int, int), EditError>(
            (place, old_length),
        ),
    ensures
        ({
            let part = property_record(name_offset, value);
            &&& splices_words(structure, place, old_length, part)
            &&& transparent(structure, place, old_length, part)
            &&& adds_nodes(structure, place, old_length, part, target, Seq::empty())
        }),
{
    let part = property_record(name_offset, value);
    let growth = part.len() - old_length;
    let after = spliced(structure, place, old_length, part);
    writing_place_is_inside(
        structure,
        strings,
        root,
        way,
        target,
        name,
        place,
        old_length,
    );
    let start = after_begin(structure, target.begin)->0;
    passing_lists_nothing(structure, strings, start, place, name);
    property_record_reads_back(structure, place, old_length, name_offset, value);
    property_splice_is_transparent(structure, place, old_length, name_offset, value);
    steps_advance(after, place);
    let extra = Seq::<NodeSpan>::empty();
    reveal(adds_nodes);
    let there = nodes_from(after, place + part.len(), target.end + growth);
    assert(nodes_from(after, place, target.end + growth) == there);
    assert(extra + there =~= there);
}

/// Whether a node is found after a splice in the node that `way` leads to, as it was but
/// for the properties of that node.
pub open spec fn found_as_before(
    block: Seq<u8>,
    root: NodeSpan,
    after: Seq<u8>,
    top: NodeSpan,
    strings: Seq<u8>,
    way: Seq<Seq<u8>>,
    names: Seq<Seq<u8>>,
) -> bool {
    descendant(block, root, names) matches Some(node) ==> (descendant(after, top, names) matches Some(
        found,
    ) && found.name == node.name && (names != way ==> same_contents(
        block,
        node,
        after,
        found,
        strings,
    )) && child_names(after, found) == child_names(block, node))
}

/// A node is found after a splice that adds no nodes.
proof fn empty_splice_keeps_node(
    block: Seq<u8>,
    place: int,
    old_length: int,
    part: Seq<u8>,
    target: NodeSpan,
    root: NodeSpan,
    way: Seq<Seq<u8>>,
    names: Seq<Seq<u8>>,
    strings: Seq<u8>,
)
    requires
        splices_words(block, place, old_length, part),
        transparent(block, place, old_length, part),
        adds_nodes(block, place, old_length, part, target, Seq::empty()),
        0 <= root.begin,
        node_at(block, root.begin) == Some(root),
        descendant(block, root, way) == Some(target),
    ensures
        found_as_before(
            block,
            root,
            spliced(block, place, old_length, part),
            stretched(root, part.len() - old_length),
            strings,
            way,
            names,
        ),
{
    if let Some(node) = descendant(block, root, names) {
        let extra = Seq::<NodeSpan>::empty();
        splice_keeps_nodes(
            block,
            place,
            old_length,
            part,
            target,
            extra,
            root,
            way,
            names,
            node,
            strings,
        );
        assert(child_names(block, node) + names_of(extra) =~= child_names(block, node));
    }
}

/// After a property of `target` was written, each other node is found by the names that
/// led to it before, with its properties. All nodes have the children that they had.
pub proof fn writing_keeps_tree(
    structure: Seq<u8>,
    strings: Seq<u8>,
    root: NodeSpan,
    way: Seq<Seq<u8>>,
    target: NodeSpan,
    name: Seq<u8>,
    name_offset: u32,
    value: Seq<u8>,
    place: int,
    old_length: int,
)
    requires
        node_at(structure, 0) == Some(root),
        descendant(structure, root, way) == Some(target),
        value.len() <= u32::MAX,
        writing_place(structure, strings, target, name) == Ok::<(int, int), EditError>(
            (place, old_length),
        ),
    ensures
        ({
            let part = property_record(name_offset, value);
            let top = stretched(root, part.len() - old_length);
            let after = spliced(structure, place, old_length, part);
            forall|names: Seq<Seq<u8>>|
                #![trigger descendant(after, top, names)]
                found_as_before(structure, root, after, top, strings, way, names)
        }),
{
    let part = property_record(name_offset, value);
    let top = stretched(root, part.len() - old_length);
    let after = spliced(structure, place, old_length, part);
    writing_adds_nothing(
        structure,
        strings,
        root,
        way,
        target,
        name,
        name_offset,
        value,
        place,
        old_length,
    );
    assert forall|names: Seq<Seq<u8>>|
        #![trigger descendant(after, top, names)]
        found_as_before(structure, root, after, top, strings, way, names) by {
        empty_splice_keeps_node(
            structure,
            place,
            old_length,
            part,
            target,
            root,
            way,
            names,
            strings,
        );
    }
}

} // verus!
