//! A walk by offsets from the start of a blob and a walk inside of the structure block
//! find the same nodes and properties in a proper device tree.

use vstd::prelude::*;
use crate::bytes::{
    aligned4, be32, be32_depends_on_four_bytes, be32_round_trip, c_string, zero_from,
    zero_from_is_first,
};
use crate::dtb_change::{
    blocks_apart, enlarged, enlarged_tree_is_whole, node_inserted, nodes_created, place_of,
    plain_name, property_set, whole_tree,
};
use crate::dtb_edit::{
    appending_reads_back, replacement_reads_back, sound_header_survives, string_ensured,
    strings_come_last, strings_within, structure_replaced, EditError,
};
use crate::dtb_read::{strings_of, structure_of};
use crate::dtb_walk::{
    behind_property, child_from, child_inserted, child_place, closing_at, insertion_from, name_from,
    place_walked, property_written, record_from, root_place, structure_limit, way_created, word_at,
};
use crate::fdt_frame::descendant_is_inside;
use crate::fdt_nodes::{
    after_begin, after_property, child_named, closing_from, closing_is_ahead, descendant,
    named_from, node_at, node_name, nodes_from, steps_advance, NodeSpan,
};
use crate::fdt_records::{
    child_is_there, found_node_is_there, inserted_node_is_found, insertion_place,
    last_name_leads_on, node_record, property_place, writing_place,
};
use crate::fdt_splice::{child_closes, node_opens_inside, spliced};
use crate::fdt_tokens::{FDT_BEGIN_NODE, FDT_END_NODE, FDT_NOP, FDT_PROP};

verus! {

/// Whether the strings block of a whole tree comes last, and the structure block starts on
/// a word.
pub open spec fn blocks_aligned(blob: Seq<u8>) -> bool {
    &&& whole_tree(blob)
    &&& strings_come_last(blob)
    &&& be32(blob, 8) % 4 == 0
}

/// Whether a blob is a proper device tree: the structure block starts on a word and holds a
/// root node that closes, behind which the strings block comes.
pub open spec fn proper_tree(blob: Seq<u8>) -> bool {
    blocks_aligned(blob) && blocks_apart(blob) && node_at(structure_of(blob), 0) is Some
}

/// The place of a node, counted from the start of the blob.
pub open spec fn place_in(blob: Seq<u8>, node: NodeSpan) -> (int, int) {
    (be32(blob, 8) + node.begin, be32(blob, 8) + node.end)
}

/// The place of a node that was looked for, counted from the start of the blob.
pub open spec fn found_in(blob: Seq<u8>, node: Option<NodeSpan>) -> Option<(int, int)> {
    match node {
        Some(found) => Some(place_in(blob, found)),
        None => None,
    }
}

/// A terminator is found at the same byte of a block and of what the block is part of.
proof fn zero_in_block(bytes: Seq<u8>, start: int, end: int, from: int)
    requires
        0 <= start <= end <= bytes.len(),
        0 <= from,
    ensures
        zero_from(bytes.take(end), start + from) == match zero_from(
            bytes.subrange(start, end),
            from,
        ) {
            Some(at) => Some(start + at),
            None => None,
        },
    decreases end - start - from,
{
    let block = bytes.subrange(start, end);
    if from < block.len() {
        assert(block[from] == bytes.take(end)[start + from]);
        zero_in_block(bytes, start, end, from + 1);
    }
}

/// Words of the structure block are read alike.
proof fn word_alike(blob: Seq<u8>, offset: int)
    requires
        blocks_aligned(blob),
        0 <= offset,
        offset + 4 <= structure_of(blob).len(),
    ensures
        word_at(blob, blob.len() as int, be32(blob, 8) + offset) == Ok::<u32, EditError>(
            be32(structure_of(blob), offset),
        ),
{
    let structure = structure_of(blob);
    let start = be32(blob, 8) as int;
    assert forall|i: int| 0 <= i < 4 implies blob[start + offset + i] == #[trigger] structure[offset
        + i] by {}
    be32_depends_on_four_bytes(blob, start + offset, structure, offset);
}

/// The opening of a node that does not end the structure block is read alike.
proof fn name_alike(blob: Seq<u8>, offset: int)
    requires
        blocks_aligned(blob),
        after_begin(structure_of(blob), offset) matches Some(next) && next < structure_of(
            blob,
        ).len(),
    ensures
        ({
            let structure = structure_of(blob);
            let next = after_begin(structure, offset)->0;
            &&& name_from(blob, blob.len() as int, be32(blob, 8) + offset) == Ok::<
                (Seq<u8>, int),
                EditError,
            >((node_name(structure, offset)->0, be32(blob, 8) + next))
            &&& offset < next
            &&& next % 4 == 0
        }),
{
    let structure = structure_of(blob);
    let start = be32(blob, 8) as int;
    let end = start + structure.len();
    steps_advance(structure, offset);
    word_alike(blob, offset);
    assert(structure_limit(blob, blob.len() as int) == end);
    zero_in_block(blob, start, end, offset + 4);
    zero_from_is_first(structure, offset + 4);
    let stop = zero_from(structure, offset + 4)->0;
    assert(blob.take(end).subrange(start + offset + 4, start + stop) =~= structure.subrange(
        offset + 4,
        stop,
    ));
    assert(c_string(blob.take(end), start + offset + 4) == c_string(structure, offset + 4));
}

/// A property that does not end the structure block is passed alike.
proof fn property_alike(blob: Seq<u8>, offset: int)
    requires
        blocks_aligned(blob),
        after_property(structure_of(blob), offset) matches Some(next) && next < structure_of(
            blob,
        ).len(),
    ensures
        ({
            let structure = structure_of(blob);
            let next = after_property(structure, offset)->0;
            &&& behind_property(blob, blob.len() as int, be32(blob, 8) + offset) == Ok::<
                int,
                EditError,
            >(be32(blob, 8) + next)
            &&& offset < next
            &&& next % 4 == 0
            &&& next == aligned4(offset + 12 + be32(structure, offset + 4))
        }),
{
    let structure = structure_of(blob);
    steps_advance(structure, offset);
    word_alike(blob, offset + 4);
    assert(be32(blob, 8) + (offset + 4) == (be32(blob, 8) + offset) + 4);
}

/// Where reading goes on after a token of a node that closes.
proof fn step_stays_inside(structure: Seq<u8>, offset: int, depth: nat)
    requires
        closing_from(structure, offset, depth) is Some,
    ensures
        0 <= offset,
        offset + 4 <= structure.len(),
        be32(structure, offset) == FDT_BEGIN_NODE ==> (after_begin(structure, offset) matches Some(
            next,
        ) && next < structure.len() && closing_from(structure, next, depth + 1) == closing_from(
            structure,
            offset,
            depth,
        )),
        be32(structure, offset) == FDT_PROP ==> (after_property(structure, offset) matches Some(
            next,
        ) && next < structure.len() && closing_from(structure, next, depth) == closing_from(
            structure,
            offset,
            depth,
        )),
        be32(structure, offset) == FDT_BEGIN_NODE || be32(structure, offset) == FDT_END_NODE
            || be32(structure, offset) == FDT_PROP || be32(structure, offset) == FDT_NOP,
{
    steps_advance(structure, offset);
    if be32(structure, offset) == FDT_BEGIN_NODE {
        closing_is_ahead(structure, after_begin(structure, offset)->0, depth + 1);
    } else if be32(structure, offset) == FDT_PROP {
        closing_is_ahead(structure, after_property(structure, offset)->0, depth);
    }
}

/// Nodes close alike.
proof fn closing_alike(blob: Seq<u8>, offset: int, depth: nat)
    requires
        blocks_aligned(blob),
        closing_from(structure_of(blob), offset, depth) is Some,
    ensures
        closing_at(blob, blob.len() as int, be32(blob, 8) + offset, depth) == Ok::<int, EditError>(
            be32(blob, 8) + closing_from(structure_of(blob), offset, depth)->0,
        ),
    decreases structure_of(blob).len() - offset,
{
    let structure = structure_of(blob);
    let start = be32(blob, 8) as int;
    step_stays_inside(structure, offset, depth);
    word_alike(blob, offset);
    let tag = be32(structure, offset);
    if tag == FDT_BEGIN_NODE {
        name_alike(blob, offset);
        closing_alike(blob, after_begin(structure, offset)->0, depth + 1);
    } else if tag == FDT_END_NODE {
        if depth > 1 {
            closing_alike(blob, offset + 4, (depth - 1) as nat);
            assert(start + (offset + 4) == (start + offset) + 4);
        }
    } else if tag == FDT_PROP {
        property_alike(blob, offset);
        closing_alike(blob, after_property(structure, offset)->0, depth);
    } else {
        closing_alike(blob, offset + 4, depth);
        assert(start + (offset + 4) == (start + offset) + 4);
    }
}

/// Looking for a child passes over what is inside of another one.
proof fn search_leaves_node(blob: Seq<u8>, offset: int, depth: nat, end: int, name: Seq<u8>)
    requires
        blocks_aligned(blob),
        depth >= 1,
        closing_from(structure_of(blob), offset, depth) matches Some(close) && close < end,
    ensures
        ({
            let close = closing_from(structure_of(blob), offset, depth)->0;
            let start = be32(blob, 8);
            child_from(blob, blob.len() as int, start + offset, start + end, depth, name)
                == child_from(blob, blob.len() as int, start + close + 4, start + end, 0, name)
        }),
    decreases structure_of(blob).len() - offset,
{
    let structure = structure_of(blob);
    let start = be32(blob, 8) as int;
    closing_is_ahead(structure, offset, depth);
    step_stays_inside(structure, offset, depth);
    word_alike(blob, offset);
    let tag = be32(structure, offset);
    assert(start + (offset + 4) == (start + offset) + 4);
    if tag == FDT_BEGIN_NODE {
        name_alike(blob, offset);
        search_leaves_node(blob, after_begin(structure, offset)->0, depth + 1, end, name);
    } else if tag == FDT_END_NODE {
        if depth > 1 {
            search_leaves_node(blob, offset + 4, (depth - 1) as nat, end, name);
        }
    } else if tag == FDT_PROP {
        property_alike(blob, offset);
        search_leaves_node(blob, after_property(structure, offset)->0, depth, end, name);
    } else {
        search_leaves_node(blob, offset + 4, depth, end, name);
    }
}

/// The first of a list and what is behind it.
proof fn named_behind(nodes: Seq<NodeSpan>, rest: Seq<NodeSpan>, name: Seq<u8>, from: int)
    requires
        nodes.len() == rest.len() + 1,
        0 <= from <= rest.len(),
        forall|i: int| 0 <= i < rest.len() ==> nodes[i + 1] == #[trigger] rest[i],
    ensures
        named_from(nodes, name, from + 1) == named_from(rest, name, from),
    decreases rest.len() - from,
{
    if from < rest.len() {
        assert(nodes[from + 1] == rest[from]);
        named_behind(nodes, rest, name, from + 1);
    }
}

/// Children are found alike.
proof fn children_alike(blob: Seq<u8>, offset: int, end: int, name: Seq<u8>)
    requires
        blocks_aligned(blob),
        closing_from(structure_of(blob), offset, 1) == Some(end),
    ensures
        child_from(
            blob,
            blob.len() as int,
            be32(blob, 8) + offset,
            be32(blob, 8) + end,
            0,
            name,
        ) == Ok::<Option<(int, int)>, EditError>(
            found_in(blob, named_from(nodes_from(structure_of(blob), offset, end), name, 0)),
        ),
    decreases structure_of(blob).len() - offset,
{
    let structure = structure_of(blob);
    let start = be32(blob, 8) as int;
    closing_is_ahead(structure, offset, 1);
    step_stays_inside(structure, offset, 1);
    word_alike(blob, offset);
    let tag = be32(structure, offset);
    assert(start + (offset + 4) == (start + offset) + 4);
    if tag == FDT_BEGIN_NODE {
        let next = after_begin(structure, offset)->0;
        name_alike(blob, offset);
        child_closes(structure, next, 1, 1);
        let close = closing_from(structure, next, 1)->0;
        assert(closing_from(structure, offset, 0) == Some(close));
        closing_is_ahead(structure, offset, 0);
        closing_is_ahead(structure, close + 4, 1);
        let node = node_at(structure, offset)->0;
        let rest = nodes_from(structure, close + 4, end);
        let nodes = nodes_from(structure, offset, end);
        assert(nodes == seq![node] + rest);
        if node.name == name {
            closing_alike(blob, offset, 0);
        } else {
            search_leaves_node(blob, next, 1, end, name);
            children_alike(blob, close + 4, end, name);
            named_behind(nodes, rest, name, 0);
        }
    } else if tag == FDT_END_NODE {
        assert(offset == end);
    } else if tag == FDT_PROP {
        property_alike(blob, offset);
        let next = after_property(structure, offset)->0;
        closing_is_ahead(structure, next, 1);
        children_alike(blob, next, end, name);
    } else {
        closing_is_ahead(structure, offset + 4, 1);
        children_alike(blob, offset + 4, end, name);
    }
}

/// A node of the block closes where reading from its inside says so.
proof fn node_inside(blob: Seq<u8>, node: NodeSpan)
    requires
        blocks_aligned(blob),
        node_at(structure_of(blob), node.begin) == Some(node),
    ensures
        after_begin(structure_of(blob), node.begin) matches Some(next) && closing_from(
            structure_of(blob),
            next,
            1,
        ) == Some(node.end) && name_from(
            blob,
            blob.len() as int,
            be32(blob, 8) + node.begin,
        ) == Ok::<(Seq<u8>, int), EditError>((node.name, be32(blob, 8) + next)) && next % 4 == 0,
{
    let structure = structure_of(blob);
    node_opens_inside(structure, node.begin);
    step_stays_inside(structure, node.begin, 0);
    name_alike(blob, node.begin);
}

/// A child of a node is found alike.
proof fn child_alike(blob: Seq<u8>, node: NodeSpan, name: Seq<u8>)
    requires
        blocks_aligned(blob),
        node_at(structure_of(blob), node.begin) == Some(node),
    ensures
        child_place(blob, blob.len() as int, place_in(blob, node), name) == Ok::<
            Option<(int, int)>,
            EditError,
        >(found_in(blob, child_named(structure_of(blob), node, name))),
{
    node_inside(blob, node);
    let next = after_begin(structure_of(blob), node.begin)->0;
    children_alike(blob, next, node.end, name);
}

/// The root node is found alike.
pub proof fn root_alike(blob: Seq<u8>)
    requires
        proper_tree(blob),
    ensures
        root_place(blob, blob.len() as int) == Ok::<(int, int), EditError>(
            place_in(blob, node_at(structure_of(blob), 0)->0),
        ),
{
    word_alike(blob, 0);
    closing_alike(blob, 0, 0);
}

/// The node that names lead to is found alike.
pub proof fn walk_alike(blob: Seq<u8>, node: NodeSpan, names: Seq<Seq<u8>>)
    requires
        blocks_aligned(blob),
        0 <= node.begin,
        node_at(structure_of(blob), node.begin) == Some(node),
    ensures
        match descendant(structure_of(blob), node, names) {
            Some(found) => place_walked(
                blob,
                blob.len() as int,
                place_in(blob, node),
                names,
            ) == Ok::<(int, int), EditError>(place_in(blob, found)),
            None => place_walked(blob, blob.len() as int, place_in(blob, node), names) is Err,
        },
    decreases names.len(),
{
    if names.len() > 0 && names[0].len() > 0 {
        child_alike(blob, node, names[0]);
        if let Some(child) = child_named(structure_of(blob), node, names[0]) {
            child_is_there(structure_of(blob), node, names[0]);
            walk_alike(blob, child, names.drop_first());
        }
    }
}

/// What a search inside of the structure block says, counted from the start of the blob.
pub open spec fn record_in(blob: Seq<u8>, found: Result<Option<(int, int)>, EditError>) -> Result<
    Option<(int, int)>,
    EditError,
> {
    match found {
        Ok(Some((place, length))) => Ok(Some((be32(blob, 8) + place, length))),
        Ok(None) => Ok(None),
        Err(error) => Err(error),
    }
}

/// Properties are found alike.
proof fn record_alike(blob: Seq<u8>, offset: int, end: int, name: Seq<u8>)
    requires
        blocks_aligned(blob),
        offset % 4 == 0,
        closing_from(structure_of(blob), offset, 1) == Some(end),
    ensures
        record_from(
            blob,
            blob.len() as int,
            be32(blob, 8) + offset,
            be32(blob, 8) + end,
            name,
        ) == record_in(
            blob,
            property_place(structure_of(blob), strings_of(blob), offset, end, name),
        ),
    decreases structure_of(blob).len() - offset,
{
    let structure = structure_of(blob);
    let strings = strings_of(blob);
    let start = be32(blob, 8) as int;
    closing_is_ahead(structure, offset, 1);
    step_stays_inside(structure, offset, 1);
    word_alike(blob, offset);
    assert(strings_within(blob, blob.len() as int) =~= strings);
    let tag = be32(structure, offset);
    assert(start + (offset + 4) == (start + offset) + 4);
    assert(start + (offset + 8) == (start + offset) + 8);
    if offset < end {
        if tag == FDT_PROP {
            property_alike(blob, offset);
            word_alike(blob, offset + 4);
            word_alike(blob, offset + 8);
            let next = after_property(structure, offset)->0;
            let length = be32(structure, offset + 4) as int;
            assert(next == offset + 12 + aligned4(length));
            assert(start + next == start + offset + 12 + aligned4(length));
            record_alike(blob, next, end, name);
        } else if tag == FDT_NOP {
            record_alike(blob, offset + 4, end, name);
        }
    }
}

/// The place for a new property is found alike.
proof fn insertion_alike(blob: Seq<u8>, offset: int, end: int)
    requires
        blocks_aligned(blob),
        closing_from(structure_of(blob), offset, 1) == Some(end),
    ensures
        insertion_from(
            blob,
            blob.len() as int,
            be32(blob, 8) + offset,
            be32(blob, 8) + end,
        ) == match insertion_place(structure_of(blob), offset, end) {
            Ok(place) => Ok::<int, EditError>(be32(blob, 8) + place),
            Err(error) => Err(error),
        },
    decreases structure_of(blob).len() - offset,
{
    let structure = structure_of(blob);
    let start = be32(blob, 8) as int;
    closing_is_ahead(structure, offset, 1);
    step_stays_inside(structure, offset, 1);
    word_alike(blob, offset);
    let tag = be32(structure, offset);
    assert(start + (offset + 4) == (start + offset) + 4);
    if offset < end {
        if tag == FDT_PROP {
            property_alike(blob, offset);
            insertion_alike(blob, after_property(structure, offset)->0, end);
        } else if tag == FDT_NOP {
            insertion_alike(blob, offset + 4, end);
        }
    }
}

/// A property is set alike.
pub proof fn setting_alike(blob: Seq<u8>, node: NodeSpan, name: Seq<u8>, value: Seq<u8>)
    requires
        blocks_aligned(blob),
        node_at(structure_of(blob), node.begin) == Some(node),
    ensures
        property_written(blob, blob.len() as int, place_in(blob, node), name, value)
            == property_set(blob, node.begin, node.end, name, value),
{
    let (named, offset) = string_ensured(blob, blob.len() as int, name);
    if named != blob {
        appending_reads_back(blob, name);
        sound_header_survives(blob, named);
    }
    let structure = structure_of(named);
    node_inside(named, node);
    let next = after_begin(structure, node.begin)->0;
    record_alike(named, next, node.end, name);
    insertion_alike(named, next, node.end);
    assert(writing_place(structure, strings_of(named), node, name) == writing_place(
        structure,
        strings_of(named),
        place_of(node.begin, node.end),
        name,
    ));
}

/// The token that closes a new node is the last word of its record.
proof fn node_record_length(name: Seq<u8>)
    ensures
        node_record(name).len() == aligned4((name.len() + 5) as int) + 4,
{
    be32_round_trip(FDT_BEGIN_NODE);
    be32_round_trip(FDT_END_NODE);
    assert(aligned4((name.len() + 5) as int) == 4 + aligned4((name.len() + 1) as int));
}

/// A node is inserted alike, and is then found by its name.
#[verifier::spinoff_prover]
#[verifier::rlimit(40)]
proof fn inserting_alike(
    blob: Seq<u8>,
    root: NodeSpan,
    done: Seq<Seq<u8>>,
    parent: NodeSpan,
    name: Seq<u8>,
)
    requires
        blocks_aligned(blob),
        blocks_apart(blob),
        node_at(structure_of(blob), 0) == Some(root),
        descendant(structure_of(blob), root, done) == Some(parent),
        child_named(structure_of(blob), parent, name) is None,
        name.len() > 0,
        plain_name(name),
    ensures
        ({
            let (after, outcome) = node_inserted(blob, parent.end, name);
            match outcome {
                Ok(added) => child_inserted(
                    blob,
                    blob.len() as int,
                    place_in(blob, parent),
                    name,
                ) == (after, Ok::<(int, int), EditError>(place_in(after, added)))
                    && blocks_aligned(after) && blocks_apart(after) && after.len() == blob.len() && (node_at(
                    structure_of(after),
                    0,
                ) matches Some(top) && descendant(structure_of(after), top, done.push(name))
                    == Some(added)),
                Err(error) => child_inserted(
                    blob,
                    blob.len() as int,
                    place_in(blob, parent),
                    name,
                ) == (after, Err::<(int, int), EditError>(error)),
            }
        }),
{
    let structure = structure_of(blob);
    let part = node_record(name);
    let at = be32(blob, 8) + parent.end;
    let (after, outcome) = structure_replaced(blob, blob.len() as int, at, 0, part);
    if name.len() <= 255 && outcome is Ok {
        inserted_node_is_found(structure, root, done, parent, name);
        descendant_is_inside(structure, root, done);
        replacement_reads_back(blob, at, 0, part);
        sound_header_survives(blob, after);
        assert(structure_of(after) == spliced(structure, parent.end, 0, part));
        node_record_length(name);
    }
}

/// Nodes are created alike.
pub proof fn creating_alike(
    blob: Seq<u8>,
    root: NodeSpan,
    done: Seq<Seq<u8>>,
    parent: NodeSpan,
    names: Seq<Seq<u8>>,
)
    requires
        blocks_aligned(blob),
        blocks_apart(blob),
        node_at(structure_of(blob), 0) == Some(root),
        descendant(structure_of(blob), root, done) == Some(parent),
        forall|i: int| 0 <= i < names.len() ==> plain_name(#[trigger] names[i]),
    ensures
        way_created(blob, blob.len() as int, place_in(blob, parent), names) == nodes_created(
            blob,
            parent.begin,
            parent.end,
            names,
        ),
    decreases names.len(),
{
    let structure = structure_of(blob);
    if names.len() > 0 && names[0].len() > 0 {
        let rest = names.drop_first();
        let longer = done.push(names[0]);
        assert forall|i: int| 0 <= i < rest.len() implies plain_name(#[trigger] rest[i]) by {
            assert(rest[i] == names[i + 1]);
        }
        found_node_is_there(structure, root, done);
        child_alike(blob, parent, names[0]);
        last_name_leads_on(structure, root, done, names[0]);
        assert(child_named(structure, parent, names[0]) == child_named(
            structure,
            place_of(parent.begin, parent.end),
            names[0],
        ));
        match child_named(structure, parent, names[0]) {
            Some(child) => {
                creating_alike(blob, root, longer, child, rest);
            },
            None => {
                inserting_alike(blob, root, done, parent, names[0]);
                let (after, outcome) = node_inserted(blob, parent.end, names[0]);
                if let Ok(added) = outcome {
                    let top = node_at(structure_of(after), 0)->0;
                    creating_alike(after, top, longer, added, rest);
                }
            },
        }
    }
}

/// A larger copy of a proper tree is a proper tree.
pub proof fn enlarged_tree_is_proper(tree: Seq<u8>, size: int)
    requires
        proper_tree(tree),
        tree.len() <= size <= u32::MAX,
    ensures
        proper_tree(enlarged(tree, size)),
        enlarged(tree, size).len() == size,
{
    enlarged_tree_is_whole(tree, size);
}

} // verus!
