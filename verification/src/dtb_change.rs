//! Setting properties and creating nodes in a device tree blob.

use vstd::prelude::*;
use vstd::utf8::*;
use crate::bytes::{aligned4, be32, be32_bytes, be32_depends_on_four_bytes, bytes_equal, c_string};
use crate::dtb_edit::{
    appending_reads_back, ensure_string, ensured_string_reads_back, ensuring_keeps_header,
    front_kept, header_word, replace_in_structure, replacement_error, replacement_keeps_front,
    replacement_reads_back, sound_header_survives, string_ensured, strings_come_last,
    structure_replaced, word_set, word_set_changes_word, write_word, EditError,
};
use crate::dtb_read::{blob_fault, strings_of, structure_of, Fdt, FdtNode};
use crate::dtb_walk::padded_record_length;
use crate::fdt_frame::{
    child_names, descendant_is_inside, insertion_keeps_tree, same_contents, writing_keeps_tree,
};
use crate::fdt_nodes::{
    after_begin, after_property, child_named, children_of, descendant, node_at, property_from,
    property_of, steps_advance, tag_at, NodeSpan,
};
use crate::fdt_records::{
    inserted_node_is_found, insertion_place, last_name_leads_on, node_record, padding,
    property_place, property_record, writing_place, writing_place_is_inside,
    written_property_reads_back,
};
use crate::fdt_splice::{spliced, stretched};
use crate::fdt_tokens::{FDT_BEGIN_NODE, FDT_END_NODE, FDT_NOP, FDT_PROP};
use crate::memory::{allocation, MemoryError, PageAllocator, EFI_ALLOCATE_TYPE, EFI_MEMORY_TYPE};
use crate::memory_map::EFI_MEMORY_DESCRIPTOR;
use crate::path::{copy_range, parts_are};

verus! {

/// A node of which only the place counts.
pub open spec fn place_of(begin: int, end: int) -> NodeSpan {
    NodeSpan { name: Seq::empty(), begin, end }
}

/// The blob after a property of the node from `begin` to `end` was set, and how it
/// went. Offsets count from the start of the structure block.
pub open spec fn property_set(
    blob: Seq<u8>,
    begin: int,
    end: int,
    name: Seq<u8>,
    value: Seq<u8>,
) -> (Seq<u8>, Result<(), EditError>) {
    let (named, offset) = string_ensured(blob, blob.len() as int, name);
    match offset {
        Err(error) => (named, Err(error)),
        Ok(name_offset) => match writing_place(
            structure_of(named),
            strings_of(named),
            place_of(begin, end),
            name,
        ) {
            Err(error) => (named, Err(error)),
            Ok((place, old_length)) => {
                let at = be32(named, 8) + place;
                let part = property_record(name_offset, value);
                structure_replaced(named, blob.len() as int, at, old_length, part)
            },
        },
    }
}

/// The blob after a node was inserted at the end of the node that closes at `end`,
/// the place of the new node, and how it went. Names take at most 255 bytes. Where the
/// blocks overlap, the header can be unsound afterwards.
pub open spec fn node_inserted(blob: Seq<u8>, end: int, name: Seq<u8>) -> (
    Seq<u8>,
    Result<NodeSpan, EditError>,
) {
    let at = be32(blob, 8) + end;
    let part = node_record(name);
    if name.len() > 255 {
        (blob, Err(EditError::BufferTooSmall))
    } else {
        match structure_replaced(blob, blob.len() as int, at, 0, part) {
            (after, Err(error)) => (after, Err(error)),
            (after, Ok(_)) => match blob_fault(after) {
                Some(fault) => (after, Err(EditError::Header(fault))),
                None => match node_at(structure_of(after), end) {
                    Some(node) => (after, Ok(node)),
                    None => (after, Err(EditError::BadStructure)),
                },
            },
        }
    }
}

/// The blob after the nodes that `names` lead through from the node from `begin`
/// to `end` were created where they were missing, and how it went.
pub open spec fn nodes_created(blob: Seq<u8>, begin: int, end: int, names: Seq<Seq<u8>>) -> (
    Seq<u8>,
    Result<(), EditError>,
)
    decreases names.len(),
{
    if names.len() == 0 {
        (blob, Ok(()))
    } else if names[0].len() == 0 {
        (blob, Err(EditError::InvalidPath))
    } else {
        match child_named(structure_of(blob), place_of(begin, end), names[0]) {
            Some(child) => nodes_created(blob, child.begin, child.end, names.drop_first()),
            None => match node_inserted(blob, end, names[0]) {
                (after, Ok(child)) => nodes_created(
                    after,
                    child.begin,
                    child.end,
                    names.drop_first(),
                ),
                (after, Err(error)) => (after, Err(error)),
            },
        }
    }
}

/// Whether a name can stand in a device tree: UTF-8 without terminators.
pub open spec fn plain_name(name: Seq<u8>) -> bool {
    valid_utf8(name) && forall|i: int| 0 <= i < name.len() ==> name[i] != 0
}

/// Whether a blob is a whole device tree with a sound header.
pub open spec fn whole_tree(blob: Seq<u8>) -> bool {
    blob_fault(blob) is None && blob.len() == be32(blob, 4)
}

/// Whether the strings block starts behind the root node and ends no earlier than the
/// structure block, so that the tree can grow and shrink.
pub open spec fn blocks_apart(blob: Seq<u8>) -> bool {
    &&& strings_come_last(blob)
    &&& node_at(structure_of(blob), 0) matches Some(root) ==> be32(blob, 8) + root.end <= be32(
        blob,
        12,
    )
}

/// Whether the names of the properties from `offset` up to `end` are all in the strings
/// block.
pub open spec fn properties_named(
    structure: Seq<u8>,
    strings: Seq<u8>,
    offset: int,
    end: int,
) -> bool
    decreases structure.len() - offset,
{
    if offset >= end {
        true
    } else {
        match tag_at(structure, offset) {
            Some(tag) => if tag == FDT_PROP {
                match after_property(structure, offset) {
                    Some(next) => c_string(strings, be32(structure, offset + 8) as int) is Some && (
                    next <= offset || next > structure.len() || properties_named(
                        structure,
                        strings,
                        next,
                        end,
                    )),
                    None => true,
                }
            } else if tag == FDT_NOP {
                properties_named(structure, strings, offset + 4, end)
            } else {
                true
            },
            None => true,
        }
    }
}

/// Whether the names of all properties of a node are in the strings block.
pub open spec fn node_is_named(structure: Seq<u8>, strings: Seq<u8>, node: NodeSpan) -> bool {
    after_begin(structure, node.begin) matches Some(start) ==> properties_named(
        structure,
        strings,
        start,
        node.end,
    )
}

/// Whether a property of a node reads in another blob as it did. A property that is not
/// there is not there either, where the names of all properties could be read.
pub open spec fn property_kept(
    blob: Seq<u8>,
    node: NodeSpan,
    after: Seq<u8>,
    found: NodeSpan,
    name: Seq<u8>,
) -> bool {
    let before = property_of(structure_of(blob), strings_of(blob), node, name);
    before is Some || node_is_named(structure_of(blob), strings_of(blob), node) ==> property_of(
        structure_of(after),
        strings_of(after),
        found,
        name,
    ) == before
}

/// Whether a node has the name, the properties and the children that it had in another
/// blob.
pub open spec fn node_kept(
    blob: Seq<u8>,
    node: NodeSpan,
    after: Seq<u8>,
    found: NodeSpan,
) -> bool {
    &&& found.name == node.name
    &&& child_names(structure_of(after), found) == child_names(structure_of(blob), node)
    &&& forall|name: Seq<u8>|
        #![trigger property_of(structure_of(after), strings_of(after), found, name)]
        property_kept(blob, node, after, found, name)
}

/// A property is read from a longer strings block as before.
proof fn strings_grow(
    structure: Seq<u8>,
    strings: Seq<u8>,
    longer: Seq<u8>,
    offset: int,
    end: int,
    name: Seq<u8>,
)
    requires
        forall|other: int|
            #![trigger c_string(longer, other)]
            c_string(strings, other) is Some ==> c_string(longer, other) == c_string(
                strings,
                other,
            ),
    ensures
        property_from(structure, strings, offset, end, name) is Some || properties_named(
            structure,
            strings,
            offset,
            end,
        ) ==> property_from(structure, longer, offset, end, name) == property_from(
            structure,
            strings,
            offset,
            end,
            name,
        ),
    decreases structure.len() - offset,
{
    steps_advance(structure, offset);
    if offset < end {
        if let Some(tag) = tag_at(structure, offset) {
            if tag == FDT_PROP {
                if let Some(next) = after_property(structure, offset) {
                    assert(c_string(longer, be32(structure, offset + 8) as int) == c_string(
                        longer,
                        be32(structure, offset + 8) as int,
                    ));
                    strings_grow(structure, strings, longer, next, end, name);
                }
            } else if tag == FDT_NOP {
                strings_grow(structure, strings, longer, offset + 4, end, name);
            }
        }
    }
}

/// A property of a node is read from a longer strings block as before.
proof fn strings_grow_for(
    structure: Seq<u8>,
    strings: Seq<u8>,
    longer: Seq<u8>,
    node: NodeSpan,
    name: Seq<u8>,
)
    requires
        forall|other: int|
            #![trigger c_string(longer, other)]
            c_string(strings, other) is Some ==> c_string(longer, other) == c_string(
                strings,
                other,
            ),
    ensures
        property_of(structure, strings, node, name) is Some || node_is_named(
            structure,
            strings,
            node,
        ) ==> property_of(structure, longer, node, name) == property_of(
            structure,
            strings,
            node,
            name,
        ),
{
    if let Some(start) = after_begin(structure, node.begin) {
        strings_grow(structure, strings, longer, start, node.end, name);
    }
}

/// A property that was set is read back: the blob is still a whole device tree, the
/// node is found by the same names, and its property has the value that was set. Its
/// other properties and its children are as they were, and so is every other node and
/// what comes before the structure block.
#[verifier::spinoff_prover]
#[verifier::rlimit(60)]
pub proof fn set_property_reads_back(
    blob: Seq<u8>,
    root: NodeSpan,
    names: Seq<Seq<u8>>,
    node: NodeSpan,
    name: Seq<u8>,
    value: Seq<u8>,
)
    requires
        whole_tree(blob),
        blocks_apart(blob),
        node_at(structure_of(blob), 0) == Some(root),
        descendant(structure_of(blob), root, names) == Some(node),
        plain_name(name),
        property_set(blob, node.begin, node.end, name, value).1 is Ok,
    ensures
        ({
            let after = property_set(blob, node.begin, node.end, name, value).0;
            &&& whole_tree(after)
            &&& blocks_apart(after)
            &&& front_kept(blob, after)
            &&& node_at(structure_of(after), 0) matches Some(top) && descendant(
                structure_of(after),
                top,
                names,
            ) matches Some(found) && found.begin == node.begin && property_of(
                structure_of(after),
                strings_of(after),
                found,
                name,
            ) == Some(value) && child_names(structure_of(after), found) == child_names(
                structure_of(blob),
                node,
            ) && (forall|other: Seq<u8>|
                #![trigger property_of(structure_of(after), strings_of(after), found, other)]
                other != name ==> property_kept(blob, node, after, found, other)) && forall|
                way: Seq<Seq<u8>>,
            |
                #![trigger descendant(structure_of(after), top, way)]
                way != names ==> (descendant(structure_of(blob), root, way) matches Some(there)
                    ==> (descendant(structure_of(after), top, way) matches Some(kept) && node_kept(
                    blob,
                    there,
                    after,
                    kept,
                )))
        }),
{
    let (named, offset) = string_ensured(blob, blob.len() as int, name);
    let name_offset = offset->Ok_0;
    ensured_string_reads_back(blob, name);
    if named != blob {
        appending_reads_back(blob, name);
        sound_header_survives(blob, named);
    }
    let structure = structure_of(named);
    let strings = strings_of(named);
    let (place, old_length) = writing_place(
        structure,
        strings,
        place_of(node.begin, node.end),
        name,
    )->Ok_0;
    assert(writing_place(structure, strings, node, name) == Ok::<(int, int), EditError>(
        (place, old_length),
    ));
    let at = be32(named, 8) + place;
    let part = property_record(name_offset, value);
    record_length_bounds_value(name_offset, value);
    writing_place_is_inside(structure, strings, root, names, node, name, place, old_length);
    descendant_is_inside(structure, root, names);
    replacement_reads_back(named, at, old_length, part);
    let after = structure_replaced(named, named.len() as int, at, old_length, part).0;
    sound_header_survives(named, after);
    written_property_reads_back(
        structure,
        strings,
        root,
        names,
        node,
        name,
        name_offset,
        value,
        place,
        old_length,
    );
    writing_keeps_tree(
        structure,
        strings,
        root,
        names,
        node,
        name,
        name_offset,
        value,
        place,
        old_length,
    );
    let growth = part.len() - old_length;
    let found = stretched(node, growth);
    let top = stretched(root, growth);
    assert(structure_of(after) == spliced(structure, place, old_length, part));
    assert forall|other: Seq<u8>|
        #![trigger property_of(structure_of(after), strings_of(after), found, other)]
        other != name implies property_kept(blob, node, after, found, other) by {
        strings_grow_for(structure, strings_of(blob), strings, node, other);
    }
    assert forall|way: Seq<Seq<u8>>|
        #![trigger descendant(structure_of(after), top, way)]
        way != names && descendant(structure_of(blob), root, way) is Some implies (descendant(
        structure_of(after),
        top,
        way,
    ) matches Some(kept) && node_kept(
        blob,
        descendant(structure_of(blob), root, way)->0,
        after,
        kept,
    )) by {
        let there = descendant(structure_of(blob), root, way)->0;
        let kept = descendant(structure_of(after), top, way)->0;
        assert forall|other: Seq<u8>|
            #![trigger property_of(structure_of(after), strings_of(after), kept, other)]
            property_kept(blob, there, after, kept, other) by {
            strings_grow_for(structure, strings_of(blob), strings, there, other);
        }
    }
    assert forall|i: int| 40 <= i < be32(blob, 8) && i < blob.len() implies #[trigger] after[i]
        == blob[i] by {
        assert(named[i] == blob[i]);
    }
}

proof fn record_length_bounds_value(name_offset: u32, value: Seq<u8>)
    ensures
        property_record(name_offset, value).len() == 12 + aligned4(value.len() as int),
        value.len() <= property_record(name_offset, value).len(),
{
}

/// Where nodes were created, the path of names leads to a node.
pub proof fn created_nodes_are_found(
    blob: Seq<u8>,
    root: NodeSpan,
    done: Seq<Seq<u8>>,
    parent: NodeSpan,
    names: Seq<Seq<u8>>,
)
    requires
        whole_tree(blob),
        blocks_apart(blob),
        node_at(structure_of(blob), 0) == Some(root),
        descendant(structure_of(blob), root, done) == Some(parent),
        forall|i: int| 0 <= i < names.len() ==> plain_name(#[trigger] names[i]),
        nodes_created(blob, parent.begin, parent.end, names).1 is Ok,
    ensures
        ({
            let after = nodes_created(blob, parent.begin, parent.end, names).0;
            &&& whole_tree(after)
            &&& blocks_apart(after)
            &&& node_at(structure_of(after), 0) matches Some(top) && descendant(
                structure_of(after),
                top,
                done + names,
            ) is Some
        }),
    decreases names.len(),
{
    let structure = structure_of(blob);
    if names.len() == 0 {
        assert(done + names =~= done);
    } else {
        let rest = names.drop_first();
        let longer = done.push(names[0]);
        assert(done + names =~= longer + rest);
        assert forall|i: int| 0 <= i < rest.len() implies plain_name(#[trigger] rest[i]) by {
            assert(rest[i] == names[i + 1]);
        }
        last_name_leads_on(structure, root, done, names[0]);
        assert(child_named(structure, parent, names[0]) == child_named(
            structure,
            place_of(parent.begin, parent.end),
            names[0],
        ));
        match child_named(structure, parent, names[0]) {
            Some(child) => {
                created_nodes_are_found(blob, root, longer, child, rest);
            },
            None => {
                assert(plain_name(names[0]));
                inserted_node_is_found(structure, root, done, parent, names[0]);
                let part = node_record(names[0]);
                let at = be32(blob, 8) + parent.end;
                descendant_is_inside(structure, root, done);
                replacement_reads_back(blob, at, 0, part);
                let after = structure_replaced(blob, blob.len() as int, at, 0, part).0;
                sound_header_survives(blob, after);
                assert(structure_of(after) == spliced(structure, parent.end, 0, part));
                let growth = part.len() as int;
                let added = node_at(structure_of(after), parent.end)->0;
                created_nodes_are_found(after, stretched(root, growth), longer, added, rest);
            },
        }
    }
}

/// Names that lead to a node lead through nodes.
pub proof fn way_is_found(structure: Seq<u8>, top: NodeSpan, names: Seq<Seq<u8>>, count: int)
    requires
        descendant(structure, top, names) is Some,
        0 <= count <= names.len(),
    ensures
        descendant(structure, top, names.take(count)) is Some,
    decreases count,
{
    if count > 0 {
        let part = names.take(count);
        assert(part[0] == names[0]);
        assert(part.drop_first() =~= names.drop_first().take(count - 1));
        let child = child_named(structure, top, names[0])->0;
        way_is_found(structure, child, names.drop_first(), count - 1);
    }
}

/// Creating nodes that are all there changes nothing.
pub proof fn found_nodes_are_left(blob: Seq<u8>, parent: NodeSpan, names: Seq<Seq<u8>>)
    requires
        descendant(structure_of(blob), parent, names) is Some,
    ensures
        nodes_created(blob, parent.begin, parent.end, names) == (blob, Ok::<(), EditError>(())),
    decreases names.len(),
{
    if names.len() > 0 {
        assert(child_named(structure_of(blob), parent, names[0]) == child_named(
            structure_of(blob),
            place_of(parent.begin, parent.end),
            names[0],
        ));
        let child = child_named(structure_of(blob), parent, names[0])->0;
        found_nodes_are_left(blob, child, names.drop_first());
    }
}

/// How many of the names lead from a node to nodes that are there.
pub open spec fn found_count(structure: Seq<u8>, node: NodeSpan, names: Seq<Seq<u8>>) -> nat
    decreases names.len(),
{
    if names.len() == 0 {
        0
    } else {
        match child_named(structure, node, names[0]) {
            Some(child) => 1 + found_count(structure, child, names.drop_first()),
            None => 0,
        }
    }
}

/// Whether each node of a tree is found in another one by the names that led to it, with
/// its properties and its children; the node that `way` leads to has the children
/// `fresh` behind those that it had.
pub open spec fn old_nodes_kept(
    structure: Seq<u8>,
    root: NodeSpan,
    after: Seq<u8>,
    top: NodeSpan,
    strings: Seq<u8>,
    way: Seq<Seq<u8>>,
    fresh: Seq<Seq<u8>>,
) -> bool {
    forall|names: Seq<Seq<u8>>|
        #![trigger descendant(after, top, names)]
        descendant(structure, root, names) matches Some(node) ==> (descendant(after, top, names)
            matches Some(found) && same_contents(structure, node, after, found, strings)
            && child_names(after, found) == if names == way {
            child_names(structure, node) + fresh
        } else {
            child_names(structure, node)
        })
}

/// Whether the nodes that more than `count` of the names lead to have no properties, and
/// no child but the next one.
pub open spec fn new_nodes_bare(
    after: Seq<u8>,
    top: NodeSpan,
    strings: Seq<u8>,
    done: Seq<Seq<u8>>,
    names: Seq<Seq<u8>>,
    count: int,
) -> bool {
    forall|k: int|
        #![trigger names.take(k)]
        count < k <= names.len() ==> (descendant(after, top, done + names.take(k)) matches Some(
            added,
        ) && bare(after, strings, added, first_of(names, k)))
}

/// Whether a node has no properties, and the given children only.
pub open spec fn bare(
    structure: Seq<u8>,
    strings: Seq<u8>,
    node: NodeSpan,
    children: Seq<Seq<u8>>,
) -> bool {
    &&& child_names(structure, node) == children
    &&& forall|name: Seq<u8>| #[trigger] property_of(structure, strings, node, name) is None
}

/// The first of some names, if there is one, as a list.
pub open spec fn first_of(names: Seq<Seq<u8>>, from: int) -> Seq<Seq<u8>> {
    if from < names.len() {
        seq![names[from]]
    } else {
        Seq::empty()
    }
}

/// Where nodes were created, the rest of the tree is as it was: each node that was there
/// is found by the same names, with its properties and its children. The last node on
/// the way that was there has the first new node as its last child. New nodes have no
/// properties, and no child but the next new node. The strings block is the same, and
/// so is what comes before the structure block.
pub proof fn creation_keeps_tree(
    blob: Seq<u8>,
    root: NodeSpan,
    done: Seq<Seq<u8>>,
    parent: NodeSpan,
    names: Seq<Seq<u8>>,
)
    requires
        whole_tree(blob),
        blocks_apart(blob),
        node_at(structure_of(blob), 0) == Some(root),
        descendant(structure_of(blob), root, done) == Some(parent),
        forall|i: int| 0 <= i < names.len() ==> plain_name(#[trigger] names[i]),
        nodes_created(blob, parent.begin, parent.end, names).1 is Ok,
    ensures
        ({
            let after = nodes_created(blob, parent.begin, parent.end, names).0;
            let count = found_count(structure_of(blob), parent, names) as int;
            &&& strings_of(after) == strings_of(blob)
            &&& front_kept(blob, after)
            &&& count <= names.len()
            &&& node_at(structure_of(after), 0) matches Some(top) && old_nodes_kept(
                structure_of(blob),
                root,
                structure_of(after),
                top,
                strings_of(blob),
                done + names.take(count),
                first_of(names, count),
            ) && new_nodes_bare(
                structure_of(after),
                top,
                strings_of(blob),
                done,
                names,
                count,
            )
        }),
    decreases names.len(), 1int,
{
    let structure = structure_of(blob);
    let strings = strings_of(blob);
    if names.len() == 0 {
        assert forall|node: NodeSpan| #[trigger] child_names(structure, node) + first_of(names, 0)
            == child_names(structure, node) by {
            assert(child_names(structure, node) + first_of(names, 0) =~= child_names(
                structure,
                node,
            ));
        }
    } else {
        let rest = names.drop_first();
        let longer = done.push(names[0]);
        assert forall|i: int| 0 <= i < rest.len() implies plain_name(#[trigger] rest[i]) by {
            assert(rest[i] == names[i + 1]);
        }
        last_name_leads_on(structure, root, done, names[0]);
        assert(child_named(structure, parent, names[0]) == child_named(
            structure,
            place_of(parent.begin, parent.end),
            names[0],
        ));
        assert(plain_name(names[0]));
        match child_named(structure, parent, names[0]) {
            Some(child) => {
                creation_keeps_tree(blob, root, longer, child, rest);
                let count = found_count(structure, parent, names) as int;
                assert(done + names.take(count) =~= longer + rest.take(count - 1));
                assert(first_of(names, count) =~= first_of(rest, count - 1));
                let after = structure_of(nodes_created(blob, child.begin, child.end, rest).0);
                let top = node_at(after, 0)->0;
                rest_is_bare(after, top, strings, done, names, count);
            },
            None => {
                insertion_then_creation_keeps_tree(blob, root, done, parent, names);
            },
        }
    }
}

/// What is known of the nodes behind the first name is known of the nodes behind all
/// names.
proof fn rest_is_bare(
    after: Seq<u8>,
    top: NodeSpan,
    strings: Seq<u8>,
    done: Seq<Seq<u8>>,
    names: Seq<Seq<u8>>,
    count: int,
)
    requires
        names.len() > 0,
        0 <= count,
        new_nodes_bare(
            after,
            top,
            strings,
            done.push(names[0]),
            names.drop_first(),
            (if count > 0 {
                count - 1
            } else {
                0
            }),
        ),
        count == 0 ==> (descendant(after, top, done.push(names[0])) matches Some(added) && bare(
            after,
            strings,
            added,
            first_of(names, 1),
        )),
    ensures
        new_nodes_bare(after, top, strings, done, names, count),
{
    let rest = names.drop_first();
    let longer = done.push(names[0]);
    assert forall|k: int|
        #![trigger names.take(k)]
        count < k <= names.len() implies (descendant(after, top, done + names.take(k)) matches Some(
        added,
    ) && bare(after, strings, added, first_of(names, k))) by {
        assert(done + names.take(k) =~= longer + rest.take(k - 1));
        assert(first_of(names, k) =~= first_of(rest, k - 1));
        if k == 1 {
            assert(longer + rest.take(0) =~= longer);
        }
    }
}

/// The rest of the tree is as it was where the first of the names is missing.
#[verifier::spinoff_prover]
#[verifier::rlimit(60)]
proof fn insertion_then_creation_keeps_tree(
    blob: Seq<u8>,
    root: NodeSpan,
    done: Seq<Seq<u8>>,
    parent: NodeSpan,
    names: Seq<Seq<u8>>,
)
    requires
        names.len() > 0,
        whole_tree(blob),
        blocks_apart(blob),
        node_at(structure_of(blob), 0) == Some(root),
        descendant(structure_of(blob), root, done) == Some(parent),
        forall|i: int| 0 <= i < names.len() ==> plain_name(#[trigger] names[i]),
        nodes_created(blob, parent.begin, parent.end, names).1 is Ok,
        child_named(structure_of(blob), parent, names[0]) is None,
    ensures
        ({
            let after = nodes_created(blob, parent.begin, parent.end, names).0;
            &&& strings_of(after) == strings_of(blob)
            &&& front_kept(blob, after)
            &&& node_at(structure_of(after), 0) matches Some(top) && old_nodes_kept(
                structure_of(blob),
                root,
                structure_of(after),
                top,
                strings_of(blob),
                done + names.take(0),
                first_of(names, 0),
            ) && new_nodes_bare(structure_of(after), top, strings_of(blob), done, names, 0)
        }),
    decreases names.len(), 0int,
{
    let structure = structure_of(blob);
    let strings = strings_of(blob);
    let rest = names.drop_first();
    let longer = done.push(names[0]);
    assert forall|i: int| 0 <= i < rest.len() implies plain_name(#[trigger] rest[i]) by {
        assert(rest[i] == names[i + 1]);
    }
    last_name_leads_on(structure, root, done, names[0]);
    assert(child_named(structure, parent, names[0]) == child_named(
        structure,
        place_of(parent.begin, parent.end),
        names[0],
    ));
    assert(plain_name(names[0]));
    inserted_node_is_found(structure, root, done, parent, names[0]);
    insertion_keeps_tree(structure, root, done, parent, names[0], strings);
    let part = node_record(names[0]);
    let at = be32(blob, 8) + parent.end;
    descendant_is_inside(structure, root, done);
    replacement_reads_back(blob, at, 0, part);
    let middle_blob = structure_replaced(blob, blob.len() as int, at, 0, part).0;
    sound_header_survives(blob, middle_blob);
    let middle = structure_of(middle_blob);
    assert(middle == spliced(structure, parent.end, 0, part));
    let growth = part.len() as int;
    let grown = stretched(root, growth);
    let added = node_at(middle, parent.end)->0;
    creation_keeps_tree(middle_blob, grown, longer, added, rest);
    let after_blob = nodes_created(middle_blob, added.begin, added.end, rest).0;
    let after = structure_of(after_blob);
    let top = node_at(after, 0)->0;
    assert(child_names(middle, added).len() == 0);
    assert(children_of(middle, added).len() == 0);
    assert(found_count(middle, added, rest) == 0);
    assert(longer + rest.take(0) =~= longer);
    assert(done + names.take(0) =~= done);
    assert(first_of(names, 0) =~= seq![names[0]]);
    assert forall|way: Seq<Seq<u8>>|
        #![trigger descendant(after, top, way)]
        descendant(structure, root, way) is Some implies (descendant(after, top, way) matches Some(
        found,
    ) && same_contents(structure, descendant(structure, root, way)->0, after, found, strings)
        && child_names(after, found) == if way == done {
        child_names(structure, descendant(structure, root, way)->0) + first_of(names, 0)
    } else {
        child_names(structure, descendant(structure, root, way)->0)
    }) by {
        let node = descendant(structure, root, way)->0;
        let there = descendant(middle, grown, way)->0;
        assert(way != longer);
        assert(child_names(structure, node).push(names[0]) =~= child_names(structure, node)
            + first_of(names, 0));
        let found = descendant(after, top, way)->0;
        assert forall|name: Seq<u8>|
            #![trigger property_of(after, strings, found, name)]
            property_of(after, strings, found, name) == property_of(structure, strings, node, name) by {
            assert(property_of(middle, strings, there, name) == property_of(
                structure,
                strings,
                node,
                name,
            ));
        }
    }
    let found = descendant(after, top, longer)->0;
    assert(descendant(middle, grown, longer) == Some(added));
    assert(child_names(middle, added) + first_of(rest, 0) =~= first_of(names, 1));
    assert forall|name: Seq<u8>| #[trigger] property_of(after, strings, found, name) is None by {
        assert(property_of(middle, strings, added, name) is None);
    }
    rest_is_bare(after, top, strings, done, names, 0);
    assert forall|i: int| 40 <= i < be32(blob, 8) && i < blob.len() implies #[trigger] after_blob[i]
        == blob[i] by {
        assert(middle_blob[i] == blob[i]);
    }
}

/// Whether a tree is another one with the nodes added that were missing on a way from
/// the root. Each beginning of the way leads to a node. The last of these nodes that
/// was there before has the first new node as its last child; new nodes have no
/// properties, and no child but the next new node. All else reads as before: every node
/// that was there, its properties, its children, the strings block, and what comes
/// before the structure block.
pub open spec fn way_added(blob: Seq<u8>, after: Seq<u8>, names: Seq<Seq<u8>>) -> bool {
    &&& whole_tree(after)
    &&& blocks_apart(after)
    &&& strings_of(after) == strings_of(blob)
    &&& front_kept(blob, after)
    &&& node_at(structure_of(blob), 0) matches Some(root) && node_at(structure_of(after), 0) matches Some(
        top,
    ) && {
        let count = found_count(structure_of(blob), root, names) as int;
        &&& forall|k: int|
            0 <= k <= names.len() ==> descendant(
                structure_of(after),
                top,
                #[trigger] names.take(k),
            ) is Some
        &&& old_nodes_kept(
            structure_of(blob),
            root,
            structure_of(after),
            top,
            strings_of(blob),
            names.take(count),
            first_of(names, count),
        )
        &&& new_nodes_bare(
            structure_of(after),
            top,
            strings_of(blob),
            Seq::empty(),
            names,
            count,
        )
    }
}

/// Where nodes were created from the root on, they are added and all else is as it was.
/// Creating them once more changes nothing.
pub proof fn created_way_is_added(blob: Seq<u8>, root: NodeSpan, names: Seq<Seq<u8>>)
    requires
        whole_tree(blob),
        blocks_apart(blob),
        node_at(structure_of(blob), 0) == Some(root),
        forall|i: int| 0 <= i < names.len() ==> plain_name(#[trigger] names[i]),
        nodes_created(blob, root.begin, root.end, names).1 is Ok,
    ensures
        ({
            let after = nodes_created(blob, root.begin, root.end, names).0;
            &&& way_added(blob, after, names)
            &&& node_at(structure_of(after), 0) matches Some(top) && descendant(
                structure_of(after),
                top,
                names,
            ) is Some && nodes_created(after, top.begin, top.end, names) == (
                after,
                Ok::<(), EditError>(()),
            )
        }),
{
    let after = nodes_created(blob, root.begin, root.end, names).0;
    let none = Seq::<Seq<u8>>::empty();
    created_nodes_are_found(blob, root, none, root, names);
    creation_keeps_tree(blob, root, none, root, names);
    let top = node_at(structure_of(after), 0)->0;
    let count = found_count(structure_of(blob), root, names) as int;
    assert(none + names =~= names);
    assert(none + names.take(count) =~= names.take(count));
    assert forall|k: int| 0 <= k <= names.len() implies descendant(
        structure_of(after),
        top,
        #[trigger] names.take(k),
    ) is Some by {
        way_is_found(structure_of(after), top, names, k);
    }
    found_nodes_are_left(after, top, names);
}

/// Setting a property changes neither the size of a blob nor the size in its header.
pub proof fn set_keeps_length(blob: Seq<u8>, begin: int, end: int, name: Seq<u8>, value: Seq<u8>)
    requires
        whole_tree(blob),
    ensures
        property_set(blob, begin, end, name, value).0.len() == blob.len(),
        be32(property_set(blob, begin, end, name, value).0, 4) == be32(blob, 4),
{
    let (named, offset) = string_ensured(blob, blob.len() as int, name);
    ensuring_keeps_header(blob, name);
    if let Ok(name_offset) = offset {
        if let Ok((place, old_length)) = writing_place(
            structure_of(named),
            strings_of(named),
            place_of(begin, end),
            name,
        ) {
            let part = property_record(name_offset, value);
            replacement_keeps_size(named, be32(named, 8) + place, old_length, part);
        }
    }
}

/// Creating nodes changes neither the size of a blob nor the size in its header.
pub proof fn creation_keeps_length(blob: Seq<u8>, begin: int, end: int, names: Seq<Seq<u8>>)
    requires
        whole_tree(blob),
    ensures
        nodes_created(blob, begin, end, names).0.len() == blob.len(),
        be32(nodes_created(blob, begin, end, names).0, 4) == be32(blob, 4),
    decreases names.len(),
{
    if names.len() > 0 && names[0].len() > 0 {
        match child_named(structure_of(blob), place_of(begin, end), names[0]) {
            Some(child) => {
                creation_keeps_length(blob, child.begin, child.end, names.drop_first());
            },
            None => {
                let (after, outcome) = node_inserted(blob, end, names[0]);
                replacement_keeps_size(blob, be32(blob, 8) + end, 0, node_record(names[0]));
                if let Ok(child) = outcome {
                    creation_keeps_length(after, child.begin, child.end, names.drop_first());
                }
            },
        }
    }
}

/// Finds the record of a property from `offset` up to `end`.
fn find_direct_property(fdt: &Fdt<'_>, offset: usize, end: usize, name: &[u8]) -> (place: Result<
    Option<(usize, usize)>,
    EditError,
>)
    requires
        offset <= fdt.structure().len(),
    ensures
        match place {
            Ok(Some((at, length))) => property_place(
                fdt.structure(),
                fdt.strings(),
                offset as int,
                end as int,
                name@,
            ) == Ok::<Option<(int, int)>, EditError>(Some((at as int, length as int))),
            Ok(None) => property_place(
                fdt.structure(),
                fdt.strings(),
                offset as int,
                end as int,
                name@,
            ) == Ok::<Option<(int, int)>, EditError>(None),
            Err(error) => property_place(
                fdt.structure(),
                fdt.strings(),
                offset as int,
                end as int,
                name@,
            ) == Err::<Option<(int, int)>, EditError>(error),
        },
{
    let ghost structure = fdt.structure();
    let ghost strings = fdt.strings();
    let ghost whole = property_place(structure, strings, offset as int, end as int, name@);
    let mut cursor: usize = offset;
    while cursor < end
        invariant
            structure == fdt.structure(),
            strings == fdt.strings(),
            cursor <= structure.len(),
            whole == property_place(structure, strings, offset as int, end as int, name@),
            whole == property_place(structure, strings, cursor as int, end as int, name@),
        decreases structure.len() - cursor,
    {
        let tag: u32 = match fdt.read_token(cursor) {
            Some(tag) => tag,
            None => return Err(EditError::BadStructure),
        };
        proof {
            steps_advance(structure, cursor as int);
        }
        if tag == FDT_PROP {
            let next: usize = match fdt.after_property(cursor) {
                Some(next) => next,
                None => return Err(EditError::BadStructure),
            };
            let name_offset: u32 = match fdt.read_token(cursor + 8) {
                Some(offset) => offset,
                None => return Err(EditError::BadStructure),
            };
            let found = match fdt.name_at(name_offset as usize) {
                Some(found) => found,
                None => return Err(EditError::BadStructure),
            };
            if bytes_equal(found, name) {
                let length: u32 = match fdt.read_token(cursor + 4) {
                    Some(length) => length,
                    None => return Err(EditError::BadStructure),
                };
                if ((next - cursor) as u64) < 12 + (length as u64 + 3) / 4 * 4 {
                    return Err(EditError::BadStructure);
                }
                return Ok(Some((cursor, next - cursor)));
            }
            cursor = next;
        } else if tag == FDT_NOP {
            cursor += 4;
        } else if tag == FDT_BEGIN_NODE || tag == FDT_END_NODE {
            return Ok(None);
        } else {
            return Err(EditError::BadStructure);
        }
    }
    Ok(None)
}

/// Finds the place behind the properties from `offset` up to `end`.
fn property_insertion_offset(fdt: &Fdt<'_>, offset: usize, end: usize) -> (place: Result<
    usize,
    EditError,
>)
    requires
        offset <= fdt.structure().len(),
    ensures
        match place {
            Ok(at) => insertion_place(fdt.structure(), offset as int, end as int) == Ok::<
                int,
                EditError,
            >(at as int),
            Err(error) => insertion_place(fdt.structure(), offset as int, end as int) == Err::<
                int,
                EditError,
            >(error),
        },
{
    let ghost structure = fdt.structure();
    let ghost whole = insertion_place(structure, offset as int, end as int);
    let mut cursor: usize = offset;
    while cursor < end
        invariant
            structure == fdt.structure(),
            cursor <= structure.len(),
            whole == insertion_place(structure, offset as int, end as int),
            whole == insertion_place(structure, cursor as int, end as int),
        decreases structure.len() - cursor,
    {
        let tag: u32 = match fdt.read_token(cursor) {
            Some(tag) => tag,
            None => return Err(EditError::BadStructure),
        };
        proof {
            steps_advance(structure, cursor as int);
        }
        if tag == FDT_PROP {
            cursor = match fdt.after_property(cursor) {
                Some(next) => next,
                None => return Err(EditError::BadStructure),
            };
        } else if tag == FDT_NOP {
            cursor += 4;
        } else if tag == FDT_BEGIN_NODE || tag == FDT_END_NODE {
            return Ok(cursor);
        } else {
            return Err(EditError::BadStructure);
        }
    }
    Ok(end)
}

/// Finds where a property of the node from `begin` to `end` is written, and how
/// many bytes it replaces.
fn find_writing_place(fdt: &Fdt<'_>, begin: usize, end: usize, name: &[u8]) -> (place: Result<
    (usize, usize),
    EditError,
>)
    ensures
        match place {
            Ok((at, length)) => writing_place(
                fdt.structure(),
                fdt.strings(),
                place_of(begin as int, end as int),
                name@,
            ) == Ok::<(int, int), EditError>((at as int, length as int)),
            Err(error) => writing_place(
                fdt.structure(),
                fdt.strings(),
                place_of(begin as int, end as int),
                name@,
            ) == Err::<(int, int), EditError>(error),
        },
{
    let start: usize = match fdt.after_begin_node(begin) {
        Some(start) => start,
        None => return Err(EditError::BadStructure),
    };
    match find_direct_property(fdt, start, end, name) {
        Ok(Some((at, length))) => Ok((at, length)),
        Ok(None) => match property_insertion_offset(fdt, start, end) {
            Ok(at) => Ok((at, 0)),
            Err(error) => Err(error),
        },
        Err(error) => Err(error),
    }
}

/// Appends a word in big-endian form.
pub(crate) fn push_word(bytes: &mut Vec<u8>, value: u32)
    ensures
        final(bytes)@ == old(bytes)@ + be32_bytes(value),
{
    let ghost before = bytes@;
    bytes.push((value / 0x100_0000) as u8);
    bytes.push((value / 0x1_0000 % 0x100) as u8);
    bytes.push((value / 0x100 % 0x100) as u8);
    bytes.push((value % 0x100) as u8);
    assert(bytes@ =~= before + be32_bytes(value));
}

/// Appends bytes and then zeros up to a multiple of four.
pub(crate) fn push_padded(bytes: &mut Vec<u8>, part: &[u8], terminated: bool)
    requires
        part@.len() + 8 <= usize::MAX,
    ensures
        ({
            let body = if terminated {
                part@.push(0u8)
            } else {
                part@
            };
            final(bytes)@ == old(bytes)@ + body + padding(body.len() as int)
        }),
{
    let ghost before = bytes@;
    let ghost body = if terminated {
        part@.push(0u8)
    } else {
        part@
    };
    let mut index: usize = 0;
    while index < part.len()
        invariant
            index <= part@.len(),
            bytes@ == before + part@.take(index as int),
        decreases part@.len() - index,
    {
        bytes.push(part[index]);
        index += 1;
        assert(bytes@ =~= before + part@.take(index as int));
    }
    let mut length: usize = part.len();
    if terminated {
        bytes.push(0);
        length += 1;
    }
    assert(bytes@ =~= before + body);
    let total = (length + 3) / 4 * 4;
    let ghost unpadded = bytes@;
    let mut filled: usize = length;
    while filled < total
        invariant
            length <= filled <= total,
            bytes@ == unpadded + Seq::new((filled - length) as nat, |i: int| 0u8),
        decreases total - filled,
    {
        bytes.push(0);
        filled += 1;
        assert(bytes@ =~= unpadded + Seq::new((filled - length) as nat, |i: int| 0u8));
    }
    assert(bytes@ =~= before + body + padding(body.len() as int));
}

/// Creates or replaces one property of the node from `begin` to `end`.
pub(crate) fn set_property(
    blob: &mut Vec<u8>,
    begin: usize,
    end: usize,
    name: &[u8],
    value: &[u8],
) -> (outcome: Result<(), EditError>)
    requires
        whole_tree(old(blob)@),
        end <= old(blob)@.len(),
    ensures
        (final(blob)@, outcome) == property_set(
            old(blob)@,
            begin as int,
            end as int,
            name@,
            value@,
        ),
{
    let size = blob.len();
    proof {
        ensuring_keeps_header(blob@, name@);
    }
    let name_offset: u32 = match ensure_string(blob, size, name) {
        Ok(offset) => offset,
        Err(error) => return Err(error),
    };
    let ghost named = blob@;
    proof {
        record_length_bounds_value(name_offset, value@);
    }
    let structure_start: u64 = header_word(blob, 8) as u64;
    let (place, old_length) = {
        let fdt = match Fdt::from_bytes(0, blob.as_slice()) {
            Ok(fdt) => fdt,
            Err(fault) => return Err(EditError::Header(fault)),
        };
        match find_writing_place(&fdt, begin, end, name) {
            Ok(found) => found,
            Err(error) => return Err(error),
        }
    };
    proof {
        writing_place_is_bounded(
            structure_of(named),
            strings_of(named),
            place_of(begin as int, end as int),
            name@,
        );
    }
    let at: u64 = structure_start + place as u64;
    let record_length: u64 = padded_record_length(value.len());
    if let Some(error) = replacement_error(blob, size, at, old_length as u64, record_length) {
        return Err(error);
    }
    let mut record: Vec<u8> = Vec::new();
    push_word(&mut record, FDT_PROP);
    push_word(&mut record, value.len() as u32);
    push_word(&mut record, name_offset);
    push_padded(&mut record, value, false);
    assert(record@ =~= property_record(name_offset, value@));
    replace_in_structure(blob, size, at, old_length as u64, record.as_slice())
}

/// Replacing bytes behind the header keeps the size of a blob and the size in its header.
proof fn replacement_keeps_size(blob: Seq<u8>, offset: int, old_length: int, part: Seq<u8>)
    requires
        whole_tree(blob),
    ensures
        structure_replaced(blob, blob.len() as int, offset, old_length, part).0.len() == blob.len(),
        be32(structure_replaced(blob, blob.len() as int, offset, old_length, part).0, 4) == be32(
            blob,
            4,
        ),
{
    replacement_keeps_front(blob, blob.len() as int, offset, old_length, part);
}

proof fn writing_place_is_bounded(
    structure: Seq<u8>,
    strings: Seq<u8>,
    node: NodeSpan,
    name: Seq<u8>,
)
    ensures
        writing_place(structure, strings, node, name) matches Ok((place, length)) ==> 0 <= length
            <= structure.len() && (place <= structure.len() || place == node.end),
{
    if let Some(start) = after_begin(structure, node.begin) {
        found_place_is_bounded(structure, strings, start, node.end, name);
        insertion_place_is_bounded(structure, start, node.end);
    }
}

proof fn insertion_place_is_bounded(structure: Seq<u8>, offset: int, end: int)
    ensures
        insertion_place(structure, offset, end) matches Ok(place) ==> place <= structure.len()
            || place == end,
    decreases structure.len() - offset,
{
    steps_advance(structure, offset);
    if offset < end {
        if let Some(tag) = tag_at(structure, offset) {
            if tag == FDT_PROP {
                if let Some(next) = after_property(structure, offset) {
                    insertion_place_is_bounded(structure, next, end);
                }
            } else if tag == FDT_NOP {
                insertion_place_is_bounded(structure, offset + 4, end);
            }
        }
    }
}

proof fn found_place_is_bounded(
    structure: Seq<u8>,
    strings: Seq<u8>,
    offset: int,
    end: int,
    name: Seq<u8>,
)
    ensures
        property_place(structure, strings, offset, end, name) matches Ok(Some((place, length)))
            ==> 0 < length <= structure.len() && place <= structure.len(),
    decreases structure.len() - offset,
{
    steps_advance(structure, offset);
    if offset < end {
        if let Some(tag) = tag_at(structure, offset) {
            if tag == FDT_PROP {
                if let Some(next) = after_property(structure, offset) {
                    found_place_is_bounded(structure, strings, next, end, name);
                }
            } else if tag == FDT_NOP {
                found_place_is_bounded(structure, strings, offset + 4, end, name);
            }
        }
    }
}

/// Inserts a node at the end of the node that closes at `end`, and returns where
/// the new node opens and closes.
fn insert_child_node(blob: &mut Vec<u8>, end: usize, name: &[u8]) -> (place: Result<
    (usize, usize),
    EditError,
>)
    requires
        whole_tree(old(blob)@),
    ensures
        match place {
            Ok((new_begin, new_end)) => node_inserted(old(blob)@, end as int, name@).0
                == final(blob)@ && (node_inserted(old(blob)@, end as int, name@).1 matches Ok(node)
                && node.begin == new_begin && node.end == new_end) && whole_tree(final(blob)@),
            Err(error) => node_inserted(old(blob)@, end as int, name@) == (
                final(blob)@,
                Err::<NodeSpan, EditError>(error),
            ),
        },
{
    let ghost before = blob@;
    if name.len() > 255 {
        return Err(EditError::BufferTooSmall);
    }
    let size = blob.len();
    let structure_start: u64 = header_word(blob, 8) as u64;
    if end as u64 > header_word(blob, 36) as u64 {
        return Err(EditError::BadStructure);
    }
    let mut record: Vec<u8> = Vec::new();
    push_word(&mut record, FDT_BEGIN_NODE);
    push_padded(&mut record, name, true);
    push_word(&mut record, FDT_END_NODE);
    assert(record@ =~= node_record(name@));
    let at: u64 = structure_start + end as u64;
    proof {
        replacement_keeps_size(before, at as int, 0, record@);
    }
    match replace_in_structure(blob, size, at, 0, record.as_slice()) {
        Ok(()) => {},
        Err(error) => return Err(error),
    }
    let fdt = match Fdt::from_bytes(0, blob.as_slice()) {
        Ok(fdt) => fdt,
        Err(fault) => return Err(EditError::Header(fault)),
    };
    match fdt.node_at_offset(end) {
        Some(node) => Ok((node.begin_offset, node.end_offset)),
        None => Err(EditError::BadStructure),
    }
}

/// Creates the nodes that `parts` lead through from place `first` on, starting at
/// the node from `begin` to `end`, where they are missing.
pub(crate) fn create_nodes(
    blob: &mut Vec<u8>,
    begin: usize,
    end: usize,
    parts: &Vec<Vec<u8>>,
    first: usize,
    Ghost(components): Ghost<Seq<Seq<u8>>>,
) -> (outcome: Result<(), EditError>)
    requires
        whole_tree(old(blob)@),
        parts_are(parts@, components),
        first <= parts@.len(),
    ensures
        (final(blob)@, outcome) == nodes_created(
            old(blob)@,
            begin as int,
            end as int,
            components.skip(first as int),
        ),
{
    let ghost whole = nodes_created(
        blob@,
        begin as int,
        end as int,
        components.skip(first as int),
    );
    let mut parent_begin: usize = begin;
    let mut parent_end: usize = end;
    let mut index: usize = first;
    while index < parts.len()
        invariant
            whole_tree(blob@),
            parts_are(parts@, components),
            first <= index <= parts@.len(),
            whole == nodes_created(
                old(blob)@,
                begin as int,
                end as int,
                components.skip(first as int),
            ),
            whole == nodes_created(
                blob@,
                parent_begin as int,
                parent_end as int,
                components.skip(index as int),
            ),
        decreases parts@.len() - index,
    {
        let name = parts[index].as_slice();
        proof {
            assert(name@ == components.skip(index as int)[0]);
            assert(components.skip(index as int).drop_first() =~= components.skip(index + 1));
        }
        if name.len() == 0 {
            return Err(EditError::InvalidPath);
        }
        let found = {
            let fdt = match Fdt::from_bytes(0, blob.as_slice()) {
                Ok(fdt) => fdt,
                Err(fault) => return Err(EditError::Header(fault)),
            };
            let parent = FdtNode { name: "", begin_offset: parent_begin, end_offset: parent_end };
            assert(child_named(fdt.structure(), parent.span(), name@) == child_named(
                fdt.structure(),
                place_of(parent_begin as int, parent_end as int),
                name@,
            ));
            match fdt.find_child_bytes(parent, name) {
                Some(child) => Some((child.begin_offset, child.end_offset)),
                None => None,
            }
        };
        match found {
            Some((child_begin, child_end)) => {
                parent_begin = child_begin;
                parent_end = child_end;
            },
            None => {
                match insert_child_node(blob, parent_end, name) {
                    Ok((child_begin, child_end)) => {
                        parent_begin = child_begin;
                        parent_end = child_end;
                    },
                    Err(error) => return Err(error),
                }
            },
        }
        index += 1;
    }
    Ok(())
}

/// The bytes of a tree in a larger space: zeros follow it, and its header tells the
/// new size.
pub open spec fn enlarged(tree: Seq<u8>, size: int) -> Seq<u8> {
    word_set(tree + Seq::new((size - tree.len()) as nat, |i: int| 0u8), 4, size as u32)
}

/// Copies a tree into a larger space.
pub(crate) fn enlarge(tree: &[u8], size: usize) -> (copy: Vec<u8>)
    requires
        tree@.len() <= size <= u32::MAX,
        8 <= size,
    ensures
        copy@ == enlarged(tree@, size as int),
{
    let mut copy = copy_range(tree, 0, tree.len());
    assert(copy@ =~= tree@ + Seq::new(0, |i: int| 0u8));
    while copy.len() < size
        invariant
            tree@.len() <= copy@.len() <= size,
            copy@ == tree@ + Seq::new((copy@.len() - tree@.len()) as nat, |i: int| 0u8),
        decreases size - copy@.len(),
    {
        let ghost before = copy@;
        copy.push(0);
        assert(copy@ =~= tree@ + Seq::new((copy@.len() - tree@.len()) as nat, |i: int| 0u8));
    }
    write_word(&mut copy, 4, size as u32);
    copy
}

/// A larger copy of a tree tells its own size.
pub proof fn enlarged_tree_tells_size(tree: Seq<u8>, size: int)
    requires
        tree.len() <= size <= u32::MAX,
        8 <= size,
    ensures
        enlarged(tree, size).len() == size,
        be32(enlarged(tree, size), 4) == size,
{
    let longer = tree + Seq::new((size - tree.len()) as nat, |i: int| 0u8);
    word_set_changes_word(longer, 4, size as u32);
}

/// A larger copy of a tree is a tree with the same blocks.
pub proof fn enlarged_tree_is_whole(tree: Seq<u8>, size: int)
    requires
        whole_tree(tree),
        tree.len() <= size <= u32::MAX,
    ensures
        whole_tree(enlarged(tree, size)),
        blocks_apart(tree) ==> blocks_apart(enlarged(tree, size)),
        structure_of(enlarged(tree, size)) == structure_of(tree),
        strings_of(enlarged(tree, size)) == strings_of(tree),
        enlarged(tree, size).len() == size,
        be32(enlarged(tree, size), 8) == be32(tree, 8),
        be32(enlarged(tree, size), 12) == be32(tree, 12),
        be32(enlarged(tree, size), 32) == be32(tree, 32),
        be32(enlarged(tree, size), 36) == be32(tree, 36),
{
    let longer = tree + Seq::new((size - tree.len()) as nat, |i: int| 0u8);
    let after = enlarged(tree, size);
    assert forall|word: int| 0 <= word <= 36 implies #[trigger] be32(longer, word) == be32(
        tree,
        word,
    ) by {
        be32_depends_on_four_bytes(longer, word, tree, word);
    }
    word_set_changes_word(longer, 4, size as u32);
    assert(be32(after, 0) == be32(longer, 0));
    assert(be32(after, 8) == be32(longer, 8));
    assert(be32(after, 12) == be32(longer, 12));
    assert(be32(after, 16) == be32(longer, 16));
    assert(be32(after, 20) == be32(longer, 20));
    assert(be32(after, 32) == be32(longer, 32));
    assert(be32(after, 36) == be32(longer, 36));
    assert(structure_of(after) =~= structure_of(tree));
    assert(strings_of(after) =~= strings_of(tree));
}

/// Errors of making room for a larger copy of a tree.
#[derive(Clone, Copy, Debug, PartialEq, Eq, Structural)]
pub enum CloneFault {
    /// The requested size is not larger than the tree.
    InvalidCloneSize,
    /// The size in whole pages does not fit into the header.
    SizeOverflow,
    /// Memory was not granted.
    Memory(MemoryError),
}

/// Number of pages that a clone of `size` bytes takes.
pub open spec fn clone_pages(size: int) -> int {
    (size + 4095) / 4096
}

/// The address of the memory for a larger copy of a tree, its size, and the memory
/// map with that memory taken; or why it is not granted.
pub open spec fn clone_granted(
    total: int,
    new_size: int,
    map: Seq<EFI_MEMORY_DESCRIPTOR>,
    capacity: nat,
) -> Result<(u64, int, Seq<EFI_MEMORY_DESCRIPTOR>), CloneFault> {
    let pages = clone_pages(new_size);
    if new_size <= total {
        Err(CloneFault::InvalidCloneSize)
    } else if pages * 4096 > u32::MAX {
        Err(CloneFault::SizeOverflow)
    } else {
        match allocation(
            map,
            EFI_ALLOCATE_TYPE::AllocateAnyPages,
            EFI_MEMORY_TYPE::EfiACPIReclaimMemory,
            pages as usize,
            0,
            capacity,
        ) {
            Err(error) => Err(CloneFault::Memory(error)),
            Ok((start, after)) => Ok((start, pages * 4096, after)),
        }
    }
}

/// Allocates the memory for a larger copy of a tree.
#[verifier::spinoff_prover]
#[verifier::rlimit(40)]
pub(crate) fn allocate_for_clone(
    total: usize,
    new_size: usize,
    allocator: &mut PageAllocator<'_>,
) -> (granted: Result<(u64, usize), CloneFault>)
    requires
        old(allocator).well_formed(),
    ensures
        final(allocator).well_formed(),
        final(allocator).capacity() == old(allocator).capacity(),
        final(final(allocator).buffer())@ == final(old(allocator).buffer())@,
        match granted {
            Ok((start, size)) => clone_granted(
                total as int,
                new_size as int,
                old(allocator).map(),
                old(allocator).capacity(),
            ) == Ok::<(u64, int, Seq<EFI_MEMORY_DESCRIPTOR>), CloneFault>(
                (start, size as int, final(allocator).map()),
            ) && total < size <= u32::MAX && size >= 4096,
            Err(fault) => clone_granted(
                total as int,
                new_size as int,
                old(allocator).map(),
                old(allocator).capacity(),
            ) == Err::<(u64, int, Seq<EFI_MEMORY_DESCRIPTOR>), CloneFault>(fault)
                && final(allocator).map() == old(allocator).map(),
        },
{
    if new_size <= total {
        return Err(CloneFault::InvalidCloneSize);
    }
    if new_size as u64 > 0xffff_f000 {
        return Err(CloneFault::SizeOverflow);
    }
    let page_count: usize = new_size / 4096 + if new_size % 4096 == 0 {
        0
    } else {
        1
    };
    let mut physical_start: u64 = 0;
    match allocator.AllocatePages(
        EFI_ALLOCATE_TYPE::AllocateAnyPages,
        EFI_MEMORY_TYPE::EfiACPIReclaimMemory,
        page_count,
        &mut physical_start,
    ) {
        Ok(()) => Ok((physical_start, page_count * 4096)),
        Err(error) => Err(CloneFault::Memory(error)),
    }
}

} // verus!
