//! Records of the structure block: how nodes and properties are written, and that
//! they are read back.

use vstd::prelude::*;
use vstd::utf8::*;
use crate::bytes::{
    aligned4, be32, be32_bytes, be32_depends_on_four_bytes, be32_round_trip, c_string, zero_from,
};
use crate::dtb_edit::EditError;
use crate::fdt_nodes::{
    after_begin, after_property, child_named, children_of, closing_from, closing_is_ahead,
    descendant, named_from, node_at, node_name, nodes_from, property_from, property_of,
    steps_advance, tag_at, NodeSpan,
};
use crate::fdt_splice::{
    closing_behind, descendant_survives, first_named, listed_to, listing_comes_to_end,
    listing_comes_to_node, listing_joins, listing_reaches, listing_survives, node_opens_inside,
    node_survives, reaches, reaching_closes_alike, reaching_joins, reaching_lifts, shifted, spliced,
    splices_words, steps_before, steps_behind, stretched, transparent,
};
use crate::fdt_tokens::{FDT_BEGIN_NODE, FDT_END_NODE, FDT_NOP, FDT_PROP};

verus! {

/// Zeros that bring `length` bytes to a multiple of four.
pub open spec fn padding(length: int) -> Seq<u8> {
    Seq::new((aligned4(length) - length) as nat, |i: int| 0u8)
}

/// The record of a property.
pub open spec fn property_record(name_offset: u32, value: Seq<u8>) -> Seq<u8> {
    be32_bytes(FDT_PROP) + be32_bytes(value.len() as u32) + be32_bytes(name_offset) + value
        + padding(value.len() as int)
}

/// The record of a node without properties and children.
pub open spec fn node_record(name: Seq<u8>) -> Seq<u8> {
    be32_bytes(FDT_BEGIN_NODE) + name.push(0u8) + padding((name.len() + 1) as int) + be32_bytes(
        FDT_END_NODE,
    )
}

/// Where the first property of a given name from `offset` up to `end` starts, and
/// how many bytes its record takes. Properties come before child nodes. A record whose
/// padding passes the end of the block is malformed.
pub open spec fn property_place(
    structure: Seq<u8>,
    strings: Seq<u8>,
    offset: int,
    end: int,
    name: Seq<u8>,
) -> Result<Option<(int, int)>, EditError>
    decreases structure.len() - offset,
{
    if offset >= end {
        Ok(None)
    } else {
        match tag_at(structure, offset) {
            Some(tag) => if tag == FDT_PROP {
                if offset + 12 > structure.len() {
                    Err(EditError::BadStructure)
                } else {
                    match (
                        c_string(strings, be32(structure, offset + 8) as int),
                        after_property(structure, offset),
                    ) {
                        (Some(found), Some(next)) => if next <= offset || next > structure.len() {
                            Err(EditError::BadStructure)
                        } else if found == name {
                            if next - offset < 12 + aligned4(be32(structure, offset + 4) as int) {
                                Err(EditError::BadStructure)
                            } else {
                                Ok(Some((offset, next - offset)))
                            }
                        } else {
                            property_place(structure, strings, next, end, name)
                        },
                        _ => Err(EditError::BadStructure),
                    }
                }
            } else if tag == FDT_NOP {
                property_place(structure, strings, offset + 4, end, name)
            } else if tag == FDT_BEGIN_NODE || tag == FDT_END_NODE {
                Ok(None)
            } else {
                Err(EditError::BadStructure)
            },
            None => Err(EditError::BadStructure),
        }
    }
}

/// Where a new property goes: behind the properties from `offset` up to `end`.
pub open spec fn insertion_place(structure: Seq<u8>, offset: int, end: int) -> Result<int, EditError>
    decreases structure.len() - offset,
{
    if offset >= end {
        Ok(end)
    } else {
        match tag_at(structure, offset) {
            Some(tag) => if tag == FDT_PROP {
                match after_property(structure, offset) {
                    Some(next) => if next <= offset || next > structure.len() {
                        Err(EditError::BadStructure)
                    } else {
                        insertion_place(structure, next, end)
                    },
                    None => Err(EditError::BadStructure),
                }
            } else if tag == FDT_NOP {
                insertion_place(structure, offset + 4, end)
            } else if tag == FDT_BEGIN_NODE || tag == FDT_END_NODE {
                Ok(offset)
            } else {
                Err(EditError::BadStructure)
            },
            None => Err(EditError::BadStructure),
        }
    }
}

/// Whether reading from `offset` comes to `target` over properties that do not
/// have a given name.
pub open spec fn passes(
    structure: Seq<u8>,
    strings: Seq<u8>,
    offset: int,
    target: int,
    name: Seq<u8>,
) -> bool
    decreases structure.len() - offset,
{
    if offset >= target {
        offset == target
    } else {
        match tag_at(structure, offset) {
            Some(tag) => if tag == FDT_PROP {
                match (
                    c_string(strings, be32(structure, offset + 8) as int),
                    after_property(structure, offset),
                ) {
                    (Some(found), Some(next)) => found != name && offset < next <= structure.len()
                        && passes(structure, strings, next, target, name),
                    _ => false,
                }
            } else if tag == FDT_NOP {
                passes(structure, strings, offset + 4, target, name)
            } else {
                false
            },
            None => false,
        }
    }
}

proof fn found_place_is_passed_to(
    structure: Seq<u8>,
    strings: Seq<u8>,
    offset: int,
    end: int,
    name: Seq<u8>,
)
    ensures
        property_place(structure, strings, offset, end, name) matches Ok(Some((place, length)))
            ==> passes(structure, strings, offset, place, name) && offset <= place < end && tag_at(
            structure,
            place,
        ) == Some(FDT_PROP) && after_property(structure, place) == Some(place + length) && length
            >= 12 && c_string(strings, be32(structure, place + 8) as int) == Some(name),
    decreases structure.len() - offset,
{
    steps_advance(structure, offset);
    if offset < end {
        if let Some(tag) = tag_at(structure, offset) {
            if tag == FDT_PROP {
                if let Some(next) = after_property(structure, offset) {
                    found_place_is_passed_to(structure, strings, next, end, name);
                }
            } else if tag == FDT_NOP {
                found_place_is_passed_to(structure, strings, offset + 4, end, name);
            }
        }
    }
}

proof fn insertion_place_is_passed_to(
    structure: Seq<u8>,
    strings: Seq<u8>,
    offset: int,
    end: int,
    name: Seq<u8>,
)
    requires
        closing_from(structure, offset, 1) == Some(end),
        property_place(structure, strings, offset, end, name) == Ok::<
            Option<(int, int)>,
            EditError,
        >(None),
    ensures
        insertion_place(structure, offset, end) matches Ok(place) && passes(
            structure,
            strings,
            offset,
            place,
            name,
        ) && offset <= place <= end,
    decreases structure.len() - offset,
{
    steps_advance(structure, offset);
    closing_is_ahead(structure, offset, 1);
    if offset < end {
        if let Some(tag) = tag_at(structure, offset) {
            if tag == FDT_PROP {
                let next = after_property(structure, offset)->0;
                insertion_place_is_passed_to(structure, strings, next, end, name);
            } else if tag == FDT_NOP {
                insertion_place_is_passed_to(structure, strings, offset + 4, end, name);
            }
        }
    }
}

pub proof fn passing_lists_nothing(
    structure: Seq<u8>,
    strings: Seq<u8>,
    offset: int,
    target: int,
    name: Seq<u8>,
)
    requires
        passes(structure, strings, offset, target, name),
    ensures
        listed_to(structure, offset, target) == Some(Seq::<NodeSpan>::empty()),
        offset <= target,
    decreases structure.len() - offset,
{
    if offset < target {
        steps_advance(structure, offset);
        let tag = tag_at(structure, offset)->0;
        if tag == FDT_PROP {
            let next = after_property(structure, offset)->0;
            passing_lists_nothing(structure, strings, next, target, name);
        } else {
            passing_lists_nothing(structure, strings, offset + 4, target, name);
        }
    }
}

proof fn passing_survives(
    block: Seq<u8>,
    place: int,
    old_length: int,
    part: Seq<u8>,
    strings: Seq<u8>,
    offset: int,
    target: int,
    name: Seq<u8>,
)
    requires
        splices_words(block, place, old_length, part),
        0 <= offset,
        target <= place,
        passes(block, strings, offset, target, name),
    ensures
        passes(spliced(block, place, old_length, part), strings, offset, target, name),
    decreases block.len() - offset,
{
    let after = spliced(block, place, old_length, part);
    if offset < target {
        steps_advance(block, offset);
        steps_advance(after, offset);
        steps_before(block, place, old_length, part, offset);
        let tag = tag_at(block, offset)->0;
        if tag == FDT_PROP {
            let next = after_property(block, offset)->0;
            passing_lists_nothing(block, strings, next, target, name);
            passing_survives(block, place, old_length, part, strings, next, target, name);
        } else {
            passing_lists_nothing(block, strings, offset + 4, target, name);
            passing_survives(block, place, old_length, part, strings, offset + 4, target, name);
        }
    }
}

proof fn property_behind_passed(
    structure: Seq<u8>,
    strings: Seq<u8>,
    offset: int,
    target: int,
    end: int,
    name: Seq<u8>,
)
    requires
        passes(structure, strings, offset, target, name),
        target <= end,
    ensures
        property_from(structure, strings, offset, end, name) == property_from(
            structure,
            strings,
            target,
            end,
            name,
        ),
    decreases structure.len() - offset,
{
    if offset < target {
        steps_advance(structure, offset);
        let tag = tag_at(structure, offset)->0;
        if tag == FDT_PROP {
            let next = after_property(structure, offset)->0;
            property_behind_passed(structure, strings, next, target, end, name);
        } else {
            property_behind_passed(structure, strings, offset + 4, target, end, name);
        }
    }
}

/// Tokens that are reached from an aligned one inside of the block are aligned.
pub proof fn reached_is_aligned(block: Seq<u8>, offset: int, depth: nat, target: int, final_depth: nat)
    requires
        offset % 4 == 0,
        target < block.len(),
        reaches(block, offset, depth, target, final_depth),
    ensures
        target % 4 == 0,
    decreases block.len() - offset,
{
    if offset < target {
        steps_advance(block, offset);
        let tag = tag_at(block, offset)->0;
        if tag == FDT_BEGIN_NODE {
            let next = after_begin(block, offset)->0;
            assert(next % 4 == 0 || next == block.len());
            if next < block.len() {
                reached_is_aligned(block, next, depth + 1, target, final_depth);
            } else {
                assert(reaches(block, next, depth + 1, target, final_depth));
            }
        } else if tag == FDT_END_NODE {
            reached_is_aligned(block, offset + 4, (depth - 1) as nat, target, final_depth);
        } else if tag == FDT_PROP {
            let next = after_property(block, offset)->0;
            assert(next % 4 == 0 || next == block.len());
            if next < block.len() {
                reached_is_aligned(block, next, depth, target, final_depth);
            } else {
                assert(reaches(block, next, depth, target, final_depth));
            }
        } else {
            reached_is_aligned(block, offset + 4, depth, target, final_depth);
        }
    }
}

/// A word of what was spliced in is read back.
proof fn word_reads_back(
    block: Seq<u8>,
    place: int,
    old_length: int,
    part: Seq<u8>,
    at: int,
    word: u32,
)
    requires
        0 <= place,
        0 <= old_length,
        place + old_length <= block.len(),
        0 <= at,
        at + 4 <= part.len(),
        part.subrange(at, at + 4) == be32_bytes(word),
    ensures
        be32(spliced(block, place, old_length, part), place + at) == word,
{
    let after = spliced(block, place, old_length, part);
    be32_round_trip(word);
    assert forall|i: int| 0 <= i < 4 implies after[place + at + i] == #[trigger] be32_bytes(
        word,
    )[0 + i] by {
        assert(after[place + at + i] == part[at + i]);
        assert(part.subrange(at, at + 4)[i] == part[at + i]);
    }
    be32_depends_on_four_bytes(after, place + at, be32_bytes(word), 0);
}

/// A property record that was spliced in is read back.
#[verifier::spinoff_prover]
pub proof fn property_record_reads_back(
    block: Seq<u8>,
    place: int,
    old_length: int,
    name_offset: u32,
    value: Seq<u8>,
)
    requires
        0 <= place,
        0 <= old_length,
        place + old_length <= block.len(),
        place % 4 == 0,
        value.len() <= u32::MAX,
    ensures
        ({
            let part = property_record(name_offset, value);
            let after = spliced(block, place, old_length, part);
            &&& part.len() == 12 + aligned4(value.len() as int)
            &&& tag_at(after, place) == Some(FDT_PROP)
            &&& be32(after, place + 4) == value.len()
            &&& be32(after, place + 8) == name_offset
            &&& after_property(after, place) == Some(place + part.len())
            &&& after.subrange(place + 12, place + 12 + value.len()) == value
        }),
{
    let part = property_record(name_offset, value);
    let after = spliced(block, place, old_length, part);
    assert(part.len() == 12 + aligned4(value.len() as int));
    assert(part.subrange(0, 4) =~= be32_bytes(FDT_PROP));
    assert(part.subrange(4, 8) =~= be32_bytes(value.len() as u32));
    assert(part.subrange(8, 12) =~= be32_bytes(name_offset));
    word_reads_back(block, place, old_length, part, 0, FDT_PROP);
    word_reads_back(block, place, old_length, part, 4, value.len() as u32);
    word_reads_back(block, place, old_length, part, 8, name_offset);
    assert forall|i: int| 0 <= i < part.len() implies after[place + i] == #[trigger] part[i] by {}
    let stored = after.subrange(place + 12, place + 12 + value.len());
    assert forall|i: int| 0 <= i < value.len() implies stored[i] == value[i] by {
        assert(part[12 + i] == value[i]);
    }
    assert(stored =~= value);
}

/// Nodes open at a property that is written close as before, moved.
pub proof fn property_splice_is_transparent(
    block: Seq<u8>,
    place: int,
    old_length: int,
    name_offset: u32,
    value: Seq<u8>,
)
    requires
        splices_words(block, place, old_length, property_record(name_offset, value)),
        place % 4 == 0,
        value.len() <= u32::MAX,
        old_length == 0 || (tag_at(block, place) == Some(FDT_PROP) && after_property(block, place)
            == Some(place + old_length)),
    ensures
        transparent(block, place, old_length, property_record(name_offset, value)),
{
    let part = property_record(name_offset, value);
    let after = spliced(block, place, old_length, part);
    let growth = part.len() - old_length;
    property_record_reads_back(block, place, old_length, name_offset, value);
    assert forall|depth: nat|
        #![trigger closing_from(block, place, depth)]
        depth >= 1 implies closing_from(after, place, depth) == shifted(
        closing_from(block, place, depth),
        growth,
    ) && (closing_from(block, place, depth) matches Some(end) ==> end >= place + old_length) by {
        closing_behind(block, place, old_length, part, place + old_length, depth);
        closing_is_ahead(block, place + old_length, depth);
        assert(closing_from(after, place, depth) == closing_from(
            after,
            place + part.len(),
            depth,
        ));
        if old_length > 0 {
            assert(closing_from(block, place, depth) == closing_from(
                block,
                place + old_length,
                depth,
            ));
        }
    }
}

/// A property behind a splice is read as before.
pub proof fn property_behind(
    block: Seq<u8>,
    place: int,
    old_length: int,
    part: Seq<u8>,
    strings: Seq<u8>,
    offset: int,
    end: int,
    name: Seq<u8>,
)
    requires
        splices_words(block, place, old_length, part),
        place + old_length <= offset,
    ensures
        ({
            let growth = part.len() - old_length;
            property_from(
                spliced(block, place, old_length, part),
                strings,
                offset + growth,
                end + growth,
                name,
            ) == property_from(block, strings, offset, end, name)
        }),
    decreases block.len() - offset,
{
    let after = spliced(block, place, old_length, part);
    let growth = part.len() - old_length;
    steps_behind(block, place, old_length, part, offset);
    steps_advance(block, offset);
    if offset < end {
        if let Some(tag) = tag_at(block, offset) {
            if tag == FDT_PROP {
                if let Some(next) = after_property(block, offset) {
                    property_behind(block, place, old_length, part, strings, next, end, name);
                    let length = be32(block, offset + 4);
                    let here = block.subrange(offset + 12, offset + 12 + length);
                    let there = after.subrange(
                        offset + growth + 12,
                        offset + growth + 12 + length,
                    );
                    assert forall|i: int| 0 <= i < here.len() implies there[i] == here[i] by {
                        assert(after[offset + growth + 12 + i] == block.skip(
                            place + old_length,
                        )[offset + 12 + i - place - old_length]);
                    }
                    assert(there =~= here);
                }
            } else if tag == FDT_NOP {
                property_behind(block, place, old_length, part, strings, offset + 4, end, name);
            }
        }
    }
}

/// A property of another name is read as before.
proof fn other_property_survives(
    block: Seq<u8>,
    place: int,
    old_length: int,
    name_offset: u32,
    value: Seq<u8>,
    strings: Seq<u8>,
    offset: int,
    end: int,
    name: Seq<u8>,
    other: Seq<u8>,
)
    requires
        splices_words(block, place, old_length, property_record(name_offset, value)),
        place % 4 == 0,
        value.len() <= u32::MAX,
        0 <= offset,
        place + old_length <= end,
        old_length == 0 || (tag_at(block, place) == Some(FDT_PROP) && after_property(block, place)
            == Some(place + old_length) && place < end && c_string(
            strings,
            be32(block, place + 8) as int,
        ) == Some(name)),
        c_string(strings, name_offset as int) == Some(name),
        passes(block, strings, offset, place, name),
        other != name,
    ensures
        property_from(
            spliced(block, place, old_length, property_record(name_offset, value)),
            strings,
            offset,
            end + property_record(name_offset, value).len() - old_length,
            other,
        ) == property_from(block, strings, offset, end, other),
    decreases block.len() - offset,
{
    let part = property_record(name_offset, value);
    let after = spliced(block, place, old_length, part);
    let growth = part.len() - old_length;
    property_record_reads_back(block, place, old_length, name_offset, value);
    if offset < place {
        steps_before(block, place, old_length, part, offset);
        steps_advance(block, offset);
        let tag = tag_at(block, offset)->0;
        if tag == FDT_PROP {
            let next = after_property(block, offset)->0;
            passing_lists_nothing(block, strings, next, place, name);
            other_property_survives(
                block,
                place,
                old_length,
                name_offset,
                value,
                strings,
                next,
                end,
                name,
                other,
            );
            let length = be32(block, offset + 4);
            assert(after.subrange(offset + 12, offset + 12 + length) =~= block.subrange(
                offset + 12,
                offset + 12 + length,
            ));
        } else {
            passing_lists_nothing(block, strings, offset + 4, place, name);
            other_property_survives(
                block,
                place,
                old_length,
                name_offset,
                value,
                strings,
                offset + 4,
                end,
                name,
                other,
            );
        }
    } else {
        property_behind(block, place, old_length, part, strings, place + old_length, end, other);
        assert(property_from(after, strings, place, end + growth, other) == property_from(
            after,
            strings,
            place + part.len(),
            end + growth,
            other,
        ));
        if old_length > 0 {
            assert(property_from(block, strings, place, end, other) == property_from(
                block,
                strings,
                place + old_length,
                end,
                other,
            ));
        }
    }
}

/// Where a property of a node is written, and how many bytes it replaces: over the
/// property of that name, or behind all properties.
pub open spec fn writing_place(
    structure: Seq<u8>,
    strings: Seq<u8>,
    node: NodeSpan,
    name: Seq<u8>,
) -> Result<(int, int), EditError> {
    match after_begin(structure, node.begin) {
        None => Err(EditError::BadStructure),
        Some(start) => match property_place(structure, strings, start, node.end, name) {
            Err(error) => Err(error),
            Ok(Some((place, length))) => Ok((place, length)),
            Ok(None) => match insertion_place(structure, start, node.end) {
                Err(error) => Err(error),
                Ok(place) => Ok((place, 0)),
            },
        },
    }
}

/// The place where a property is written is behind properties of other names,
/// inside of the node, and on a word.
pub proof fn writing_place_is_inside(
    structure: Seq<u8>,
    strings: Seq<u8>,
    root: NodeSpan,
    names: Seq<Seq<u8>>,
    node: NodeSpan,
    name: Seq<u8>,
    place: int,
    old_length: int,
)
    requires
        node_at(structure, 0) == Some(root),
        descendant(structure, root, names) == Some(node),
        writing_place(structure, strings, node, name) == Ok::<(int, int), EditError>(
            (place, old_length),
        ),
    ensures
        node_at(structure, node.begin) == Some(node),
        0 <= node.begin < place,
        after_begin(structure, node.begin) matches Some(start) && 0 <= start && passes(
            structure,
            strings,
            start,
            place,
            name,
        ),
        reaches(structure, node.begin, 0, place, 1),
        reaches(structure, 0, 0, place, (1 + names.len()) as nat),
        0 <= old_length,
        place + old_length <= node.end,
        node.end < structure.len(),
        place % 4 == 0,
        old_length % 4 == 0,
        old_length == 0 || (tag_at(structure, place) == Some(FDT_PROP) && after_property(
            structure,
            place,
        ) == Some(place + old_length) && place < node.end && c_string(
            strings,
            be32(structure, place + 8) as int,
        ) == Some(name)),
{
    found_node_is_there(structure, root, names);
    node_opens_inside(structure, node.begin);
    let start = after_begin(structure, node.begin)->0;
    assert(closing_from(structure, start, 1) == Some(node.end));
    found_place_is_passed_to(structure, strings, start, node.end, name);
    if property_place(structure, strings, start, node.end, name) == Ok::<
        Option<(int, int)>,
        EditError,
    >(None) {
        insertion_place_is_passed_to(structure, strings, start, node.end, name);
    }
    assert(passes(structure, strings, start, place, name));
    passing_lists_nothing(structure, strings, start, place, name);
    listing_reaches(structure, start, place, 1);
    assert(reaches(structure, node.begin, 0, place, 1));
    steps_advance(structure, place);
    reaching_closes_alike(structure, start, 1, place, 1);
    if old_length > 0 {
        assert(closing_from(structure, place, 1) == closing_from(structure, place + old_length, 1));
        closing_is_ahead(structure, place + old_length, 1);
    }
    assert(place + old_length <= node.end);
    root_reaches(structure, root, names, node, place, 1);
    reached_is_aligned(structure, 0, 0, place, (1 + names.len()) as nat);
    if old_length > 0 {
        assert(place + old_length < structure.len());
        assert((place + old_length) % 4 == 0);
    }
}

#[verifier::spinoff_prover]
#[verifier::rlimit(50)]
proof fn writing_keeps_nodes(
    structure: Seq<u8>,
    strings: Seq<u8>,
    root: NodeSpan,
    names: Seq<Seq<u8>>,
    node: NodeSpan,
    name: Seq<u8>,
    name_offset: u32,
    value: Seq<u8>,
    place: int,
    old_length: int,
)
    requires
        node_at(structure, 0) == Some(root),
        descendant(structure, root, names) == Some(node),
        c_string(strings, name_offset as int) == Some(name),
        value.len() <= u32::MAX,
        writing_place(structure, strings, node, name) == Ok::<(int, int), EditError>(
            (place, old_length),
        ),
    ensures
        ({
            let part = property_record(name_offset, value);
            let after = spliced(structure, place, old_length, part);
            let growth = part.len() - old_length;
            &&& splices_words(structure, place, old_length, part)
            &&& node_at(after, 0) == Some(stretched(root, growth))
            &&& descendant(after, stretched(root, growth), names) == Some(
                stretched(node, growth),
            )
            &&& after_begin(after, node.begin) == after_begin(structure, node.begin)
        }),
{
    let part = property_record(name_offset, value);
    writing_place_is_inside(
        structure,
        strings,
        root,
        names,
        node,
        name,
        place,
        old_length,
    );
    property_record_reads_back(structure, place, old_length, name_offset, value);
    assert(splices_words(structure, place, old_length, part));
    property_splice_is_transparent(structure, place, old_length, name_offset, value);
    descendant_survives(structure, place, old_length, part, root, names, node, 1);
    node_survives(structure, place, old_length, part, root, (1 + names.len()) as nat);
    node_survives(structure, place, old_length, part, node, 1);
}

proof fn written_value_reads_back(
    structure: Seq<u8>,
    strings: Seq<u8>,
    root: NodeSpan,
    names: Seq<Seq<u8>>,
    node: NodeSpan,
    name: Seq<u8>,
    name_offset: u32,
    value: Seq<u8>,
    place: int,
    old_length: int,
)
    requires
        node_at(structure, 0) == Some(root),
        descendant(structure, root, names) == Some(node),
        c_string(strings, name_offset as int) == Some(name),
        value.len() <= u32::MAX,
        writing_place(structure, strings, node, name) == Ok::<(int, int), EditError>(
            (place, old_length),
        ),
    ensures
        ({
            let part = property_record(name_offset, value);
            let after = spliced(structure, place, old_length, part);
            let growth = part.len() - old_length;
            property_of(after, strings, stretched(node, growth), name) == Some(value)
        }),
{
    let part = property_record(name_offset, value);
    let after = spliced(structure, place, old_length, part);
    let growth = part.len() - old_length;
    writing_place_is_inside(
        structure,
        strings,
        root,
        names,
        node,
        name,
        place,
        old_length,
    );
    writing_keeps_nodes(
        structure,
        strings,
        root,
        names,
        node,
        name,
        name_offset,
        value,
        place,
        old_length,
    );
    let start = after_begin(structure, node.begin)->0;
    property_record_reads_back(structure, place, old_length, name_offset, value);
    passing_survives(structure, place, old_length, part, strings, start, place, name);
    property_behind_passed(after, strings, start, place, node.end + growth, name);
}

/// A property that was written to a node is read back from it: the node is found
/// by the same names, its property has the written value, and its other
/// properties have the values that they had.
pub proof fn written_property_reads_back(
    structure: Seq<u8>,
    strings: Seq<u8>,
    root: NodeSpan,
    names: Seq<Seq<u8>>,
    node: NodeSpan,
    name: Seq<u8>,
    name_offset: u32,
    value: Seq<u8>,
    place: int,
    old_length: int,
)
    requires
        node_at(structure, 0) == Some(root),
        descendant(structure, root, names) == Some(node),
        c_string(strings, name_offset as int) == Some(name),
        value.len() <= u32::MAX,
        writing_place(structure, strings, node, name) == Ok::<(int, int), EditError>(
            (place, old_length),
        ),
    ensures
        ({
            let part = property_record(name_offset, value);
            let after = spliced(structure, place, old_length, part);
            let growth = part.len() - old_length;
            &&& splices_words(structure, place, old_length, part)
            &&& node_at(after, 0) == Some(stretched(root, growth))
            &&& descendant(after, stretched(root, growth), names) == Some(
                stretched(node, growth),
            )
            &&& property_of(after, strings, stretched(node, growth), name) == Some(value)
            &&& forall|other: Seq<u8>|
                #![trigger property_of(after, strings, stretched(node, growth), other)]
                other != name ==> property_of(after, strings, stretched(node, growth), other)
                    == property_of(structure, strings, node, other)
        }),
{
    let part = property_record(name_offset, value);
    let after = spliced(structure, place, old_length, part);
    let growth = part.len() - old_length;
    writing_place_is_inside(
        structure,
        strings,
        root,
        names,
        node,
        name,
        place,
        old_length,
    );
    writing_keeps_nodes(
        structure,
        strings,
        root,
        names,
        node,
        name,
        name_offset,
        value,
        place,
        old_length,
    );
    written_value_reads_back(
        structure,
        strings,
        root,
        names,
        node,
        name,
        name_offset,
        value,
        place,
        old_length,
    );
    let start = after_begin(structure, node.begin)->0;
    assert forall|other: Seq<u8>|
        #![trigger property_of(after, strings, stretched(node, growth), other)]
        other != name implies property_of(after, strings, stretched(node, growth), other)
        == property_of(structure, strings, node, other) by {
        other_property_survives(
            structure,
            place,
            old_length,
            name_offset,
            value,
            strings,
            start,
            node.end,
            name,
            other,
        );
    }
}

/// A node that names lead to is in the block.
pub proof fn found_node_is_there(structure: Seq<u8>, top: NodeSpan, names: Seq<Seq<u8>>)
    requires
        0 <= top.begin,
        node_at(structure, top.begin) == Some(top),
    ensures
        descendant(structure, top, names) matches Some(node) ==> node_at(structure, node.begin)
            == Some(node) && top.begin <= node.begin,
    decreases names.len(),
{
    if names.len() > 0 && names[0].len() > 0 {
        if let Some(child) = child_named(structure, top, names[0]) {
            child_is_there(structure, top, names[0]);
            found_node_is_there(structure, child, names.drop_first());
        }
    }
}

/// A child that a name leads to is in the block, behind the opening of its parent.
pub proof fn child_is_there(structure: Seq<u8>, parent: NodeSpan, name: Seq<u8>)
    requires
        0 <= parent.begin,
    ensures
        child_named(structure, parent, name) matches Some(child) ==> node_at(structure, child.begin)
            == Some(child) && parent.begin < child.begin && listed_to(
            structure,
            after_begin(structure, parent.begin)->0,
            child.begin,
        ) is Some,
{
    steps_advance(structure, parent.begin);
    if let Some(start) = after_begin(structure, parent.begin) {
        listed_child(structure, start, parent.end, name, 0);
    }
}

proof fn listed_child(structure: Seq<u8>, offset: int, end: int, name: Seq<u8>, from: int)
    requires
        0 <= from,
    ensures
        named_from(nodes_from(structure, offset, end), name, from) matches Some(child) ==> node_at(
            structure,
            child.begin,
        ) == Some(child) && offset <= child.begin && listed_to(structure, offset, child.begin) is Some,
    decreases nodes_from(structure, offset, end).len() - from,
{
    let nodes = nodes_from(structure, offset, end);
    if from < nodes.len() {
        if nodes[from].name == name {
            listing_comes_to_node(structure, offset, end, from);
        } else {
            listed_child(structure, offset, end, name, from + 1);
        }
    }
}

/// Reading from the top node comes to a place inside of a node below it.
pub proof fn root_reaches(
    structure: Seq<u8>,
    top: NodeSpan,
    names: Seq<Seq<u8>>,
    node: NodeSpan,
    place: int,
    depth: nat,
)
    requires
        0 <= top.begin,
        node_at(structure, top.begin) == Some(top),
        descendant(structure, top, names) == Some(node),
        node.begin < place,
        reaches(structure, node.begin, 0, place, depth),
    ensures
        reaches(structure, top.begin, 0, place, depth + names.len()),
        top.begin <= node.begin,
    decreases names.len(),
{
    if names.len() > 0 {
        let child = child_named(structure, top, names[0])->0;
        child_is_there(structure, top, names[0]);
        root_reaches(structure, child, names.drop_first(), node, place, depth);
        let deep = (depth + names.drop_first().len()) as nat;
        let start = after_begin(structure, top.begin)->0;
        node_opens_inside(structure, top.begin);
        listing_reaches(structure, start, child.begin, 1);
        reaching_lifts(structure, child.begin, 0, place, deep, 1);
        reaching_joins(
            structure,
            start,
            1,
            child.begin,
            1,
            place,
            (deep + 1) as nat,
        );
        passing_lists_ahead(structure, start, child.begin);
    }
}

proof fn passing_lists_ahead(structure: Seq<u8>, offset: int, target: int)
    requires
        listed_to(structure, offset, target) is Some,
    ensures
        offset <= target,
{
}

proof fn first_zero(bytes: Seq<u8>, from: int, end: int)
    requires
        0 <= from <= end < bytes.len(),
        bytes[end] == 0,
        forall|i: int| from <= i < end ==> bytes[i] != 0,
    ensures
        zero_from(bytes, from) == Some(end),
    decreases end - from,
{
    if from < end {
        first_zero(bytes, from + 1, end);
    }
}

/// What the record of a node holds where.
proof fn node_record_layout(name: Seq<u8>)
    ensures
        ({
            let part = node_record(name);
            &&& part.len() == 8 + aligned4((name.len() + 1) as int)
            &&& part.subrange(0, 4) == be32_bytes(FDT_BEGIN_NODE)
            &&& part.subrange(4, 4 + name.len() as int) == name
            &&& part[4 + name.len() as int] == 0
            &&& part.subrange(part.len() - 4, part.len() as int) == be32_bytes(FDT_END_NODE)
        }),
{
    let part = node_record(name);
    assert(part.subrange(0, 4) =~= be32_bytes(FDT_BEGIN_NODE));
    assert(part.subrange(4, 4 + name.len() as int) =~= name);
    assert(part.subrange(part.len() - 4, part.len() as int) =~= be32_bytes(FDT_END_NODE));
}

/// The name of a node record that was spliced in is read back.
proof fn node_record_name_reads_back(block: Seq<u8>, place: int, name: Seq<u8>)
    requires
        0 <= place < block.len(),
        valid_utf8(name),
        forall|i: int| 0 <= i < name.len() ==> name[i] != 0,
    ensures
        c_string(spliced(block, place, 0, node_record(name)), place + 4) == Some(name),
        zero_from(spliced(block, place, 0, node_record(name)), place + 4) == Some(
            place + 4 + name.len(),
        ),
{
    let part = node_record(name);
    let after = spliced(block, place, 0, part);
    node_record_layout(name);
    assert forall|i: int| 0 <= i < part.len() implies after[place + i] == #[trigger] part[i] by {}
    let end = place + 4 + name.len();
    assert(after[end] == part[4 + name.len() as int]);
    let stored = part.subrange(4, 4 + name.len() as int);
    assert forall|i: int| place + 4 <= i < end implies after[i] == name[i - place - 4] by {
        assert(after[i] == part[i - place]);
        assert(stored[i - place - 4] == part[i - place]);
    }
    first_zero(after, place + 4, end);
    assert(after.subrange(place + 4, end) =~= name);
}

/// A multiple of four moves what is rounded up to one.
proof fn alignment_moves(place: int, length: int)
    requires
        place % 4 == 0,
    ensures
        aligned4(place + length) == place + aligned4(length),
{
}

/// A node record that was spliced in is read back.
#[verifier::spinoff_prover]
pub proof fn node_record_reads_back(block: Seq<u8>, place: int, name: Seq<u8>)
    requires
        0 <= place < block.len(),
        place % 4 == 0,
        valid_utf8(name),
        forall|i: int| 0 <= i < name.len() ==> name[i] != 0,
    ensures
        ({
            let part = node_record(name);
            let after = spliced(block, place, 0, part);
            &&& part.len() == 8 + aligned4((name.len() + 1) as int)
            &&& node_name(after, place) == Some(name)
            &&& after_begin(after, place) == Some(place + part.len() - 4)
            &&& tag_at(after, place) == Some(FDT_BEGIN_NODE)
            &&& tag_at(after, place + part.len() - 4) == Some(FDT_END_NODE)
        }),
{
    let part = node_record(name);
    let after = spliced(block, place, 0, part);
    node_record_layout(name);
    assert(after.len() == block.len() + part.len());
    word_reads_back(block, place, 0, part, 0, FDT_BEGIN_NODE);
    assert(tag_at(after, place) == Some(FDT_BEGIN_NODE));
    word_reads_back(block, place, 0, part, part.len() - 4, FDT_END_NODE);
    assert(tag_at(after, place + part.len() - 4) == Some(FDT_END_NODE));
    node_record_name_reads_back(block, place, name);
    assert(node_name(after, place) == Some(name));
    alignment_moves(place + 4, (name.len() + 1) as int);
}

pub proof fn node_splice_is_transparent(block: Seq<u8>, place: int, name: Seq<u8>)
    requires
        splices_words(block, place, 0, node_record(name)),
        place % 4 == 0,
        valid_utf8(name),
        forall|i: int| 0 <= i < name.len() ==> name[i] != 0,
    ensures
        transparent(block, place, 0, node_record(name)),
        ({
            let part = node_record(name);
            node_at(spliced(block, place, 0, part), place) == Some(
                NodeSpan { name, begin: place, end: place + part.len() - 4 },
            )
        }),
{
    let part = node_record(name);
    let after = spliced(block, place, 0, part);
    node_record_reads_back(block, place, name);
    let inside = place + part.len() - 4;
    assert forall|depth: nat|
        #![trigger closing_from(block, place, depth)]
        depth >= 1 implies closing_from(after, place, depth) == shifted(
        closing_from(block, place, depth),
        part.len() as int,
    ) && (closing_from(block, place, depth) matches Some(end) ==> end >= place) by {
        closing_behind(block, place, 0, part, place, depth);
        closing_is_ahead(block, place, depth);
        assert(closing_from(after, place, depth) == closing_from(after, inside, depth + 1));
        assert(closing_from(after, inside, depth + 1) == closing_from(after, inside + 4, depth));
    }
    assert(closing_from(after, place, 0) == closing_from(after, inside, 1));
}

proof fn unnamed_means_none(nodes: Seq<NodeSpan>, name: Seq<u8>, from: int)
    requires
        named_from(nodes, name, from) is None,
        0 <= from,
    ensures
        forall|i: int| from <= i < nodes.len() ==> (#[trigger] nodes[i]).name != name,
    decreases nodes.len() - from,
{
    if from < nodes.len() {
        unnamed_means_none(nodes, name, from + 1);
    }
}

/// One more name leads from the node that the others lead to.
pub proof fn last_name_leads_on(
    structure: Seq<u8>,
    top: NodeSpan,
    names: Seq<Seq<u8>>,
    name: Seq<u8>,
)
    ensures
        descendant(structure, top, names.push(name)) == match descendant(structure, top, names) {
            Some(node) => if name.len() == 0 {
                None
            } else {
                child_named(structure, node, name)
            },
            None => None,
        },
    decreases names.len(),
{
    let longer = names.push(name);
    if names.len() == 0 {
        assert(longer.drop_first() =~= Seq::empty());
        assert(longer[0] == name);
        if name.len() > 0 {
            if let Some(child) = child_named(structure, top, name) {
                assert(descendant(structure, child, longer.drop_first()) == Some(child));
            }
        }
    } else {
        assert(longer[0] == names[0]);
        assert(longer.drop_first() =~= names.drop_first().push(name));
        if names[0].len() > 0 {
            if let Some(child) = child_named(structure, top, names[0]) {
                last_name_leads_on(structure, child, names.drop_first(), name);
            }
        }
    }
}

/// A node that was inserted at the end of a node is found there by its name, and
/// the node around it is found by the names that led to it before.
pub proof fn inserted_node_is_found(
    structure: Seq<u8>,
    root: NodeSpan,
    names: Seq<Seq<u8>>,
    parent: NodeSpan,
    name: Seq<u8>,
)
    requires
        node_at(structure, 0) == Some(root),
        descendant(structure, root, names) == Some(parent),
        child_named(structure, parent, name) is None,
        name.len() > 0,
        valid_utf8(name),
        forall|i: int| 0 <= i < name.len() ==> name[i] != 0,
    ensures
        ({
            let part = node_record(name);
            let growth = part.len() as int;
            let after = spliced(structure, parent.end, 0, part);
            let added = NodeSpan { name, begin: parent.end, end: parent.end + growth - 4 };
            &&& 0 <= parent.end < structure.len()
            &&& node_at(after, 0) == Some(stretched(root, growth))
            &&& node_at(after, parent.end) == Some(added)
            &&& descendant(after, stretched(root, growth), names) == Some(
                stretched(parent, growth),
            )
            &&& descendant(after, stretched(root, growth), names.push(name)) == Some(added)
        }),
{
    let part = node_record(name);
    let growth = part.len() as int;
    let place = parent.end;
    let after = spliced(structure, place, 0, part);
    found_node_is_there(structure, root, names);
    node_opens_inside(structure, parent.begin);
    let start = after_begin(structure, parent.begin)->0;
    assert(closing_from(structure, start, 1) == Some(place));
    listing_comes_to_end(structure, start);
    listing_reaches(structure, start, place, 1);
    assert(reaches(structure, parent.begin, 0, place, 1));
    root_reaches(structure, root, names, parent, place, 1);
    reached_is_aligned(structure, 0, 0, place, (1 + names.len()) as nat);
    assert(part.len() % 4 == 0) by {
        node_record_reads_back(structure, place, name);
    }
    assert(splices_words(structure, place, 0, part));
    node_splice_is_transparent(structure, place, name);
    descendant_survives(structure, place, 0, part, root, names, parent, 1);
    node_survives(structure, place, 0, part, root, (1 + names.len()) as nat);
    node_survives(structure, place, 0, part, parent, 1);
    let children = children_of(structure, parent);
    let passed = listed_to(structure, start, place)->0;
    listing_joins(structure, start, place, place);
    assert(passed + Seq::<NodeSpan>::empty() =~= passed);
    assert(children == passed);
    listing_survives(structure, place, 0, part, start, place);
    let grown = stretched(parent, growth);
    listing_joins(after, start, place, grown.end);
    let tail = nodes_from(after, place, grown.end);
    let added = NodeSpan { name, begin: place, end: place + growth - 4 };
    node_record_reads_back(structure, place, name);
    assert(tail.len() > 0 && tail[0] == added);
    let all = children_of(after, grown);
    assert(all == passed + tail);
    unnamed_means_none(children, name, 0);
    assert forall|j: int| 0 <= j < passed.len() implies (#[trigger] all[j]).name != name by {
        assert(all[j] == children[j]);
    }
    assert(all[passed.len() as int] == added);
    first_named(all, name, 0, passed.len() as int);
    last_name_leads_on(after, stretched(root, growth), names, name);
}

} // verus!
