//! Where names and properties go in a device tree that is changed.

use vstd::prelude::*;
use vstd::utf8::*;
use crate::bytes::{c_string, zero_from};
use crate::dtb::{bytes_inserted, inserted_bytes_read_back, text_inserted};
use crate::dtb_change::plain_name;
use crate::dtb_edit::{
    string_appended, string_ensured, string_offset, strings_come_last, strings_within, used_end,
    EditError,
};
use crate::dtb_read::strings_of;
use crate::fdt_laws::{
    node_fits, node_image, node_length, node_parts, nodes_image, opening_image, opening_is_read,
    properties_fit, properties_image, properties_length, property_image, property_is_read, span_of,
    TreeNode, TreeProperty,
};
use crate::fdt_nodes::tag_at;
use crate::fdt_records::{insertion_place, property_place, writing_place};
use crate::records::{stored, stored_is_there, stored_parts, stored_whole};

verus! {

/// Names one behind the other, each with a terminator.
pub open spec fn names_image(names: Seq<Seq<u8>>) -> Seq<u8>
    decreases names.len(),
{
    if names.len() == 0 {
        Seq::empty()
    } else {
        names[0].push(0u8) + names_image(names.drop_first())
    }
}

/// Where a name first stands among names.
pub open spec fn name_offset(names: Seq<Seq<u8>>, name: Seq<u8>) -> Option<int>
    decreases names.len(),
{
    if names.len() == 0 {
        None
    } else if names[0] == name {
        Some(0)
    } else {
        match name_offset(names.drop_first(), name) {
            Some(offset) => Some(offset + names[0].len() + 1),
            None => None,
        }
    }
}

/// The first terminator behind a name.
proof fn name_ends(bytes: Seq<u8>, from: int, end: int)
    requires
        0 <= from <= end < bytes.len(),
        forall|i: int| from <= i < end ==> bytes[i] != 0,
        bytes[end] == 0,
    ensures
        zero_from(bytes, from) == Some(end),
    decreases end - from,
{
    if from < end {
        name_ends(bytes, from + 1, end);
    }
}

proof fn name_is_looked_up(strings: Seq<u8>, at: int, names: Seq<Seq<u8>>, name: Seq<u8>)
    requires
        0 <= at,
        strings.len() == at + names_image(names).len(),
        stored(strings, at, names_image(names)),
        forall|i: int| 0 <= i < names.len() ==> plain_name(#[trigger] names[i]),
    ensures
        string_offset(strings, at, name) == match name_offset(names, name) {
            Some(offset) => Ok::<Option<int>, EditError>(Some(at + offset)),
            None => Ok(None),
        },
    decreases names.len(),
{
    if names.len() > 0 {
        let first = names[0];
        let rest = names.drop_first();
        let text = first.push(0u8);
        stored_parts(strings, at, text, names_image(rest));
        stored_is_there(strings, at, text);
        assert(plain_name(names[0]));
        let end = at + first.len();
        assert(strings[at + first.len()] == text[first.len() as int]);
        assert forall|i: int| at <= i < end implies strings[i] != 0 by {
            assert(strings[at + (i - at)] == text[i - at]);
            assert(text[i - at] == first[i - at]);
        }
        name_ends(strings, at, end);
        assert(strings.subrange(at, end) =~= first) by {
            assert forall|i: int| 0 <= i < first.len() implies strings[at + i] == first[i] by {
                assert(strings[at + i] == text[i]);
            }
        }
        assert forall|i: int| 0 <= i < rest.len() implies plain_name(#[trigger] rest[i]) by {
            assert(rest[i] == names[i + 1]);
        }
        name_is_looked_up(strings, end + 1, rest, name);
    }
}

/// A name that a strings block already holds is used where it stands first, and the blob is
/// left as it is. Another one goes behind the names that the block holds, where there is room.
pub proof fn known_name_is_used(blob: Seq<u8>, names: Seq<Seq<u8>>, name: Seq<u8>)
    requires
        strings_come_last(blob),
        strings_of(blob) == names_image(names),
        forall|i: int| 0 <= i < names.len() ==> plain_name(#[trigger] names[i]),
    ensures
        match name_offset(names, name) {
            Some(offset) => string_ensured(blob, blob.len() as int, name) == (
                blob,
                Ok::<u32, EditError>(offset as u32),
            ) && c_string(strings_of(blob), offset) == Some(name),
            None => if used_end(blob) + name.len() + 1 > blob.len() {
                string_ensured(blob, blob.len() as int, name) == (
                    blob,
                    Err::<u32, EditError>(EditError::BufferTooSmall),
                )
            } else {
                string_ensured(blob, blob.len() as int, name) == (
                    string_appended(blob, name),
                    Ok::<u32, EditError>(names_image(names).len() as u32),
                )
            },
        },
{
    let strings = strings_of(blob);
    assert(strings_within(blob, blob.len() as int) =~= strings);
    stored_whole(strings);
    name_is_looked_up(strings, 0, names, name);
    if let Some(offset) = name_offset(names, name) {
        named_string_is_read(strings, 0, names, name);
    }
}

proof fn named_string_is_read(strings: Seq<u8>, at: int, names: Seq<Seq<u8>>, name: Seq<u8>)
    requires
        0 <= at,
        stored(strings, at, names_image(names)),
        forall|i: int| 0 <= i < names.len() ==> plain_name(#[trigger] names[i]),
        name_offset(names, name) is Some,
    ensures
        c_string(strings, at + name_offset(names, name)->0) == Some(name),
    decreases names.len(),
{
    let first = names[0];
    let rest = names.drop_first();
    let text = first.push(0u8);
    stored_parts(strings, at, text, names_image(rest));
    stored_is_there(strings, at, text);
    assert(plain_name(names[0]));
    if first == name {
        let end = at + first.len();
        assert(strings[at + first.len()] == text[first.len() as int]);
        assert forall|i: int| at <= i < end implies strings[i] != 0 by {
            assert(strings[at + (i - at)] == text[i - at]);
            assert(text[i - at] == first[i - at]);
        }
        name_ends(strings, at, end);
        assert(strings.subrange(at, end) =~= first) by {
            assert forall|i: int| 0 <= i < first.len() implies strings[at + i] == first[i] by {
                assert(strings[at + i] == text[i]);
            }
        }
    } else {
        assert forall|i: int| 0 <= i < rest.len() implies plain_name(#[trigger] rest[i]) by {
            assert(rest[i] == names[i + 1]);
        }
        named_string_is_read(strings, at + first.len() + 1, rest, name);
    }
}

/// Where the first property of a name stands among properties, and how long its record is.
pub open spec fn property_at(properties: Seq<TreeProperty>, name: Seq<u8>) -> Option<(int, int)>
    decreases properties.len(),
{
    if properties.len() == 0 {
        None
    } else {
        let length = property_image(properties[0]).len() as int;
        if properties[0].name == name {
            Some((0, length))
        } else {
            match property_at(properties.drop_first(), name) {
                Some((offset, size)) => Some((offset + length, size)),
                None => None,
            }
        }
    }
}

#[verifier::spinoff_prover]
#[verifier::rlimit(40)]
proof fn property_is_placed(
    structure: Seq<u8>,
    strings: Seq<u8>,
    at: int,
    properties: Seq<TreeProperty>,
    end: int,
    name: Seq<u8>,
)
    requires
        at % 4 == 0,
        stored(structure, at, properties_image(properties)),
        properties_fit(properties, strings),
        at + properties_image(properties).len() < structure.len(),
        at + properties_image(properties).len() <= end,
        at + properties_image(properties).len() == end || tag_at(
            structure,
            at + properties_image(properties).len(),
        ) == Some(1u32),
    ensures
        property_place(structure, strings, at, end, name) == match property_at(properties, name) {
            Some((offset, length)) => Ok::<Option<(int, int)>, EditError>(
                Some((at + offset, length)),
            ),
            None => Ok(None),
        },
        insertion_place(structure, at, end) == Ok::<int, EditError>(
            at + properties_image(properties).len(),
        ),
    decreases properties.len(),
{
    if properties.len() > 0 {
        let first = properties[0];
        let rest = properties.drop_first();
        stored_parts(structure, at, property_image(first), properties_image(rest));
        assert(properties[0].value.len() <= u32::MAX && c_string(
            strings,
            properties[0].name_offset as int,
        ) == Some(properties[0].name));
        property_is_read(structure, at, first);
        crate::fdt_laws::property_length(first);
        assert forall|i: int| 0 <= i < rest.len() implies (#[trigger] rest[i]).value.len()
            <= u32::MAX && c_string(strings, rest[i].name_offset as int) == Some(
            rest[i].name,
        ) by {
            assert(rest[i] == properties[i + 1]);
        }
        property_is_placed(
            structure,
            strings,
            at + property_image(first).len(),
            rest,
            end,
            name,
        );
    }
}

/// A property that a node has is replaced where it stands, as a whole. A new one goes behind
/// the properties of the node, before its children.
#[verifier::spinoff_prover]
#[verifier::rlimit(40)]
pub proof fn property_goes_to_its_place(
    structure: Seq<u8>,
    strings: Seq<u8>,
    at: int,
    node: TreeNode,
    name: Seq<u8>,
)
    requires
        at % 4 == 0,
        stored(structure, at, node_image(node)),
        at + node_image(node).len() < structure.len(),
        node_fits(node, strings),
    ensures
        ({
            let inside = at + opening_image(node.name).len();
            writing_place(structure, strings, span_of(node, at), name) == match property_at(
                node.properties,
                name,
            ) {
                Some((offset, length)) => Ok::<(int, int), EditError>((inside + offset, length)),
                None => Ok((inside + properties_image(node.properties).len(), 0)),
            }
        }),
{
    node_parts(structure, at, node);
    node_length(node);
    opening_is_read(structure, at, node.name);
    let inside = at + opening_image(node.name).len();
    let below = inside + properties_image(node.properties).len();
    let end = span_of(node, at).end;
    properties_length(node.properties);
    if node.children.len() > 0 {
        let first = node.children[0];
        let rest = nodes_image(node.children.drop_first());
        stored_parts(structure, below, node_image(first), rest);
        node_parts(structure, below, first);
        node_length(first);
        assert(crate::fdt_laws::nodes_fit(node.children, strings));
        assert(node_fits(first, strings));
        opening_is_read(structure, below, first.name);
    } else {
        assert(below == end);
    }
    property_is_placed(structure, strings, inside, node.properties, end, name);
}

/// Bytes are written at an offset exactly when they end inside of the blob; else nothing
/// changes.
pub proof fn bytes_are_written_where_they_fit(
    blob: Seq<u8>,
    size: usize,
    offset: usize,
    bytes: Seq<u8>,
)
    ensures
        match bytes_inserted(blob, size as int, offset, bytes) {
            (_, Ok(next)) => next == offset + bytes.len() <= size,
            (after, Err(error)) => offset + bytes.len() > size && after == blob && (error
                is SizeOverflow <==> offset + bytes.len() > usize::MAX) && (error is BufferTooSmall
                <==> offset + bytes.len() <= usize::MAX),
        },
{
}

/// A text is written with a zero behind it, exactly when both fit, and nothing else changes.
pub proof fn written_text_is_terminated(blob: Seq<u8>, size: usize, offset: usize, text: Seq<u8>)
    requires
        size <= blob.len(),
    ensures
        text_inserted(blob, size as int, offset, text).1 is Ok <==> offset + text.len() < size,
        ({
            let (after, outcome) = text_inserted(blob, size as int, offset, text);
            outcome matches Ok(next) ==> next == offset + text.len() + 1 && after.len()
                == blob.len() && after.subrange(offset as int, next as int) == text.push(0)
                && forall|i: int|
                0 <= i < blob.len() && !(offset <= i < next) ==> after[i] == blob[i]
        }),
{
    let (middle, first) = bytes_inserted(blob, size as int, offset, text);
    if let Ok(next) = first {
        inserted_bytes_read_back(blob, size as int, offset, text);
        let (after, second) = bytes_inserted(middle, size as int, next, seq![0u8]);
        if let Ok(end) = second {
            inserted_bytes_read_back(middle, size as int, next, seq![0u8]);
            let there = after.subrange(offset as int, end as int);
            assert(after.subrange(next as int, end as int)[0] == 0);
            assert forall|i: int| 0 <= i < text.len() implies there[i] == text[i] by {
                assert(middle.subrange(offset as int, next as int)[i] == text[i]);
            }
            assert(there =~= text.push(0));
        }
    }
}

} // verus!
