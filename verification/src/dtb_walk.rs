//! Walking through a device tree by offsets from the start of its blob.
//!
//! A blob takes `size` bytes. Only its header may be longer than that. Nothing else is
//! known of a blob: the walk stops with an error where it leaves the blob or comes to a
//! malformed token.

use vstd::prelude::*;
use crate::bytes::{aligned4, be32, bytes_equal, c_string, read_be_u32_from_slice, read_c_string};
use crate::dtb_change::{push_padded, push_word};
use crate::dtb_edit::{
    ensure_string, replace_in_structure, replacement_error, replacement_keeps_length,
    string_ensured, strings_within, structure_replaced, EditError,
};
use crate::fdt_records::{node_record, property_record};
use crate::fdt_tokens::{FDT_BEGIN_NODE, FDT_END_NODE, FDT_NOP, FDT_PROP};
use crate::path::parts_are;

verus! {

/// Whether a blob of `size` bytes and its header can be read.
pub open spec fn readable(bytes: Seq<u8>, size: int) -> bool {
    &&& 40 <= bytes.len()
    &&& 0 <= size <= bytes.len()
    &&& size <= u32::MAX
}

/// The end of the structure block, or of the blob where that comes first.
pub open spec fn structure_limit(bytes: Seq<u8>, size: int) -> int {
    let end = be32(bytes, 8) + be32(bytes, 36);
    if end < size {
        end
    } else {
        size
    }
}

/// The word at an offset.
pub open spec fn word_at(bytes: Seq<u8>, size: int, offset: int) -> Result<u32, EditError> {
    if offset + 4 > size {
        Err(EditError::BufferTooSmall)
    } else {
        Ok(be32(bytes, offset))
    }
}

/// The name of the node that opens at an offset, and the offset behind it.
pub open spec fn name_from(bytes: Seq<u8>, size: int, offset: int) -> Result<
    (Seq<u8>, int),
    EditError,
> {
    match word_at(bytes, size, offset) {
        Err(error) => Err(error),
        Ok(tag) => if tag != FDT_BEGIN_NODE {
            Err(EditError::BadStructure)
        } else {
            match c_string(bytes.take(structure_limit(bytes, size)), offset + 4) {
                Some(name) => Ok((name, aligned4((offset + 4 + name.len() + 1) as int))),
                None => Err(EditError::BadStructure),
            }
        },
    }
}

/// The offset behind the property at an offset.
pub open spec fn behind_property(bytes: Seq<u8>, size: int, offset: int) -> Result<int, EditError> {
    match word_at(bytes, size, offset + 4) {
        Err(error) => Err(error),
        Ok(length) => if offset + 12 + length > size {
            Err(EditError::BufferTooSmall)
        } else {
            Ok(aligned4(offset + 12 + length))
        },
    }
}

/// How much of a blob is left behind an offset.
pub open spec fn left_behind(size: int, offset: int) -> int {
    if offset < size {
        size - offset
    } else {
        0
    }
}

/// The offset of the token that closes the outermost of `depth` open nodes, when
/// reading goes on from `offset`.
pub open spec fn closing_at(bytes: Seq<u8>, size: int, offset: int, depth: nat) -> Result<
    int,
    EditError,
>
    decreases left_behind(size, offset),
{
    match word_at(bytes, size, offset) {
        Err(error) => Err(error),
        Ok(tag) => if tag == FDT_BEGIN_NODE {
            match name_from(bytes, size, offset) {
                Err(error) => Err(error),
                Ok((_, next)) => if next <= offset {
                    Err(EditError::BadStructure)
                } else {
                    closing_at(bytes, size, next, depth + 1)
                },
            }
        } else if tag == FDT_END_NODE {
            if depth == 0 {
                Err(EditError::BadStructure)
            } else if depth == 1 {
                Ok(offset)
            } else {
                closing_at(bytes, size, offset + 4, (depth - 1) as nat)
            }
        } else if tag == FDT_PROP {
            match behind_property(bytes, size, offset) {
                Err(error) => Err(error),
                Ok(next) => closing_at(bytes, size, next, depth),
            }
        } else if tag == FDT_NOP {
            closing_at(bytes, size, offset + 4, depth)
        } else {
            Err(EditError::BadStructure)
        },
    }
}

/// Where the root node opens and closes.
pub open spec fn root_place(bytes: Seq<u8>, size: int) -> Result<(int, int), EditError> {
    let begin = be32(bytes, 8) as int;
    match word_at(bytes, size, begin) {
        Err(error) => Err(error),
        Ok(tag) => if tag != FDT_BEGIN_NODE {
            Err(EditError::BadStructure)
        } else {
            match closing_at(bytes, size, begin, 0) {
                Err(error) => Err(error),
                Ok(end) => Ok((begin, end)),
            }
        },
    }
}

/// Where the first child of a given name opens and closes, from `offset` up to `end` where
/// the parent closes, with `depth` nodes open inside of it.
pub open spec fn child_from(
    bytes: Seq<u8>,
    size: int,
    offset: int,
    end: int,
    depth: nat,
    name: Seq<u8>,
) -> Result<Option<(int, int)>, EditError>
    decreases left_behind(size, offset),
{
    if offset >= end {
        Ok(None)
    } else {
        match word_at(bytes, size, offset) {
            Err(error) => Err(error),
            Ok(tag) => if tag == FDT_BEGIN_NODE {
                match name_from(bytes, size, offset) {
                    Err(error) => Err(error),
                    Ok((found, next)) => if depth == 0 && found == name {
                        match closing_at(bytes, size, offset, 0) {
                            Err(error) => Err(error),
                            Ok(close) => Ok(Some((offset, close))),
                        }
                    } else if next <= offset {
                        Err(EditError::BadStructure)
                    } else {
                        child_from(bytes, size, next, end, depth + 1, name)
                    },
                }
            } else if tag == FDT_END_NODE {
                if depth == 0 {
                    Err(EditError::BadStructure)
                } else {
                    child_from(bytes, size, offset + 4, end, (depth - 1) as nat, name)
                }
            } else if tag == FDT_PROP {
                match behind_property(bytes, size, offset) {
                    Err(error) => Err(error),
                    Ok(next) => child_from(bytes, size, next, end, depth, name),
                }
            } else if tag == FDT_NOP {
                child_from(bytes, size, offset + 4, end, depth, name)
            } else {
                Err(EditError::BadStructure)
            },
        }
    }
}

/// Where the first child of a given name opens and closes.
pub open spec fn child_place(bytes: Seq<u8>, size: int, parent: (int, int), name: Seq<u8>) -> Result<
    Option<(int, int)>,
    EditError,
> {
    match name_from(bytes, size, parent.0) {
        Err(error) => Err(error),
        Ok((_, start)) => child_from(bytes, size, start, parent.1, 0, name),
    }
}

/// Where the first property of a given name from `offset` up to `end` starts, and how many
/// bytes its record takes. Properties come before child nodes.
pub open spec fn record_from(bytes: Seq<u8>, size: int, offset: int, end: int, name: Seq<u8>) -> Result<
    Option<(int, int)>,
    EditError,
>
    decreases left_behind(size, offset),
{
    if offset >= end {
        Ok(None)
    } else {
        match word_at(bytes, size, offset) {
            Err(error) => Err(error),
            Ok(tag) => if tag == FDT_PROP {
                match (word_at(bytes, size, offset + 4), word_at(bytes, size, offset + 8)) {
                    (Ok(length), Ok(name_offset)) => match c_string(
                        strings_within(bytes, size),
                        name_offset as int,
                    ) {
                        None => Err(EditError::BadStructure),
                        Some(found) => if found == name {
                            Ok(Some((offset, 12 + aligned4(length as int))))
                        } else {
                            record_from(
                                bytes,
                                size,
                                offset + 12 + aligned4(length as int),
                                end,
                                name,
                            )
                        },
                    },
                    _ => Err(EditError::BufferTooSmall),
                }
            } else if tag == FDT_NOP {
                record_from(bytes, size, offset + 4, end, name)
            } else if tag == FDT_BEGIN_NODE || tag == FDT_END_NODE {
                Ok(None)
            } else {
                Err(EditError::BadStructure)
            },
        }
    }
}

/// Where a new property goes: behind the properties from `offset` up to `end`.
pub open spec fn insertion_from(bytes: Seq<u8>, size: int, offset: int, end: int) -> Result<
    int,
    EditError,
>
    decreases left_behind(size, offset),
{
    if offset >= end {
        Ok(end)
    } else {
        match word_at(bytes, size, offset) {
            Err(error) => Err(error),
            Ok(tag) => if tag == FDT_PROP {
                match behind_property(bytes, size, offset) {
                    Err(error) => Err(error),
                    Ok(next) => insertion_from(bytes, size, next, end),
                }
            } else if tag == FDT_NOP {
                insertion_from(bytes, size, offset + 4, end)
            } else if tag == FDT_BEGIN_NODE || tag == FDT_END_NODE {
                Ok(offset)
            } else {
                Err(EditError::BadStructure)
            },
        }
    }
}

/// Where a property of a node is written, and how many bytes it replaces.
pub open spec fn record_place(bytes: Seq<u8>, size: int, node: (int, int), name: Seq<u8>) -> Result<
    (int, int),
    EditError,
> {
    match name_from(bytes, size, node.0) {
        Err(error) => Err(error),
        Ok((_, start)) => match record_from(bytes, size, start, node.1, name) {
            Err(error) => Err(error),
            Ok(Some(place)) => Ok(place),
            Ok(None) => match insertion_from(bytes, size, start, node.1) {
                Err(error) => Err(error),
                Ok(place) => Ok((place, 0)),
            },
        },
    }
}

/// The blob after a property of a node was set, and how it went.
pub open spec fn property_written(
    bytes: Seq<u8>,
    size: int,
    node: (int, int),
    name: Seq<u8>,
    value: Seq<u8>,
) -> (Seq<u8>, Result<(), EditError>) {
    let (named, offset) = string_ensured(bytes, size, name);
    match offset {
        Err(error) => (named, Err(error)),
        Ok(name_offset) => match record_place(named, size, node, name) {
            Err(error) => (named, Err(error)),
            Ok((at, old_length)) => structure_replaced(
                named,
                size,
                at,
                old_length,
                property_record(name_offset, value),
            ),
        },
    }
}

/// Where names lead to from a node, or why they lead nowhere.
pub open spec fn place_walked(
    bytes: Seq<u8>,
    size: int,
    node: (int, int),
    names: Seq<Seq<u8>>,
) -> Result<(int, int), EditError>
    decreases names.len(),
{
    if names.len() == 0 {
        Ok(node)
    } else if names[0].len() == 0 {
        Err(EditError::InvalidPath)
    } else {
        match child_place(bytes, size, node, names[0]) {
            Err(error) => Err(error),
            Ok(None) => Err(EditError::NodeNotFound),
            Ok(Some(child)) => place_walked(bytes, size, child, names.drop_first()),
        }
    }
}

/// The blob after a node was inserted at the end of another one, the place of the new
/// node, and how it went. Names take at most 255 bytes.
pub open spec fn child_inserted(bytes: Seq<u8>, size: int, parent: (int, int), name: Seq<u8>) -> (
    Seq<u8>,
    Result<(int, int), EditError>,
) {
    if name.len() > 255 {
        (bytes, Err(EditError::BufferTooSmall))
    } else {
        match structure_replaced(bytes, size, parent.1, 0, node_record(name)) {
            (after, Err(error)) => (after, Err(error)),
            (after, Ok(_)) => (
                after,
                Ok((parent.1, parent.1 + aligned4((name.len() + 5) as int))),
            ),
        }
    }
}

/// The blob after the nodes that names lead through from a node were created where they
/// were missing, and how it went.
pub open spec fn way_created(
    bytes: Seq<u8>,
    size: int,
    parent: (int, int),
    names: Seq<Seq<u8>>,
) -> (Seq<u8>, Result<(), EditError>)
    decreases names.len(),
{
    if names.len() == 0 {
        (bytes, Ok(()))
    } else if names[0].len() == 0 {
        (bytes, Err(EditError::InvalidPath))
    } else {
        match child_place(bytes, size, parent, names[0]) {
            Err(error) => (bytes, Err(error)),
            Ok(Some(child)) => way_created(bytes, size, child, names.drop_first()),
            Ok(None) => match child_inserted(bytes, size, parent, names[0]) {
                (after, Ok(child)) => way_created(after, size, child, names.drop_first()),
                (after, Err(error)) => (after, Err(error)),
            },
        }
    }
}

/// A place of a node as it is computed.
pub open spec fn place_of_pair(place: (u64, u64)) -> (int, int) {
    (place.0 as int, place.1 as int)
}

/// Reads the word at an offset.
fn read_word(bytes: &[u8], size: usize, offset: u64) -> (word: Result<u32, EditError>)
    requires
        readable(bytes@, size as int),
        offset <= 0xfff_ffff_ffff,
    ensures
        word == word_at(bytes@, size as int, offset as int),
        word is Ok ==> offset + 4 <= size,
{
    if offset + 4 > size as u64 {
        return Err(EditError::BufferTooSmall);
    }
    match read_be_u32_from_slice(bytes, offset as usize) {
        Some(word) => Ok(word),
        None => Err(EditError::BufferTooSmall),
    }
}

/// Reads the name of the node that opens at an offset.
fn read_name(bytes: &[u8], size: usize, offset: u64) -> (named: Result<(&[u8], u64), EditError>)
    requires
        readable(bytes@, size as int),
        offset <= 0xff_ffff_ffff,
    ensures
        match named {
            Ok((name, next)) => name_from(bytes@, size as int, offset as int) == Ok::<
                (Seq<u8>, int),
                EditError,
            >((name@, next as int)) && offset + 4 < next <= size + 3,
            Err(error) => name_from(bytes@, size as int, offset as int) == Err::<
                (Seq<u8>, int),
                EditError,
            >(error),
        },
{
    let tag: u32 = match read_word(bytes, size, offset) {
        Ok(tag) => tag,
        Err(error) => return Err(error),
    };
    if tag != FDT_BEGIN_NODE {
        return Err(EditError::BadStructure);
    }
    let start: u64 = read_header(bytes, 8) as u64;
    let end: u64 = start + read_header(bytes, 36) as u64;
    let limit: usize = if end < size as u64 {
        end as usize
    } else {
        size
    };
    let block = &bytes[0..limit];
    assert(block@ =~= bytes@.take(structure_limit(bytes@, size as int)));
    match read_c_string(block, (offset + 4) as usize) {
        Some(name) => Ok((name, (offset + 4 + name.len() as u64 + 1 + 3) / 4 * 4)),
        None => Err(EditError::BadStructure),
    }
}

/// Reads one word of the header.
fn read_header(bytes: &[u8], offset: usize) -> (word: u32)
    requires
        offset + 4 <= bytes@.len(),
    ensures
        word == be32(bytes@, offset as int),
{
    match read_be_u32_from_slice(bytes, offset) {
        Some(word) => word,
        None => 0,
    }
}

/// Finds the offset behind the property at an offset.
fn after_property(bytes: &[u8], size: usize, offset: u64) -> (next: Result<u64, EditError>)
    requires
        readable(bytes@, size as int),
        offset <= 0xff_ffff_ffff,
    ensures
        match next {
            Ok(place) => behind_property(bytes@, size as int, offset as int) == Ok::<
                int,
                EditError,
            >(place as int) && offset + 12 <= place <= size + 3,
            Err(error) => behind_property(bytes@, size as int, offset as int) == Err::<
                int,
                EditError,
            >(error),
        },
{
    let length: u32 = match read_word(bytes, size, offset + 4) {
        Ok(length) => length,
        Err(error) => return Err(error),
    };
    let value_end: u64 = offset + 12 + length as u64;
    if value_end > size as u64 {
        return Err(EditError::BufferTooSmall);
    }
    Ok((value_end + 3) / 4 * 4)
}

/// Finds the token that closes the node that opens at an offset.
fn node_end_offset(bytes: &[u8], size: usize, begin: u64) -> (end: Result<u64, EditError>)
    requires
        readable(bytes@, size as int),
        begin <= 0xff_ffff_ffff,
    ensures
        match end {
            Ok(place) => closing_at(bytes@, size as int, begin as int, 0) == Ok::<int, EditError>(
                place as int,
            ) && place + 4 <= size,
            Err(error) => closing_at(bytes@, size as int, begin as int, 0) == Err::<
                int,
                EditError,
            >(error),
        },
{
    let ghost whole = closing_at(bytes@, size as int, begin as int, 0);
    let mut offset: u64 = begin;
    let mut depth: u64 = 0;
    loop
        invariant
            readable(bytes@, size as int),
            offset <= 0xff_ffff_ffff,
            depth <= offset,
            whole == closing_at(bytes@, size as int, begin as int, 0),
            whole == closing_at(bytes@, size as int, offset as int, depth as nat),
        decreases left_behind(size as int, offset as int),
    {
        let tag: u32 = match read_word(bytes, size, offset) {
            Ok(tag) => tag,
            Err(error) => return Err(error),
        };
        if tag == FDT_BEGIN_NODE {
            offset = match read_name(bytes, size, offset) {
                Ok((_, next)) => next,
                Err(error) => return Err(error),
            };
            depth += 1;
        } else if tag == FDT_END_NODE {
            if depth == 0 {
                return Err(EditError::BadStructure);
            }
            if depth == 1 {
                return Ok(offset);
            }
            depth -= 1;
            offset += 4;
        } else if tag == FDT_PROP {
            offset = match after_property(bytes, size, offset) {
                Ok(next) => next,
                Err(error) => return Err(error),
            };
        } else if tag == FDT_NOP {
            offset += 4;
        } else {
            return Err(EditError::BadStructure);
        }
    }
}

/// Finds the root node.
pub(crate) fn root_node(bytes: &[u8], size: usize) -> (place: Result<(u64, u64), EditError>)
    requires
        readable(bytes@, size as int),
    ensures
        match place {
            Ok(root) => root_place(bytes@, size as int) == Ok::<(int, int), EditError>(
                place_of_pair(root),
            ) && root.0 <= size && root.1 <= size,
            Err(error) => root_place(bytes@, size as int) == Err::<(int, int), EditError>(error),
        },
{
    let begin: u64 = read_header(bytes, 8) as u64;
    let tag: u32 = match read_word(bytes, size, begin) {
        Ok(tag) => tag,
        Err(error) => return Err(error),
    };
    if tag != FDT_BEGIN_NODE {
        return Err(EditError::BadStructure);
    }
    match node_end_offset(bytes, size, begin) {
        Ok(end) => Ok((begin, end)),
        Err(error) => Err(error),
    }
}

/// Finds the first child of a given name.
pub(crate) fn find_child(bytes: &[u8], size: usize, parent: (u64, u64), name: &[u8]) -> (place:
    Result<Option<(u64, u64)>, EditError>)
    requires
        readable(bytes@, size as int),
        parent.0 <= 0xff_ffff_ffff,
    ensures
        match place {
            Ok(Some(child)) => child_place(
                bytes@,
                size as int,
                place_of_pair(parent),
                name@,
            ) == Ok::<Option<(int, int)>, EditError>(Some(place_of_pair(child))) && child.0 <= size
                && child.1 <= size,
            Ok(None) => child_place(bytes@, size as int, place_of_pair(parent), name@) == Ok::<
                Option<(int, int)>,
                EditError,
            >(None),
            Err(error) => child_place(bytes@, size as int, place_of_pair(parent), name@) == Err::<
                Option<(int, int)>,
                EditError,
            >(error),
        },
{
    let end: u64 = parent.1;
    let mut offset: u64 = match read_name(bytes, size, parent.0) {
        Ok((_, next)) => next,
        Err(error) => return Err(error),
    };
    let ghost whole = child_place(bytes@, size as int, place_of_pair(parent), name@);
    let mut depth: u64 = 0;
    while offset < end
        invariant
            readable(bytes@, size as int),
            offset <= 0xff_ffff_ffff,
            depth <= offset,
            whole == child_place(bytes@, size as int, place_of_pair(parent), name@),
            whole == child_from(
                bytes@,
                size as int,
                offset as int,
                end as int,
                depth as nat,
                name@,
            ),
        decreases left_behind(size as int, offset as int),
    {
        let tag: u32 = match read_word(bytes, size, offset) {
            Ok(tag) => tag,
            Err(error) => return Err(error),
        };
        if tag == FDT_BEGIN_NODE {
            let (found, next) = match read_name(bytes, size, offset) {
                Ok(named) => named,
                Err(error) => return Err(error),
            };
            if depth == 0 && bytes_equal(found, name) {
                return match node_end_offset(bytes, size, offset) {
                    Ok(close) => Ok(Some((offset, close))),
                    Err(error) => Err(error),
                };
            }
            depth += 1;
            offset = next;
        } else if tag == FDT_END_NODE {
            if depth == 0 {
                return Err(EditError::BadStructure);
            }
            depth -= 1;
            offset += 4;
        } else if tag == FDT_PROP {
            offset = match after_property(bytes, size, offset) {
                Ok(next) => next,
                Err(error) => return Err(error),
            };
        } else if tag == FDT_NOP {
            offset += 4;
        } else {
            return Err(EditError::BadStructure);
        }
    }
    Ok(None)
}

/// Finds the property of a given name from `start` up to `end`.
fn find_direct_property(bytes: &[u8], size: usize, start: u64, end: u64, name: &[u8]) -> (place:
    Result<Option<(u64, u64)>, EditError>)
    requires
        readable(bytes@, size as int),
        start <= 0xff_ffff_ffff,
    ensures
        match place {
            Ok(Some(record)) => record_from(
                bytes@,
                size as int,
                start as int,
                end as int,
                name@,
            ) == Ok::<Option<(int, int)>, EditError>(Some(place_of_pair(record))) && record.0
                <= size && record.1 <= 0x1_0000_0010,
            Ok(None) => record_from(
                bytes@,
                size as int,
                start as int,
                end as int,
                name@,
            ) == Ok::<Option<(int, int)>, EditError>(None),
            Err(error) => record_from(
                bytes@,
                size as int,
                start as int,
                end as int,
                name@,
            ) == Err::<Option<(int, int)>, EditError>(error),
        },
{
    let ghost whole = record_from(bytes@, size as int, start as int, end as int, name@);
    let strings_start: u64 = read_header(bytes, 12) as u64;
    let used: u64 = strings_start + read_header(bytes, 32) as u64;
    let strings_end: u64 = if used < size as u64 {
        used
    } else {
        size as u64
    };
    let strings = if strings_start <= strings_end {
        &bytes[strings_start as usize..strings_end as usize]
    } else {
        &bytes[0..0]
    };
    assert(strings@ =~= strings_within(bytes@, size as int));
    let mut offset: u64 = start;
    while offset < end
        invariant
            readable(bytes@, size as int),
            offset <= 0xff_ffff_ffff,
            strings@ == strings_within(bytes@, size as int),
            strings@.len() <= size,
            whole == record_from(bytes@, size as int, start as int, end as int, name@),
            whole == record_from(bytes@, size as int, offset as int, end as int, name@),
        decreases left_behind(size as int, offset as int),
    {
        let tag: u32 = match read_word(bytes, size, offset) {
            Ok(tag) => tag,
            Err(error) => return Err(error),
        };
        if tag == FDT_PROP {
            let length: u32 = match read_word(bytes, size, offset + 4) {
                Ok(length) => length,
                Err(error) => return Err(error),
            };
            let name_offset: u32 = match read_word(bytes, size, offset + 8) {
                Ok(name_offset) => name_offset,
                Err(error) => return Err(error),
            };
            let record_length: u64 = 12 + (length as u64 + 3) / 4 * 4;
            let found = match read_c_string(strings, name_offset as usize) {
                Some(found) => found,
                None => return Err(EditError::BadStructure),
            };
            if bytes_equal(found, name) {
                return Ok(Some((offset, record_length)));
            }
            offset += record_length;
        } else if tag == FDT_NOP {
            offset += 4;
        } else if tag == FDT_BEGIN_NODE || tag == FDT_END_NODE {
            return Ok(None);
        } else {
            return Err(EditError::BadStructure);
        }
    }
    Ok(None)
}

/// Finds the place behind the properties from `start` up to `end`.
fn property_insertion_offset(bytes: &[u8], size: usize, start: u64, end: u64) -> (place: Result<
    u64,
    EditError,
>)
    requires
        readable(bytes@, size as int),
        start <= 0xff_ffff_ffff,
        end <= size,
    ensures
        match place {
            Ok(at) => insertion_from(bytes@, size as int, start as int, end as int) == Ok::<
                int,
                EditError,
            >(at as int) && at <= size,
            Err(error) => insertion_from(bytes@, size as int, start as int, end as int) == Err::<
                int,
                EditError,
            >(error),
        },
{
    let ghost whole = insertion_from(bytes@, size as int, start as int, end as int);
    let mut offset: u64 = start;
    while offset < end
        invariant
            readable(bytes@, size as int),
            offset <= 0xff_ffff_ffff,
            end <= size,
            whole == insertion_from(bytes@, size as int, start as int, end as int),
            whole == insertion_from(bytes@, size as int, offset as int, end as int),
        decreases left_behind(size as int, offset as int),
    {
        let tag: u32 = match read_word(bytes, size, offset) {
            Ok(tag) => tag,
            Err(error) => return Err(error),
        };
        if tag == FDT_PROP {
            offset = match after_property(bytes, size, offset) {
                Ok(next) => next,
                Err(error) => return Err(error),
            };
        } else if tag == FDT_NOP {
            offset += 4;
        } else if tag == FDT_BEGIN_NODE || tag == FDT_END_NODE {
            return Ok(offset);
        } else {
            return Err(EditError::BadStructure);
        }
    }
    Ok(end)
}

/// Finds where a property of a node is written, and how many bytes it replaces.
fn find_record_place(bytes: &[u8], size: usize, node: (u64, u64), name: &[u8]) -> (place: Result<
    (u64, u64),
    EditError,
>)
    requires
        readable(bytes@, size as int),
        node.0 <= size,
        node.1 <= size,
    ensures
        match place {
            Ok(found) => record_place(bytes@, size as int, place_of_pair(node), name@) == Ok::<
                (int, int),
                EditError,
            >(place_of_pair(found)) && found.0 <= size && found.1 <= 0x1_0000_0010,
            Err(error) => record_place(bytes@, size as int, place_of_pair(node), name@) == Err::<
                (int, int),
                EditError,
            >(error),
        },
{
    let start: u64 = match read_name(bytes, size, node.0) {
        Ok((_, next)) => next,
        Err(error) => return Err(error),
    };
    match find_direct_property(bytes, size, start, node.1, name) {
        Ok(Some(record)) => Ok(record),
        Ok(None) => match property_insertion_offset(bytes, size, start, node.1) {
            Ok(at) => Ok((at, 0)),
            Err(error) => Err(error),
        },
        Err(error) => Err(error),
    }
}

/// Creates or replaces one property of a node.
pub(crate) fn write_property(
    bytes: &mut Vec<u8>,
    size: usize,
    node: (u64, u64),
    name: &[u8],
    value: &[u8],
) -> (outcome: Result<(), EditError>)
    requires
        readable(old(bytes)@, size as int),
        node.0 <= size,
        node.1 <= size,
    ensures
        (final(bytes)@, outcome) == property_written(
            old(bytes)@,
            size as int,
            place_of_pair(node),
            name@,
            value@,
        ),
        final(bytes)@.len() == old(bytes)@.len(),
{
    let name_offset: u32 = match ensure_string(bytes, size, name) {
        Ok(offset) => offset,
        Err(error) => return Err(error),
    };
    let (at, old_length) = match find_record_place(bytes.as_slice(), size, node, name) {
        Ok(found) => found,
        Err(error) => return Err(error),
    };
    let record_length: u64 = padded_record_length(value.len());
    if let Some(error) = replacement_error(bytes, size, at, old_length, record_length) {
        assert(property_record(name_offset, value@).len() == 12 + aligned4(value@.len() as int));
        return Err(error);
    }
    let mut record: Vec<u8> = Vec::new();
    push_word(&mut record, FDT_PROP);
    push_word(&mut record, value.len() as u32);
    push_word(&mut record, name_offset);
    push_padded(&mut record, value, false);
    assert(record@ =~= property_record(name_offset, value@));
    proof {
        replacement_keeps_length(bytes@, size as int, at as int, old_length as int, record@);
    }
    replace_in_structure(bytes, size, at, old_length, record.as_slice())
}

/// Returns the length of a property record, or one that no header can tell.
pub(crate) fn padded_record_length(length: usize) -> (padded: u64)
    ensures
        length <= u32::MAX ==> padded == 12 + aligned4(length as int),
        length > u32::MAX ==> padded > u32::MAX,
{
    if length as u64 > 0xffff_ffff {
        0x1_0000_0000
    } else {
        12 + (length as u64 + 3) / 4 * 4
    }
}

/// Inserts a node at the end of another one.
fn insert_child_node(bytes: &mut Vec<u8>, size: usize, parent: (u64, u64), name: &[u8]) -> (place:
    Result<(u64, u64), EditError>)
    requires
        readable(old(bytes)@, size as int),
        parent.1 <= size,
    ensures
        match place {
            Ok(child) => child_inserted(
                old(bytes)@,
                size as int,
                place_of_pair(parent),
                name@,
            ) == (final(bytes)@, Ok::<(int, int), EditError>(place_of_pair(child))) && child.0
                <= size && child.1 <= size,
            Err(error) => child_inserted(
                old(bytes)@,
                size as int,
                place_of_pair(parent),
                name@,
            ) == (final(bytes)@, Err::<(int, int), EditError>(error)),
        },
        final(bytes)@.len() == old(bytes)@.len(),
{
    if name.len() > 255 {
        return Err(EditError::BufferTooSmall);
    }
    let at: u64 = parent.1;
    let mut record: Vec<u8> = Vec::new();
    push_word(&mut record, FDT_BEGIN_NODE);
    push_padded(&mut record, name, true);
    push_word(&mut record, FDT_END_NODE);
    assert(record@ =~= node_record(name@));
    assert(record@.len() == 8 + aligned4((name@.len() + 1) as int));
    proof {
        replacement_keeps_length(bytes@, size as int, at as int, 0, record@);
    }
    match replace_in_structure(bytes, size, at, 0, record.as_slice()) {
        Ok(()) => Ok((at, at + (name.len() as u64 + 8) / 4 * 4)),
        Err(error) => Err(error),
    }
}

/// Creates the nodes that `parts` lead through from place `first` on, starting at a node,
/// where they are missing.
pub(crate) fn create_way(
    bytes: &mut Vec<u8>,
    size: usize,
    top: (u64, u64),
    parts: &Vec<Vec<u8>>,
    first: usize,
    Ghost(components): Ghost<Seq<Seq<u8>>>,
) -> (outcome: Result<(), EditError>)
    requires
        readable(old(bytes)@, size as int),
        top.0 <= size,
        top.1 <= size,
        parts_are(parts@, components),
        first <= parts@.len(),
    ensures
        (final(bytes)@, outcome) == way_created(
            old(bytes)@,
            size as int,
            place_of_pair(top),
            components.skip(first as int),
        ),
        final(bytes)@.len() == old(bytes)@.len(),
{
    let ghost whole = way_created(
        bytes@,
        size as int,
        place_of_pair(top),
        components.skip(first as int),
    );
    let mut parent: (u64, u64) = top;
    let mut index: usize = first;
    while index < parts.len()
        invariant
            readable(bytes@, size as int),
            bytes@.len() == old(bytes)@.len(),
            parent.0 <= size,
            parent.1 <= size,
            parts_are(parts@, components),
            first <= index <= parts@.len(),
            whole == way_created(
                old(bytes)@,
                size as int,
                place_of_pair(top),
                components.skip(first as int),
            ),
            whole == way_created(
                bytes@,
                size as int,
                place_of_pair(parent),
                components.skip(index as int),
            ),
        decreases parts@.len() - index,
    {
        let name = parts[index].as_slice();
        proof {
            assert(name@ == components.skip(index as int)[0]);
            assert(components.skip(index as int).drop_first() =~= components.skip(index + 1));
        }
        if name.len() == 0 {
            return Err(EditError::InvalidPath);
        }
        let found = match find_child(bytes.as_slice(), size, parent, name) {
            Ok(found) => found,
            Err(error) => return Err(error),
        };
        parent = match found {
            Some(child) => child,
            None => match insert_child_node(bytes, size, parent, name) {
                Ok(child) => child,
                Err(error) => return Err(error),
            },
        };
        index += 1;
    }
    Ok(())
}

/// Finds the node that `parts` lead to from place `first` on, starting at a node.
pub(crate) fn walk_to(
    bytes: &[u8],
    size: usize,
    top: (u64, u64),
    parts: &Vec<Vec<u8>>,
    first: usize,
    Ghost(components): Ghost<Seq<Seq<u8>>>,
) -> (place: Result<(u64, u64), EditError>)
    requires
        readable(bytes@, size as int),
        top.0 <= size,
        top.1 <= size,
        parts_are(parts@, components),
        first <= parts@.len(),
    ensures
        match place {
            Ok(node) => place_walked(
                bytes@,
                size as int,
                place_of_pair(top),
                components.skip(first as int),
            ) == Ok::<(int, int), EditError>(place_of_pair(node)) && node.0 <= size && node.1
                <= size,
            Err(error) => place_walked(
                bytes@,
                size as int,
                place_of_pair(top),
                components.skip(first as int),
            ) == Err::<(int, int), EditError>(error),
        },
{
    let ghost whole = place_walked(
        bytes@,
        size as int,
        place_of_pair(top),
        components.skip(first as int),
    );
    let mut node: (u64, u64) = top;
    let mut index: usize = first;
    while index < parts.len()
        invariant
            readable(bytes@, size as int),
            node.0 <= size,
            node.1 <= size,
            parts_are(parts@, components),
            first <= index <= parts@.len(),
            whole == place_walked(
                bytes@,
                size as int,
                place_of_pair(top),
                components.skip(first as int),
            ),
            whole == place_walked(
                bytes@,
                size as int,
                place_of_pair(node),
                components.skip(index as int),
            ),
        decreases parts@.len() - index,
    {
        let name = parts[index].as_slice();
        proof {
            assert(name@ == components.skip(index as int)[0]);
            assert(components.skip(index as int).drop_first() =~= components.skip(index + 1));
        }
        if name.len() == 0 {
            return Err(EditError::InvalidPath);
        }
        node = match find_child(bytes, size, node, name) {
            Ok(Some(child)) => child,
            Ok(None) => return Err(EditError::NodeNotFound),
            Err(error) => return Err(error),
        };
        index += 1;
    }
    Ok(node)
}

} // verus!
