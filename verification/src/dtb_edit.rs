//! Changes to a flattened device tree in place.
//!
//! A blob is changed in two ways: bytes of its structure block are replaced, which
//! moves the strings block behind it, and strings are appended to the strings
//! block. The free space at the end of the blob takes up the growth.

use vstd::prelude::*;
use vstd::utf8::*;
use crate::bytes::{
    be32, be32_bytes, be32_depends_on_four_bytes, be32_round_trip, bytes_equal, c_string, find_zero,
    overwritten, read_be_u32_from_slice, utf8_text, zero_from, zero_from_is_first,
};
use crate::dtb_read::{blob_fault, strings_of, structure_of, FdtError};
use crate::path::copy_range;

verus! {

/// Errors of a change.
#[derive(Clone, Copy, Debug, PartialEq, Eq, Structural)]
pub enum EditError {
    /// A size does not fit into the header.
    SizeOverflow,
    /// The change does not fit inside the blob.
    BufferTooSmall,
    /// The blob is malformed.
    BadStructure,
    /// A path is not a valid absolute path.
    InvalidPath,
    /// There is no node at a path.
    NodeNotFound,
    /// The header is not sound.
    Header(FdtError),
}

/// Whether both blocks lie behind the header, and the strings block ends inside of the blob
/// and no earlier than the structure block. What is behind it is free space.
pub open spec fn strings_come_last(blob: Seq<u8>) -> bool {
    &&& 40 <= blob.len() <= u32::MAX
    &&& 40 <= be32(blob, 8)
    &&& 40 <= be32(blob, 12)
    &&& be32(blob, 8) + be32(blob, 36) <= be32(blob, 12) + be32(blob, 32) <= blob.len()
}

/// First byte of the free space.
pub open spec fn used_end(blob: Seq<u8>) -> int {
    be32(blob, 12) + be32(blob, 32)
}

/// A blob with one header word changed.
pub open spec fn word_set(blob: Seq<u8>, offset: int, value: u32) -> Seq<u8> {
    overwritten(blob, offset, be32_bytes(value))
}

/// The bytes of a blob after `old_length` bytes at `offset` have given way to
/// `part`, before the header is told.
pub open spec fn moved(blob: Seq<u8>, offset: int, old_length: int, part: Seq<u8>) -> Seq<u8> {
    overwritten(
        overwritten(
            blob,
            offset + part.len(),
            blob.subrange(offset + old_length, used_end(blob)),
        ),
        offset,
        part,
    )
}

/// Whether `offset` and the `old_length` bytes from there lie in the structure
/// block.
pub open spec fn in_structure(blob: Seq<u8>, offset: int, old_length: int) -> bool {
    be32(blob, 8) <= offset && 0 <= old_length && offset + old_length <= be32(blob, 8) + be32(
        blob,
        36,
    )
}

/// Why bytes of the structure block cannot be replaced in a blob that takes `size`
/// bytes, if they cannot. They have to lie inside of the used part of the blob, whose
/// end moves.
pub open spec fn replacement_fault(
    blob: Seq<u8>,
    size: int,
    offset: int,
    old_length: int,
    new_length: int,
) -> Option<EditError> {
    if !in_structure(blob, offset, old_length) {
        Some(EditError::BadStructure)
    } else if old_length > used_end(blob) {
        Some(EditError::SizeOverflow)
    } else if used_end(blob) - old_length + new_length > size {
        Some(EditError::BufferTooSmall)
    } else if offset + old_length > used_end(blob) || used_end(blob) > size {
        Some(EditError::BadStructure)
    } else {
        None
    }
}

/// A blob whose header tells that the structure block has grown, or shrunk where
/// `growth` is negative. The strings block moves with its end.
pub open spec fn lengths_grown(blob: Seq<u8>, growth: int) -> (Seq<u8>, Result<(), EditError>) {
    let size = be32(blob, 36) + growth;
    let sized = word_set(blob, 36, size as u32);
    let start = be32(sized, 12) + growth;
    if !(0 <= size <= u32::MAX) {
        (blob, Err(EditError::SizeOverflow))
    } else if !(0 <= start <= u32::MAX) {
        (sized, Err(EditError::SizeOverflow))
    } else {
        (word_set(sized, 12, start as u32), Ok(()))
    }
}

/// The blob after `part` was put in place of `old_length` bytes of the structure block at
/// `offset`, which counts from the start of the blob, and how it went. Where the sizes
/// turn out not to fit into the header, the bytes have been moved.
pub open spec fn structure_replaced(
    blob: Seq<u8>,
    size: int,
    offset: int,
    old_length: int,
    part: Seq<u8>,
) -> (Seq<u8>, Result<(), EditError>) {
    let growth = part.len() - old_length;
    let opened = moved(blob, offset, old_length, Seq::new(part.len(), |i: int| 0u8));
    match replacement_fault(blob, size, offset, old_length, part.len() as int) {
        Some(error) => (blob, Err(error)),
        None => if !(i32::MIN <= growth <= i32::MAX) {
            (opened, Err(EditError::SizeOverflow))
        } else {
            match lengths_grown(opened, growth) {
                (grown, Ok(_)) => (overwritten(grown, offset, part), Ok(())),
                (grown, Err(error)) => (grown, Err(error)),
            }
        },
    }
}

/// The offset of a string in a strings block from `offset` on, where one string
/// follows the other. An unterminated string or one that is no UTF-8 is an error.
pub open spec fn string_offset(strings: Seq<u8>, offset: int, name: Seq<u8>) -> Result<
    Option<int>,
    EditError,
>
    decreases strings.len() - offset,
{
    if offset < 0 || offset >= strings.len() {
        Ok(None)
    } else {
        match zero_from(strings, offset) {
            None => Err(EditError::BadStructure),
            Some(end) => if end < offset || end >= strings.len() || !valid_utf8(
                strings.subrange(offset, end),
            ) {
                Err(EditError::BadStructure)
            } else if strings.subrange(offset, end) == name {
                Ok(Some(offset))
            } else {
                string_offset(strings, end + 1, name)
            },
        }
    }
}

/// A blob with a string appended to its strings block.
pub open spec fn string_appended(blob: Seq<u8>, name: Seq<u8>) -> Seq<u8> {
    word_set(
        overwritten(blob, used_end(blob), name.push(0u8)),
        32,
        (be32(blob, 32) + name.len() + 1) as u32,
    )
}

/// The strings of a blob that takes `size` bytes, as far as they lie inside of it.
pub open spec fn strings_within(blob: Seq<u8>, size: int) -> Seq<u8> {
    let start = be32(blob, 12) as int;
    let end = if used_end(blob) < size {
        used_end(blob)
    } else {
        size
    };
    if start <= end {
        blob.subrange(start, end)
    } else {
        Seq::empty()
    }
}

/// A blob that takes `size` bytes and holds a string, and the string's offset; or the
/// blob as it was, and why the string cannot be added.
pub open spec fn string_ensured(blob: Seq<u8>, size: int, name: Seq<u8>) -> (
    Seq<u8>,
    Result<u32, EditError>,
) {
    match string_offset(strings_within(blob, size), 0, name) {
        Err(error) => (blob, Err(error)),
        Ok(Some(offset)) => (blob, Ok(offset as u32)),
        Ok(None) => if be32(blob, 32) > 0 && used_end(blob) > size {
            (blob, Err(EditError::BadStructure))
        } else if used_end(blob) + name.len() + 1 > size {
            (blob, Err(EditError::BufferTooSmall))
        } else {
            (string_appended(blob, name), Ok(be32(blob, 32)))
        },
    }
}

/// Whether what is between the header and the structure block, and where the structure
/// block and the reserve map start, is the same. In a tree whose reserve map comes
/// before the structure block this is all of the reserve map.
pub open spec fn front_kept(blob: Seq<u8>, after: Seq<u8>) -> bool {
    &&& after.len() == blob.len()
    &&& be32(after, 8) == be32(blob, 8)
    &&& be32(after, 16) == be32(blob, 16)
    &&& forall|i: int| 40 <= i < be32(blob, 8) && i < blob.len() ==> #[trigger] after[i] == blob[i]
}

/// Setting a header word changes that word only.
pub proof fn word_set_changes_word(blob: Seq<u8>, offset: int, value: u32)
    requires
        0 <= offset,
        offset + 4 <= blob.len(),
    ensures
        word_set(blob, offset, value).len() == blob.len(),
        be32(word_set(blob, offset, value), offset) == value,
        forall|i: int|
            0 <= i < blob.len() && !(offset <= i < offset + 4) ==> #[trigger] word_set(
                blob,
                offset,
                value,
            )[i] == blob[i],
        forall|other: int|
            0 <= other && other + 4 <= blob.len() && (other + 4 <= offset || offset + 4 <= other)
                ==> #[trigger] be32(word_set(blob, offset, value), other) == be32(blob, other),
{
    let after = word_set(blob, offset, value);
    be32_round_trip(value);
    assert(forall|i: int| 0 <= i < 4 ==> after[offset + i] == be32_bytes(value)[i]);
    be32_depends_on_four_bytes(after, offset, be32_bytes(value), 0);
    assert forall|other: int|
        0 <= other && other + 4 <= blob.len() && (other + 4 <= offset || offset + 4
            <= other) implies #[trigger] be32(after, other) == be32(blob, other) by {
        be32_depends_on_four_bytes(after, other, blob, other);
    }
}

/// The byte at a place after bytes have been moved.
pub open spec fn moved_byte(
    blob: Seq<u8>,
    used: int,
    offset: int,
    old_length: int,
    part: Seq<u8>,
    i: int,
) -> u8 {
    if i < offset {
        blob[i]
    } else if i < offset + part.len() {
        part[i - offset]
    } else if i < used + part.len() - old_length {
        blob[i - (part.len() - old_length)]
    } else {
        blob[i]
    }
}

/// Every byte of a blob whose bytes have been moved.
proof fn moved_bytes(blob: Seq<u8>, size: int, offset: int, old_length: int, part: Seq<u8>)
    requires
        size <= blob.len(),
        replacement_fault(blob, size, offset, old_length, part.len() as int) is None,
    ensures
        moved(blob, offset, old_length, part).len() == blob.len(),
        forall|i: int|
            0 <= i < blob.len() ==> #[trigger] moved(blob, offset, old_length, part)[i]
                == moved_byte(blob, used_end(blob), offset, old_length, part, i),
{
    let middle = moved(blob, offset, old_length, part);
    let tail = blob.subrange(offset + old_length, used_end(blob));
    assert(middle.len() == blob.len());
    assert forall|i: int| 0 <= i < blob.len() implies #[trigger] middle[i] == moved_byte(
        blob,
        used_end(blob),
        offset,
        old_length,
        part,
        i,
    ) by {
        if offset + part.len() <= i < used_end(blob) + part.len() - old_length {
            assert(tail[i - offset - part.len()] == blob[i - (part.len() - old_length)]);
        }
    }
}

/// Replacing bytes does not change the size of a blob.
pub proof fn replacement_keeps_length(
    blob: Seq<u8>,
    size: int,
    offset: int,
    old_length: int,
    part: Seq<u8>,
)
    requires
        size <= blob.len(),
        40 <= blob.len(),
    ensures
        structure_replaced(blob, size, offset, old_length, part).0.len() == blob.len(),
{
    if replacement_fault(blob, size, offset, old_length, part.len() as int) is None {
        let zeros = Seq::new(part.len(), |i: int| 0u8);
        moved_bytes(blob, size, offset, old_length, zeros);
    }
}

/// Replacing bytes behind the header keeps the size of a blob and the words of its header
/// up to the offset of the strings block, whether it succeeds or not.
pub proof fn replacement_keeps_front(
    blob: Seq<u8>,
    size: int,
    offset: int,
    old_length: int,
    part: Seq<u8>,
)
    requires
        size <= blob.len(),
        40 <= blob.len(),
        40 <= be32(blob, 8),
    ensures
        ({
            let after = structure_replaced(blob, size, offset, old_length, part).0;
            &&& after.len() == blob.len()
            &&& be32(after, 0) == be32(blob, 0)
            &&& be32(after, 4) == be32(blob, 4)
            &&& be32(after, 8) == be32(blob, 8)
        }),
{
    if replacement_fault(blob, size, offset, old_length, part.len() as int) is None {
        let growth = part.len() - old_length;
        let zeros = Seq::new(part.len(), |i: int| 0u8);
        let opened = moved(blob, offset, old_length, zeros);
        moved_bytes(blob, size, offset, old_length, zeros);
        front_words_kept(blob, opened);
        let sized = word_set(opened, 36, (be32(opened, 36) + growth) as u32);
        word_set_changes_word(opened, 36, (be32(opened, 36) + growth) as u32);
        let grown = word_set(sized, 12, (be32(sized, 12) + growth) as u32);
        word_set_changes_word(sized, 12, (be32(sized, 12) + growth) as u32);
        front_words_kept(grown, overwritten(grown, offset, part));
        assert(be32(grown, 0) == be32(sized, 0) == be32(opened, 0));
        assert(be32(grown, 4) == be32(sized, 4) == be32(opened, 4));
        assert(be32(grown, 8) == be32(sized, 8) == be32(opened, 8));
    }
}

/// Replacing bytes behind the header changes no header word but two.
proof fn replacement_keeps_header(
    blob: Seq<u8>,
    size: int,
    offset: int,
    old_length: int,
    part: Seq<u8>,
)
    requires
        size <= blob.len(),
        40 <= blob.len(),
        40 <= be32(blob, 8),
        structure_replaced(blob, size, offset, old_length, part).1 is Ok,
    ensures
        ({
            let after = structure_replaced(blob, size, offset, old_length, part).0;
            &&& after.len() == blob.len()
            &&& be32(after, 0) == be32(blob, 0)
            &&& be32(after, 4) == be32(blob, 4)
            &&& be32(after, 8) == be32(blob, 8)
            &&& be32(after, 16) == be32(blob, 16)
            &&& be32(after, 20) == be32(blob, 20)
            &&& be32(after, 32) == be32(blob, 32)
            &&& be32(after, 12) == be32(blob, 12) + part.len() - old_length
            &&& be32(after, 36) == be32(blob, 36) + part.len() - old_length
            &&& forall|i: int|
                40 <= i < blob.len() ==> #[trigger] after[i] == moved_byte(
                    blob,
                    used_end(blob),
                    offset,
                    old_length,
                    part,
                    i,
                )
        }),
{
    let growth = part.len() - old_length;
    let zeros = Seq::new(part.len(), |i: int| 0u8);
    let opened = moved(blob, offset, old_length, zeros);
    moved_bytes(blob, size, offset, old_length, zeros);
    front_words_kept(blob, opened);
    let sized = word_set(opened, 36, (be32(blob, 36) + growth) as u32);
    word_set_changes_word(opened, 36, (be32(blob, 36) + growth) as u32);
    assert(be32(sized, 12) == be32(opened, 12));
    let grown = word_set(sized, 12, (be32(blob, 12) + growth) as u32);
    word_set_changes_word(sized, 12, (be32(blob, 12) + growth) as u32);
    assert(lengths_grown(opened, growth).0 == grown);
    let after = overwritten(grown, offset, part);
    front_words_kept(grown, after);
    assert(be32(grown, 36) == be32(sized, 36));
    assert(be32(grown, 0) == be32(sized, 0) == be32(opened, 0));
    assert(be32(grown, 4) == be32(sized, 4) == be32(opened, 4));
    assert(be32(grown, 8) == be32(sized, 8) == be32(opened, 8));
    assert(be32(grown, 16) == be32(sized, 16) == be32(opened, 16));
    assert(be32(grown, 20) == be32(sized, 20) == be32(opened, 20));
    assert(be32(grown, 32) == be32(sized, 32) == be32(opened, 32));
    assert forall|i: int| 40 <= i < blob.len() implies #[trigger] after[i] == moved_byte(
        blob,
        used_end(blob),
        offset,
        old_length,
        part,
        i,
    ) by {
        assert(grown[i] == sized[i]);
        assert(sized[i] == opened[i]);
        assert(opened[i] == moved_byte(blob, used_end(blob), offset, old_length, zeros, i));
    }
}

/// Where the first bytes are the same, so are the words of the header.
proof fn front_words_kept(blob: Seq<u8>, after: Seq<u8>)
    requires
        40 <= blob.len(),
        after.len() == blob.len(),
        forall|i: int| 0 <= i < 40 ==> #[trigger] after[i] == blob[i],
    ensures
        forall|word: int| 0 <= word <= 36 ==> #[trigger] be32(after, word) == be32(blob, word),
{
    assert forall|word: int| 0 <= word <= 36 implies #[trigger] be32(after, word) == be32(
        blob,
        word,
    ) by {
        assert forall|i: int| 0 <= i < 4 implies after[word + i] == #[trigger] blob[word + i] by {}
        be32_depends_on_four_bytes(after, word, blob, word);
    }
}

/// Replacing bytes of the structure block before the strings block does so to the block
/// that is read back, and leaves the strings block and the rest of the header alone.
pub proof fn replacement_reads_back(blob: Seq<u8>, offset: int, old_length: int, part: Seq<u8>)
    requires
        strings_come_last(blob),
        offset + old_length <= be32(blob, 12),
        structure_replaced(blob, blob.len() as int, offset, old_length, part).1 is Ok,
    ensures
        ({
            let after = structure_replaced(blob, blob.len() as int, offset, old_length, part).0;
            let place = offset - be32(blob, 8);
            &&& after.len() == blob.len()
            &&& strings_come_last(after)
            &&& structure_of(after) == structure_of(blob).take(place) + part + structure_of(
                blob,
            ).skip(place + old_length)
            &&& strings_of(after) == strings_of(blob)
            &&& be32(after, 0) == be32(blob, 0)
            &&& be32(after, 4) == be32(blob, 4)
            &&& be32(after, 8) == be32(blob, 8)
            &&& be32(after, 12) == be32(blob, 12) + part.len() - old_length
            &&& be32(after, 16) == be32(blob, 16)
            &&& be32(after, 20) == be32(blob, 20)
            &&& front_kept(blob, after)
        }),
{
    let size = blob.len() as int;
    replacement_keeps_header(blob, size, offset, old_length, part);
    let after = structure_replaced(blob, size, offset, old_length, part).0;
    moved_blocks(
        blob,
        after,
        be32(blob, 8) as int,
        be32(blob, 36) as int,
        be32(blob, 12) as int,
        be32(blob, 32) as int,
        offset,
        old_length,
        part,
    );
}

/// The structure block and the strings block of a blob whose bytes have been
/// moved.
proof fn moved_blocks(
    blob: Seq<u8>,
    after: Seq<u8>,
    start: int,
    structure_size: int,
    strings_start: int,
    strings_size: int,
    offset: int,
    old_length: int,
    part: Seq<u8>,
)
    requires
        after.len() == blob.len(),
        40 <= start <= offset,
        0 <= old_length,
        0 <= strings_size,
        offset + old_length <= start + structure_size <= strings_start + strings_size,
        offset + old_length <= strings_start,
        strings_start + strings_size <= blob.len(),
        strings_start + strings_size + part.len() - old_length <= blob.len(),
        forall|i: int|
            40 <= i < blob.len() ==> #[trigger] after[i] == moved_byte(
                blob,
                strings_start + strings_size,
                offset,
                old_length,
                part,
                i,
            ),
    ensures
        ({
            let growth = part.len() - old_length;
            let structure = blob.subrange(start, start + structure_size);
            &&& after.subrange(start, start + structure_size + growth) == structure.take(
                offset - start,
            ) + part + structure.skip(offset - start + old_length)
            &&& after.subrange(
                strings_start + growth,
                strings_start + growth + strings_size,
            ) == blob.subrange(strings_start, strings_start + strings_size)
        }),
{
    let growth = part.len() - old_length;
    let place = offset - start;
    let structure = blob.subrange(start, start + structure_size);
    let wanted = structure.take(place) + part + structure.skip(place + old_length);
    let read = after.subrange(start, start + structure_size + growth);
    assert forall|i: int| 0 <= i < wanted.len() implies read[i] == wanted[i] by {
        assert(read[i] == after[start + i]);
    }
    assert(read =~= wanted);
    let strings = blob.subrange(strings_start, strings_start + strings_size);
    let kept = after.subrange(strings_start + growth, strings_start + growth + strings_size);
    assert forall|i: int| 0 <= i < strings.len() implies kept[i] == strings[i] by {
        assert(kept[i] == after[strings_start + growth + i]);
    }
    assert(kept =~= strings);
}

/// Appending a string does so to the strings block that is read back, and leaves
/// the structure block and the rest of the header alone.
pub proof fn appending_reads_back(blob: Seq<u8>, name: Seq<u8>)
    requires
        strings_come_last(blob),
        used_end(blob) + name.len() + 1 <= blob.len(),
    ensures
        ({
            let after = string_appended(blob, name);
            &&& after.len() == blob.len()
            &&& strings_come_last(after)
            &&& structure_of(after) == structure_of(blob)
            &&& strings_of(after) == strings_of(blob) + name.push(0u8)
            &&& be32(after, 0) == be32(blob, 0)
            &&& be32(after, 4) == be32(blob, 4)
            &&& be32(after, 8) == be32(blob, 8)
            &&& be32(after, 12) == be32(blob, 12)
            &&& be32(after, 16) == be32(blob, 16)
            &&& be32(after, 20) == be32(blob, 20)
            &&& be32(after, 36) == be32(blob, 36)
            &&& be32(after, 32) == be32(blob, 32) + name.len() + 1
            &&& front_kept(blob, after)
        }),
{
    let middle = overwritten(blob, used_end(blob), name.push(0u8));
    assert(middle.len() == blob.len());
    assert forall|word: int| 0 <= word <= 36 implies #[trigger] be32(middle, word) == be32(
        blob,
        word,
    ) by {
        be32_depends_on_four_bytes(middle, word, blob, word);
    }
    word_set_changes_word(middle, 32, (be32(blob, 32) + name.len() + 1) as u32);
    let after = string_appended(blob, name);
    assert forall|i: int| 40 <= i < blob.len() implies after[i] == middle[i] by {}
    assert(structure_of(after) =~= structure_of(blob));
    assert(strings_of(after) =~= strings_of(blob) + name.push(0u8));
}

/// Appending a string leaves a sound header sound.
pub proof fn appending_keeps_header(blob: Seq<u8>, name: Seq<u8>)
    requires
        blob_fault(blob) is None,
        blob.len() == be32(blob, 4),
        used_end(blob) + name.len() + 1 <= blob.len(),
    ensures
        blob_fault(string_appended(blob, name)) is None,
        string_appended(blob, name).len() == blob.len(),
        be32(string_appended(blob, name), 4) == be32(blob, 4),
        be32(string_appended(blob, name), 8) == be32(blob, 8),
{
    let middle = overwritten(blob, used_end(blob), name.push(0u8));
    front_words_kept(blob, middle);
    let after = string_appended(blob, name);
    word_set_changes_word(middle, 32, (be32(blob, 32) + name.len() + 1) as u32);
    assert(be32(after, 0) == be32(middle, 0));
    assert(be32(after, 4) == be32(middle, 4));
    assert(be32(after, 8) == be32(middle, 8));
    assert(be32(after, 12) == be32(middle, 12));
    assert(be32(after, 16) == be32(middle, 16));
    assert(be32(after, 20) == be32(middle, 20));
    assert(be32(after, 36) == be32(middle, 36));
}

/// Ensuring a string leaves a sound header sound.
pub proof fn ensuring_keeps_header(blob: Seq<u8>, name: Seq<u8>)
    requires
        blob_fault(blob) is None,
        blob.len() == be32(blob, 4),
    ensures
        ({
            let named = string_ensured(blob, blob.len() as int, name).0;
            &&& blob_fault(named) is None
            &&& named.len() == blob.len()
            &&& be32(named, 4) == be32(blob, 4)
            &&& be32(named, 8) == be32(blob, 8)
        }),
{
    if string_ensured(blob, blob.len() as int, name).0 != blob {
        appending_keeps_header(blob, name);
    }
}

/// A string that was ensured is found at its offset, and the strings that the
/// block held before are still where they were.
pub proof fn ensured_string_reads_back(blob: Seq<u8>, name: Seq<u8>)
    requires
        strings_come_last(blob),
        valid_utf8(name),
        forall|i: int| 0 <= i < name.len() ==> name[i] != 0,
    ensures
        ({
            let (named, outcome) = string_ensured(blob, blob.len() as int, name);
            outcome matches Ok(offset) ==> c_string(strings_of(named), offset as int) == Some(name)
                && structure_of(named) == structure_of(blob) && forall|other: int|
                #![trigger c_string(strings_of(named), other)]
                c_string(strings_of(blob), other) is Some ==> c_string(strings_of(named), other)
                    == c_string(strings_of(blob), other)
        }),
{
    let strings = strings_of(blob);
    assert(strings_within(blob, blob.len() as int) =~= strings);
    if let Ok(offset) = string_ensured(blob, blob.len() as int, name).1 {
        found_string_is_there(strings, 0, name);
        if string_offset(strings, 0, name) == Ok::<Option<int>, EditError>(None) {
            appending_reads_back(blob, name);
            let longer = strings + name.push(0u8);
            zero_in_appended(strings, name, strings.len() as int);
            assert(longer.subrange(strings.len() as int, (strings.len() + name.len()) as int) =~= name);
            assert forall|other: int|
                c_string(strings, other) is Some implies #[trigger] c_string(longer, other)
                == c_string(strings, other) by {
                zero_survives(strings, name.push(0u8), other);
                if other >= 0 {
                    zero_from_is_first(strings, other);
                }
                let end = zero_from(strings, other)->0;
                assert(longer.subrange(other, end) =~= strings.subrange(other, end));
            }
        }
    }
}

proof fn found_string_is_there(strings: Seq<u8>, offset: int, name: Seq<u8>)
    ensures
        string_offset(strings, offset, name) matches Ok(Some(found)) ==> c_string(strings, found)
            == Some(name) && offset <= found < strings.len(),
    decreases strings.len() - offset,
{
    if 0 <= offset < strings.len() {
        if let Some(end) = zero_from(strings, offset) {
            if offset <= end < strings.len() {
                found_string_is_there(strings, end + 1, name);
            }
        }
    }
}

proof fn zero_in_appended(strings: Seq<u8>, name: Seq<u8>, at: int)
    requires
        strings.len() <= at <= strings.len() + name.len(),
        forall|i: int| 0 <= i < name.len() ==> name[i] != 0,
    ensures
        zero_from(strings + name.push(0u8), at) == Some((strings.len() + name.len()) as int),
    decreases strings.len() + name.len() - at,
{
    let longer = strings + name.push(0u8);
    if at < strings.len() + name.len() {
        assert(longer[at] == name[at - strings.len()]);
        zero_in_appended(strings, name, at + 1);
    } else {
        assert(longer[at] == 0);
    }
}

/// A terminator that was there before more bytes are appended is still the first.
pub proof fn zero_survives(bytes: Seq<u8>, more: Seq<u8>, from: int)
    ensures
        zero_from(bytes, from) is Some ==> zero_from(bytes + more, from) == zero_from(bytes, from),
    decreases bytes.len() - from,
{
    if 0 <= from < bytes.len() && bytes[from] != 0 {
        zero_survives(bytes, more, from + 1);
    }
}

/// Whether what was read of a blob is sound.
pub proof fn sound_header_survives(before: Seq<u8>, after: Seq<u8>)
    requires
        blob_fault(before) is None,
        after.len() == before.len(),
        strings_come_last(after),
        be32(after, 0) == be32(before, 0),
        be32(after, 4) == be32(before, 4),
        be32(after, 16) == be32(before, 16),
        be32(after, 20) == be32(before, 20),
        before.len() == be32(before, 4),
    ensures
        blob_fault(after) is None,
{
}

/// Writes bytes over a blob from `offset` on.
pub fn write_bytes(blob: &mut Vec<u8>, offset: usize, part: &[u8])
    requires
        offset + part@.len() <= old(blob)@.len(),
    ensures
        final(blob)@ == overwritten(old(blob)@, offset as int, part@),
{
    let ghost before = blob@;
    assert(before.len() == blob.len());
    let mut index: usize = 0;
    while index < part.len()
        invariant
            index <= part@.len(),
            offset + part@.len() <= before.len() <= usize::MAX,
            blob@ == overwritten(before, offset as int, part@.take(index as int)),
        decreases part@.len() - index,
    {
        blob.set(offset + index, part[index]);
        index += 1;
        assert(blob@ =~= overwritten(before, offset as int, part@.take(index as int)));
    }
    assert(part@.take(index as int) =~= part@);
    assert(part@.len() == 0 ==> overwritten(before, offset as int, part@) =~= before);
}

/// Writes one big-endian word.
pub fn write_word(blob: &mut Vec<u8>, offset: usize, value: u32)
    requires
        offset + 4 <= old(blob)@.len(),
    ensures
        final(blob)@ == word_set(old(blob)@, offset as int, value),
{
    let word: [u8; 4] = [
        (value / 0x100_0000) as u8,
        (value / 0x1_0000 % 0x100) as u8,
        (value / 0x100 % 0x100) as u8,
        (value % 0x100) as u8,
    ];
    assert(word@ =~= be32_bytes(value));
    write_bytes(blob, offset, word.as_slice());
}

/// Reads one word of a header.
pub fn header_word(blob: &Vec<u8>, offset: usize) -> (value: u32)
    requires
        offset + 4 <= blob@.len(),
    ensures
        value == be32(blob@, offset as int),
{
    match read_be_u32_from_slice(blob.as_slice(), offset) {
        Some(value) => value,
        None => 0,
    }
}

/// Tells why bytes of the structure block cannot be replaced, if they cannot.
pub fn replacement_error(
    blob: &Vec<u8>,
    size: usize,
    offset: u64,
    old_length: u64,
    new_length: u64,
) -> (error: Option<EditError>)
    requires
        40 <= blob@.len(),
        offset <= 0x4_0000_0000,
        old_length <= 0x4_0000_0000,
    ensures
        error == replacement_fault(
            blob@,
            size as int,
            offset as int,
            old_length as int,
            new_length as int,
        ),
{
    let struct_start: u64 = header_word(blob, 8) as u64;
    let struct_end: u64 = struct_start + header_word(blob, 36) as u64;
    let used: u64 = header_word(blob, 12) as u64 + header_word(blob, 32) as u64;
    if offset < struct_start || offset + old_length > struct_end {
        return Some(EditError::BadStructure);
    }
    if old_length > used {
        return Some(EditError::SizeOverflow);
    }
    let room: u64 = size as u64;
    let kept: u64 = used - old_length;
    if kept > room || new_length > room - kept {
        return Some(EditError::BufferTooSmall);
    }
    if offset + old_length > used || used > room {
        return Some(EditError::BadStructure);
    }
    None
}

/// Replaces `old_length` bytes of the structure block at `offset`, which counts
/// from the start of the blob, with `part`. The blob takes `size` bytes.
pub fn replace_in_structure(
    blob: &mut Vec<u8>,
    size: usize,
    offset: u64,
    old_length: u64,
    part: &[u8],
) -> (outcome: Result<(), EditError>)
    requires
        40 <= old(blob)@.len(),
        size <= old(blob)@.len(),
        offset <= 0x4_0000_0000,
        old_length <= 0x4_0000_0000,
    ensures
        (final(blob)@, outcome) == structure_replaced(
            old(blob)@,
            size as int,
            offset as int,
            old_length as int,
            part@,
        ),
{
    let ghost before = blob@;
    assert(blob@.len() == blob.len());
    if let Some(error) = replacement_error(blob, size, offset, old_length, part.len() as u64) {
        return Err(error);
    }
    let used: u64 = header_word(blob, 12) as u64 + header_word(blob, 32) as u64;
    let at = offset as usize;
    let tail = copy_range(blob.as_slice(), at + old_length as usize, used as usize);
    let mut zeros: Vec<u8> = Vec::new();
    while zeros.len() < part.len()
        invariant
            zeros@ == Seq::new(zeros@.len(), |i: int| 0u8),
            zeros@.len() <= part@.len(),
        decreases part@.len() - zeros@.len(),
    {
        let ghost longer = zeros@.len() + 1;
        zeros.push(0);
        assert(zeros@ =~= Seq::new(longer as nat, |i: int| 0u8));
    }
    write_bytes(blob, at + part.len(), tail.as_slice());
    write_bytes(blob, at, zeros.as_slice());
    assert(blob@ == moved(before, offset as int, old_length as int, zeros@));
    if part.len() as u64 >= old_length {
        let growth: u64 = part.len() as u64 - old_length;
        if growth > 0x7fff_ffff {
            return Err(EditError::SizeOverflow);
        }
    } else {
        let loss: u64 = old_length - part.len() as u64;
        if loss > 0x8000_0000 {
            return Err(EditError::SizeOverflow);
        }
    }
    match grow_lengths(blob, part.len() as u64, old_length) {
        Ok(()) => {},
        Err(error) => return Err(error),
    }
    write_bytes(blob, at, part);
    Ok(())
}

/// Tells in the header that `more` bytes took the place of `less` bytes of the
/// structure block.
fn grow_lengths(blob: &mut Vec<u8>, more: u64, less: u64) -> (outcome: Result<(), EditError>)
    requires
        40 <= old(blob)@.len(),
        more <= 0xffff_ffff_ffff,
        less <= 0xffff_ffff_ffff,
    ensures
        (final(blob)@, outcome) == lengths_grown(old(blob)@, more - less),
        final(blob)@.len() == old(blob)@.len(),
{
    let ghost before = blob@;
    let size: u64 = header_word(blob, 36) as u64 + more;
    if size < less || size - less > 0xffff_ffff {
        return Err(EditError::SizeOverflow);
    }
    write_word(blob, 36, (size - less) as u32);
    assert(blob@ == word_set(before, 36, (be32(before, 36) + (more - less)) as u32));
    let start: u64 = header_word(blob, 12) as u64 + more;
    if start < less || start - less > 0xffff_ffff {
        return Err(EditError::SizeOverflow);
    }
    write_word(blob, 12, (start - less) as u32);
    Ok(())
}

/// Finds a string in the strings block of a blob that takes `size` bytes, or appends it,
/// and returns its offset in the block.
pub fn ensure_string(blob: &mut Vec<u8>, size: usize, name: &[u8]) -> (offset: Result<
    u32,
    EditError,
>)
    requires
        40 <= old(blob)@.len(),
        size <= old(blob)@.len(),
        size <= u32::MAX,
    ensures
        (final(blob)@, offset) == string_ensured(old(blob)@, size as int, name@),
        final(blob)@.len() == old(blob)@.len(),
{
    let ghost before = blob@;
    assert(blob@.len() == blob.len());
    let strings_start: u64 = header_word(blob, 12) as u64;
    let strings_size: u32 = header_word(blob, 32);
    let used: u64 = strings_start + strings_size as u64;
    let room: u64 = size as u64;
    let end_inside: u64 = if used < room {
        used
    } else {
        room
    };
    let strings = if strings_start <= end_inside {
        &blob.as_slice()[strings_start as usize..end_inside as usize]
    } else {
        &blob.as_slice()[0..0]
    };
    assert(strings@ =~= strings_within(before, size as int));
    let mut offset: usize = 0;
    while offset < strings.len()
        invariant
            before == old(blob)@,
            blob@ == before,
            strings@ == strings_within(before, size as int),
            strings@.len() <= size <= u32::MAX,
            offset <= strings@.len(),
            string_offset(strings@, 0, name@) == string_offset(
                strings@,
                offset as int,
                name@,
            ),
        decreases strings@.len() - offset,
    {
        let end: usize = match find_zero(strings, offset) {
            Some(end) => end,
            None => return Err(EditError::BadStructure),
        };
        let existing = &strings[offset..end];
        if utf8_text(existing).is_none() {
            return Err(EditError::BadStructure);
        }
        if bytes_equal(existing, name) {
            return Ok(offset as u32);
        }
        offset = end + 1;
    }
    if strings_size > 0 && used > room {
        return Err(EditError::BadStructure);
    }
    if used >= room || name.len() as u64 >= room - used {
        return Err(EditError::BufferTooSmall);
    }
    let mut entry = copy_range(name, 0, name.len());
    assert(entry@ =~= name@);
    entry.push(0);
    write_bytes(blob, used as usize, entry.as_slice());
    write_word(blob, 32, (strings_size as u64 + name.len() as u64 + 1) as u32);
    Ok(strings_size)
}

} // verus!
