//! Fixed-width integers in byte strings, and comparisons of byte strings.

use vstd::prelude::*;
use vstd::string::*;
use vstd::utf8::*;

verus! {

/// The big-endian 32-bit number that starts at `offset`.
#[verifier::opaque]
pub open spec fn be32(bytes: Seq<u8>, offset: int) -> u32 {
    (bytes[offset] * 0x100_0000 + bytes[offset + 1] * 0x1_0000 + bytes[offset + 2] * 0x100
        + bytes[offset + 3]) as u32
}

/// The big-endian 64-bit number that starts at `offset`.
pub open spec fn be64(bytes: Seq<u8>, offset: int) -> u64 {
    (be32(bytes, offset) * 0x1_0000_0000 + be32(bytes, offset + 4)) as u64
}

/// The little-endian 16-bit number that starts at `offset`.
pub open spec fn le16(bytes: Seq<u8>, offset: int) -> u16 {
    (bytes[offset] + bytes[offset + 1] * 0x100) as u16
}

/// The little-endian 32-bit number that starts at `offset`.
pub open spec fn le32(bytes: Seq<u8>, offset: int) -> u32 {
    (bytes[offset] + bytes[offset + 1] * 0x100 + bytes[offset + 2] * 0x1_0000 + bytes[offset + 3]
        * 0x100_0000) as u32
}

/// The little-endian 64-bit number that starts at `offset`.
pub open spec fn le64(bytes: Seq<u8>, offset: int) -> u64 {
    (le32(bytes, offset) + le32(bytes, offset + 4) * 0x1_0000_0000) as u64
}

/// The four big-endian bytes of `value`.
pub open spec fn be32_bytes(value: u32) -> Seq<u8> {
    seq![
        (value / 0x100_0000) as u8,
        (value / 0x1_0000 % 0x100) as u8,
        (value / 0x100 % 0x100) as u8,
        (value % 0x100) as u8,
    ]
}

/// The eight big-endian bytes of `value`.
pub open spec fn be64_bytes(value: u64) -> Seq<u8> {
    be32_bytes((value / 0x1_0000_0000) as u32) + be32_bytes((value % 0x1_0000_0000) as u32)
}

/// The `length` bytes that start at `start`.
pub open spec fn window(bytes: Seq<u8>, start: int, length: int) -> Seq<u8> {
    Seq::new(length as nat, |i: int| bytes[start + i])
}

/// Two windows side by side are one window.
pub proof fn windows_join(bytes: Seq<u8>, start: int, first: int, second: int)
    requires
        0 <= first,
        0 <= second,
    ensures
        window(bytes, start, first) + window(bytes, start + first, second) == window(
            bytes,
            start,
            first + second,
        ),
{
    assert(window(bytes, start, first) + window(bytes, start + first, second) =~= window(
        bytes,
        start,
        first + second,
    ));
}

/// `data` with `part` written over it from place `at` on.
pub open spec fn overwritten(data: Seq<u8>, at: int, part: Seq<u8>) -> Seq<u8> {
    data.take(at) + part + data.skip(at + part.len())
}

/// Writing two parts side by side is writing both at once.
pub proof fn overwrites_join(data: Seq<u8>, at: int, first: Seq<u8>, second: Seq<u8>)
    requires
        0 <= at,
        at + first.len() + second.len() <= data.len(),
    ensures
        overwritten(overwritten(data, at, first), at + first.len(), second) == overwritten(
            data,
            at,
            first + second,
        ),
{
    assert(overwritten(overwritten(data, at, first), at + first.len(), second) =~= overwritten(
        data,
        at,
        first + second,
    ));
}

/// Writing inside of the first `size` bytes leaves the others alone.
pub proof fn overwrite_within(data: Seq<u8>, at: int, part: Seq<u8>, size: int)
    requires
        0 <= at,
        at + part.len() <= size <= data.len(),
    ensures
        overwritten(data, at, part).len() == data.len(),
        overwritten(data, at, part).take(size) == overwritten(data.take(size), at, part),
        overwritten(data, at, part).skip(size) == data.skip(size),
{
    assert(overwritten(data, at, part).take(size) =~= overwritten(data.take(size), at, part));
    assert(overwritten(data, at, part).skip(size) =~= data.skip(size));
}

/// Smallest multiple of four that is not below `value`.
pub open spec fn aligned4(value: int) -> int {
    (value + 3) / 4 * 4
}

/// Smallest multiple of four that is not below `value`, or `limit` where that
/// comes first.
pub open spec fn aligned4_within(value: int, limit: int) -> int {
    if aligned4(value) <= limit {
        aligned4(value)
    } else {
        limit
    }
}

/// Writing a 32-bit number big-endian and reading it back gives the number.
pub proof fn be32_round_trip(value: u32)
    ensures
        be32_bytes(value).len() == 4,
        be32(be32_bytes(value), 0) == value,
{
    reveal(be32);
    let bytes = be32_bytes(value);
    let second = value / 0x100;
    let third = second / 0x100;
    let fourth = third / 0x100;
    assert(value == second * 0x100 + value % 0x100);
    assert(second == third * 0x100 + second % 0x100);
    assert(third == fourth * 0x100 + third % 0x100);
    assert(value / 0x1_0000 == third && value / 0x100_0000 == fourth);
    assert(bytes[0] == fourth);
    assert(bytes[1] == third % 0x100);
    assert(bytes[2] == second % 0x100);
    assert(bytes[3] == value % 0x100);
}

/// Writing a 64-bit number big-endian and reading it back gives the number.
pub proof fn be64_round_trip(value: u64)
    ensures
        be64_bytes(value).len() == 8,
        be64(be64_bytes(value), 0) == value,
{
    let high = (value / 0x1_0000_0000) as u32;
    let low = (value % 0x1_0000_0000) as u32;
    be32_round_trip(high);
    be32_round_trip(low);
    be32_depends_on_four_bytes(be64_bytes(value), 0, be32_bytes(high), 0);
    be32_depends_on_four_bytes(be64_bytes(value), 4, be32_bytes(low), 0);
}

/// Two byte strings that agree on four places hold the same number there.
pub proof fn be32_depends_on_four_bytes(a: Seq<u8>, at_a: int, b: Seq<u8>, at_b: int)
    requires
        forall|i: int| 0 <= i < 4 ==> a[at_a + i] == #[trigger] b[at_b + i],
    ensures
        be32(a, at_a) == be32(b, at_b),
{
    reveal(be32);
    assert(b[at_b + 0] == a[at_a + 0]);
    assert(b[at_b + 1] == a[at_a + 1]);
    assert(b[at_b + 2] == a[at_a + 2]);
    assert(b[at_b + 3] == a[at_a + 3]);
}

/// Reads a big-endian 32-bit number, or nothing where it does not fit.
pub fn read_be_u32_from_slice(bytes: &[u8], offset: usize) -> (value: Option<u32>)
    ensures
        value == if offset + 4 <= bytes@.len() {
            Some(be32(bytes@, offset as int))
        } else {
            None
        },
{
    if bytes.len() < 4 || offset > bytes.len() - 4 {
        return None;
    }
    proof {
        reveal(be32);
    }
    Some(
        bytes[offset] as u32 * 0x100_0000 + bytes[offset + 1] as u32 * 0x1_0000 + bytes[offset
            + 2] as u32 * 0x100 + bytes[offset + 3] as u32,
    )
}

/// Reads a big-endian 64-bit number, or nothing where it does not fit.
pub fn read_be_u64_from_slice(bytes: &[u8], offset: usize) -> (value: Option<u64>)
    ensures
        value == if offset + 8 <= bytes@.len() {
            Some(be64(bytes@, offset as int))
        } else {
            None
        },
{
    if bytes.len() < 8 || offset > bytes.len() - 8 {
        return None;
    }
    match (read_be_u32_from_slice(bytes, offset), read_be_u32_from_slice(bytes, offset + 4)) {
        (Some(high), Some(low)) => Some(high as u64 * 0x1_0000_0000 + low as u64),
        _ => None,
    }
}

/// Reads a little-endian 16-bit number.
pub fn read_le_u16(bytes: &[u8], offset: usize) -> (value: u16)
    requires
        offset + 2 <= bytes@.len(),
    ensures
        value == le16(bytes@, offset as int),
{
    bytes[offset] as u16 + bytes[offset + 1] as u16 * 0x100
}

/// Reads a little-endian 32-bit number.
pub fn read_le_u32(bytes: &[u8], offset: usize) -> (value: u32)
    requires
        offset + 4 <= bytes@.len(),
    ensures
        value == le32(bytes@, offset as int),
{
    bytes[offset] as u32 + bytes[offset + 1] as u32 * 0x100 + bytes[offset + 2] as u32 * 0x1_0000
        + bytes[offset + 3] as u32 * 0x100_0000
}

/// Reads a little-endian 64-bit number.
pub fn read_le_u64(bytes: &[u8], offset: usize) -> (value: u64)
    requires
        offset + 8 <= bytes@.len(),
    ensures
        value == le64(bytes@, offset as int),
{
    assert(offset + 8 <= bytes.len());
    read_le_u32(bytes, offset) as u64 + read_le_u32(bytes, offset + 4) as u64 * 0x1_0000_0000
}

/// Rounds `value` up to a multiple of four.
pub fn align4(value: usize) -> (aligned: usize)
    requires
        value + 3 <= usize::MAX,
    ensures
        aligned == aligned4(value as int),
        value <= aligned < value + 4,
{
    (value + 3) / 4 * 4
}

/// Rounds `value` up to a multiple of four, but not past `limit`.
pub fn align4_within(value: usize, limit: usize) -> (aligned: usize)
    requires
        value <= limit,
    ensures
        aligned == aligned4_within(value as int, limit as int),
        value <= aligned <= limit,
{
    let gap: usize = (4 - value % 4) % 4;
    if limit - value < gap {
        limit
    } else {
        value + gap
    }
}

/// Tells whether two byte strings are the same.
pub fn bytes_equal(left: &[u8], right: &[u8]) -> (same: bool)
    ensures
        same == (left@ == right@),
{
    if left.len() != right.len() {
        return false;
    }
    let mut index: usize = 0;
    while index < left.len()
        invariant
            left@.len() == right@.len(),
            index <= left@.len(),
            forall|i: int| 0 <= i < index ==> left@[i] == right@[i],
        decreases left@.len() - index,
    {
        if left[index] != right[index] {
            return false;
        }
        index += 1;
    }
    assert(left@ =~= right@);
    true
}

/// Whether `bytes` begins with `prefix`.
pub open spec fn begins_with(bytes: Seq<u8>, prefix: Seq<u8>) -> bool {
    prefix.len() <= bytes.len() && bytes.take(prefix.len() as int) == prefix
}

/// Tells whether `bytes` begins with `prefix`.
pub fn starts_with(bytes: &[u8], prefix: &[u8]) -> (answer: bool)
    ensures
        answer == begins_with(bytes@, prefix@),
{
    if bytes.len() < prefix.len() {
        return false;
    }
    let head = &bytes[0..prefix.len()];
    bytes_equal(head, prefix)
}

/// Position of the first zero byte at or after `from`, if there is one.
pub open spec fn zero_from(bytes: Seq<u8>, from: int) -> Option<int>
    decreases bytes.len() - from,
{
    if from < 0 || from >= bytes.len() {
        None
    } else if bytes[from] == 0 {
        Some(from)
    } else {
        zero_from(bytes, from + 1)
    }
}

/// The first zero byte is in range, and everything before it is not zero.
pub proof fn zero_from_is_first(bytes: Seq<u8>, from: int)
    requires
        0 <= from,
    ensures
        match zero_from(bytes, from) {
            Some(at) => from <= at < bytes.len() && bytes[at] == 0 && forall|i: int|
                from <= i < at ==> bytes[i] != 0,
            None => forall|i: int| from <= i < bytes.len() ==> bytes[i] != 0,
        },
    decreases bytes.len() - from,
{
    if from < bytes.len() && bytes[from] != 0 {
        zero_from_is_first(bytes, from + 1);
    }
}

/// Finds the first zero byte at or after `from`.
pub fn find_zero(bytes: &[u8], from: usize) -> (at: Option<usize>)
    ensures
        at matches Some(i) ==> zero_from(bytes@, from as int) == Some(i as int) && from <= i
            < bytes@.len(),
        at is None ==> zero_from(bytes@, from as int) is None,
{
    let mut index: usize = from;
    while index < bytes.len()
        invariant
            from <= index,
            zero_from(bytes@, from as int) == zero_from(bytes@, index as int),
        decreases bytes@.len() - index,
    {
        if bytes[index] == 0 {
            return Some(index);
        }
        index += 1;
    }
    None
}

/// The terminated UTF-8 string that starts at `offset`: its bytes without the
/// terminator. Nothing where no terminator follows or the bytes are no UTF-8.
pub open spec fn c_string(bytes: Seq<u8>, offset: int) -> Option<Seq<u8>> {
    match zero_from(bytes, offset) {
        Some(end) => if valid_utf8(bytes.subrange(offset, end)) {
            Some(bytes.subrange(offset, end))
        } else {
            None
        },
        None => None,
    }
}

/// Text held by `bytes`, through `core::str::from_utf8`: it answers exactly
/// when the bytes are well-formed UTF-8, and the text has those bytes.
#[verifier::external_body]
pub(crate) fn utf8_text(bytes: &[u8]) -> (text: Option<&str>)
    ensures
        text is Some <==> valid_utf8(bytes@),
        text matches Some(value) ==> value.spec_bytes() == bytes@,
{
    core::str::from_utf8(bytes).ok()
}

/// Reads a terminated UTF-8 string.
pub fn read_c_string(bytes: &[u8], offset: usize) -> (text: Option<&[u8]>)
    ensures
        match text {
            Some(value) => c_string(bytes@, offset as int) == Some(value@) && offset + value@.len()
                < bytes@.len(),
            None => c_string(bytes@, offset as int) is None,
        },
{
    match find_zero(bytes, offset) {
        Some(end) => {
            let value = &bytes[offset..end];
            if utf8_text(value).is_some() {
                Some(value)
            } else {
                None
            }
        },
        None => None,
    }
}

/// The number that `cells` big-endian words make, of which the last two count.
/// A word that is missing counts as zero.
pub open spec fn cells_value(bytes: Seq<u8>, cells: nat) -> u64
    decreases cells,
{
    if cells == 0 {
        0
    } else {
        let word: u32 = if cells * 4 <= bytes.len() {
            be32(bytes, cells * 4 - 4)
        } else {
            0
        };
        (cells_value(bytes, (cells - 1) as nat) % 0x1_0000_0000 * 0x1_0000_0000 + word) as u64
    }
}

/// Combines `cells` big-endian words to one number.
pub fn read_cells(bytes: &[u8], cells: usize) -> (value: u64)
    ensures
        value == cells_value(bytes@, cells as nat),
{
    let mut value: u64 = 0;
    let mut index: usize = 0;
    while index < cells
        invariant
            index <= cells,
            value == cells_value(bytes@, index as nat),
        decreases cells - index,
    {
        let cell: u64 = if index < bytes.len() / 4 {
            match read_be_u32_from_slice(bytes, index * 4) {
                Some(word) => word as u64,
                None => 0,
            }
        } else {
            0
        };
        value = value % 0x1_0000_0000 * 0x1_0000_0000 + cell;
        index += 1;
    }
    value
}

} // verus!
