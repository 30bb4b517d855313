//! Records that are stored in a byte string, and the numbers in their fields.

use vstd::prelude::*;
use crate::bytes::{be32, be32_bytes, be64, be64_bytes, le16, le32, le64, window};
use crate::virtqueue_memory::{le16_bytes, le32_bytes, le64_bytes};

verus! {

/// Whether `part` stands at place `at` of `bytes`.
#[verifier::opaque]
pub open spec fn stored(bytes: Seq<u8>, at: int, part: Seq<u8>) -> bool {
    &&& 0 <= at
    &&& at + part.len() <= bytes.len()
    &&& bytes.subrange(at, at + part.len()) == part
}

/// `count` zeros.
pub open spec fn zeros(count: nat) -> Seq<u8> {
    Seq::new(count, |i: int| 0u8)
}

/// What is stored as a whole is stored in its parts, one behind the other.
pub proof fn stored_parts(bytes: Seq<u8>, at: int, first: Seq<u8>, second: Seq<u8>)
    requires
        stored(bytes, at, first + second),
    ensures
        stored(bytes, at, first),
        stored(bytes, at + first.len(), second),
{
    reveal(stored);
    let whole = first + second;
    let found = bytes.subrange(at, at + whole.len());
    assert(bytes.subrange(at, at + first.len()) =~= found.subrange(0, first.len() as int));
    assert(found.subrange(0, first.len() as int) =~= first);
    assert(bytes.subrange(at + first.len(), at + whole.len()) =~= found.subrange(
        first.len() as int,
        whole.len() as int,
    ));
    assert(found.subrange(first.len() as int, whole.len() as int) =~= second);
}

/// What is stored in a part of a byte string is stored in the byte string.
pub proof fn stored_within(bytes: Seq<u8>, start: int, end: int, at: int, part: Seq<u8>)
    requires
        0 <= start <= end <= bytes.len(),
    ensures
        stored(bytes.subrange(start, end), at, part) ==> stored(bytes, start + at, part),
        0 <= at && start + at + part.len() <= end && stored(bytes, start + at, part) ==> stored(
            bytes.subrange(start, end),
            at,
            part,
        ),
{
    reveal(stored);
    let block = bytes.subrange(start, end);
    if stored(block, at, part) {
        assert(bytes.subrange(start + at, start + at + part.len()) =~= block.subrange(
            at,
            at + part.len(),
        ));
    }
    if 0 <= at && start + at + part.len() <= end && stored(bytes, start + at, part) {
        assert(block.subrange(at, at + part.len()) =~= bytes.subrange(
            start + at,
            start + at + part.len(),
        ));
    }
}

/// Everything is stored in itself.
pub proof fn stored_whole(bytes: Seq<u8>)
    ensures
        stored(bytes, 0, bytes),
{
    reveal(stored);
    assert(bytes.subrange(0, bytes.len() as int) =~= bytes);
}

/// What is stored is where it is.
pub proof fn stored_is_there(bytes: Seq<u8>, at: int, part: Seq<u8>)
    requires
        stored(bytes, at, part),
    ensures
        0 <= at,
        at + part.len() <= bytes.len(),
        bytes.subrange(at, at + part.len()) == part,
        forall|i: int| 0 <= i < part.len() ==> #[trigger] bytes[at + i] == part[i],
{
    reveal(stored);
    assert forall|i: int| 0 <= i < part.len() implies #[trigger] bytes[at + i] == part[i] by {
        assert(bytes.subrange(at, at + part.len())[i] == part[i]);
    }
}

/// A window that lies inside of a byte string is a part of it.
pub proof fn window_is_part(bytes: Seq<u8>, start: int, length: int)
    requires
        0 <= start,
        0 <= length,
        start + length <= bytes.len(),
    ensures
        window(bytes, start, length) == bytes.subrange(start, start + length),
{
    assert(window(bytes, start, length) =~= bytes.subrange(start, start + length));
}

/// A 16-bit field holds the number that is stored there.
pub proof fn le16_stored(bytes: Seq<u8>, at: int, value: u16)
    requires
        stored(bytes, at, le16_bytes(value)),
    ensures
        le16(bytes, at) == value,
{
    reveal(stored);
    let found = bytes.subrange(at, at + 2);
    assert(found[0] == bytes[at] && found[1] == bytes[at + 1]);
    assert(le16_bytes(value)[0] == value % 0x100 && le16_bytes(value)[1] == value / 0x100);
}

/// A 32-bit field holds the number that is stored there.
pub proof fn le32_stored(bytes: Seq<u8>, at: int, value: u32)
    requires
        stored(bytes, at, le32_bytes(value)),
    ensures
        le32(bytes, at) == value,
{
    let low = (value % 0x1_0000) as u16;
    let high = (value / 0x1_0000) as u16;
    stored_parts(bytes, at, le16_bytes(low), le16_bytes(high));
    le16_stored(bytes, at, low);
    le16_stored(bytes, at + 2, high);
    assert(value == high * 0x1_0000 + low);
}

/// A 64-bit field holds the number that is stored there.
pub proof fn le64_stored(bytes: Seq<u8>, at: int, value: u64)
    requires
        stored(bytes, at, le64_bytes(value)),
    ensures
        le64(bytes, at) == value,
{
    let low = (value % 0x1_0000_0000) as u32;
    let high = (value / 0x1_0000_0000) as u32;
    stored_parts(bytes, at, le32_bytes(low), le32_bytes(high));
    le32_stored(bytes, at, low);
    le32_stored(bytes, at + 4, high);
    assert(value == high * 0x1_0000_0000 + low);
}

/// A big-endian 32-bit field holds the number that is stored there.
pub proof fn be32_stored(bytes: Seq<u8>, at: int, value: u32)
    requires
        stored(bytes, at, be32_bytes(value)),
    ensures
        be32(bytes, at) == value,
{
    reveal(stored);
    reveal(be32);
    let found = bytes.subrange(at, at + 4);
    assert(found[0] == bytes[at] && found[1] == bytes[at + 1] && found[2] == bytes[at + 2]
        && found[3] == bytes[at + 3]);
    let second = value / 0x100;
    let third = second / 0x100;
    let fourth = third / 0x100;
    assert(value == second * 0x100 + value % 0x100);
    assert(second == third * 0x100 + second % 0x100);
    assert(third == fourth * 0x100 + third % 0x100);
    assert(value / 0x1_0000 == third && value / 0x100_0000 == fourth);
}

/// A big-endian 64-bit field holds the number that is stored there.
pub proof fn be64_stored(bytes: Seq<u8>, at: int, value: u64)
    requires
        stored(bytes, at, be64_bytes(value)),
    ensures
        be64(bytes, at) == value,
{
    let high = (value / 0x1_0000_0000) as u32;
    let low = (value % 0x1_0000_0000) as u32;
    stored_parts(bytes, at, be32_bytes(high), be32_bytes(low));
    be32_stored(bytes, at, high);
    be32_stored(bytes, at + 4, low);
    assert(value == high * 0x1_0000_0000 + low);
}

} // verus!
