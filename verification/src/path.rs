//! Slash-separated paths.

use vstd::prelude::*;

verus! {

/// Place of the first slash at or after `from`, or the end of the path.
pub open spec fn slash_from(path: Seq<u8>, from: int) -> int
    decreases path.len() - from,
{
    if from < 0 || from >= path.len() {
        path.len() as int
    } else if path[from] == 0x2f {
        from
    } else {
        slash_from(path, from + 1)
    }
}

/// A slash found from a place in the path is not before that place.
pub proof fn slash_from_is_ahead(path: Seq<u8>, from: int)
    requires
        0 <= from <= path.len(),
    ensures
        from <= slash_from(path, from) <= path.len(),
    decreases path.len() - from,
{
    if from < path.len() && path[from] != 0x2f {
        slash_from_is_ahead(path, from + 1);
    }
}

/// The components of a path from `from` on: what stands between slashes, without
/// the empty ones.
pub open spec fn components_from(path: Seq<u8>, from: int) -> Seq<Seq<u8>>
    decreases path.len() - from,
{
    if from < 0 || from >= path.len() {
        Seq::empty()
    } else if path[from] == 0x2f {
        components_from(path, from + 1)
    } else {
        let end = slash_from(path, from);
        if end <= from || end > path.len() {
            Seq::empty()
        } else {
            seq![path.subrange(from, end)] + components_from(path, end)
        }
    }
}

/// The components of a path.
pub open spec fn components_of(path: Seq<u8>) -> Seq<Seq<u8>> {
    components_from(path, 0)
}

/// Whether `parts` are the byte strings `components`.
pub open spec fn parts_are(parts: Seq<Vec<u8>>, components: Seq<Seq<u8>>) -> bool {
    &&& parts.len() == components.len()
    &&& forall|i: int| 0 <= i < parts.len() ==> (#[trigger] parts[i])@ == components[i]
}

/// Copies the bytes of `bytes` from `start` up to `end`.
pub fn copy_range(bytes: &[u8], start: usize, end: usize) -> (copy: Vec<u8>)
    requires
        start <= end <= bytes@.len(),
    ensures
        copy@ == bytes@.subrange(start as int, end as int),
{
    let mut copy: Vec<u8> = Vec::new();
    let mut index: usize = start;
    while index < end
        invariant
            start <= index <= end <= bytes@.len(),
            copy@ == bytes@.subrange(start as int, index as int),
        decreases end - index,
    {
        copy.push(bytes[index]);
        index += 1;
        assert(copy@ =~= bytes@.subrange(start as int, index as int));
    }
    copy
}

/// Splits a path into its components.
pub fn split_components(path: &[u8]) -> (parts: Vec<Vec<u8>>)
    ensures
        parts_are(parts@, components_of(path@)),
{
    let mut parts: Vec<Vec<u8>> = Vec::new();
    let mut cursor: usize = 0;
    let ghost mut done: Seq<Seq<u8>> = Seq::empty();
    assert(done + components_of(path@) =~= components_of(path@));
    while cursor < path.len()
        invariant
            cursor <= path@.len(),
            parts_are(parts@, done),
            done + components_from(path@, cursor as int) == components_of(path@),
        decreases path@.len() - cursor,
    {
        if path[cursor] == 0x2f {
            cursor += 1;
        } else {
            let start = cursor;
            while cursor < path.len() && path[cursor] != 0x2f
                invariant
                    start <= cursor <= path@.len(),
                    slash_from(path@, start as int) == slash_from(path@, cursor as int),
                decreases path@.len() - cursor,
            {
                cursor += 1;
            }
            let part = copy_range(path, start, cursor);
            proof {
                let rest = components_from(path@, cursor as int);
                assert(slash_from(path@, start as int) == cursor);
                assert(done + (seq![part@] + rest) =~= done.push(part@) + rest);
                done = done.push(part@);
            }
            parts.push(part);
        }
    }
    assert(done + components_from(path@, cursor as int) =~= done);
    parts
}

/// The lower-case form of an ASCII letter; other bytes stay.
pub open spec fn ascii_lower(byte: u8) -> u8 {
    if 0x41 <= byte <= 0x5a {
        (byte + 0x20) as u8
    } else {
        byte
    }
}

/// Whether two names are the same up to the case of ASCII letters.
pub open spec fn same_ignoring_case(left: Seq<u8>, right: Seq<u8>) -> bool {
    &&& left.len() == right.len()
    &&& forall|i: int| 0 <= i < left.len() ==> ascii_lower(left[i]) == ascii_lower(right[i])
}

fn to_lower(byte: u8) -> (lower: u8)
    ensures
        lower == ascii_lower(byte),
{
    if 0x41 <= byte && byte <= 0x5a {
        byte + 0x20
    } else {
        byte
    }
}

/// Compares two names without regard to the case of ASCII letters.
pub fn equal_ignoring_case(left: &[u8], right: &[u8]) -> (same: bool)
    ensures
        same == same_ignoring_case(left@, right@),
{
    if left.len() != right.len() {
        return false;
    }
    let mut index: usize = 0;
    while index < left.len()
        invariant
            left@.len() == right@.len(),
            index <= left@.len(),
            forall|i: int| 0 <= i < index ==> ascii_lower(left@[i]) == ascii_lower(right@[i]),
        decreases left@.len() - index,
    {
        if to_lower(left[index]) != to_lower(right[index]) {
            return false;
        }
        index += 1;
    }
    true
}

/// Names compare equal to themselves, whatever their case.
pub proof fn ignoring_case_is_an_equivalence(a: Seq<u8>, b: Seq<u8>, c: Seq<u8>)
    ensures
        same_ignoring_case(a, a),
        same_ignoring_case(a, b) == same_ignoring_case(b, a),
        same_ignoring_case(a, b) && same_ignoring_case(b, c) ==> same_ignoring_case(a, c),
{
    if same_ignoring_case(a, b) {
        assert forall|i: int| 0 <= i < b.len() implies ascii_lower(b[i]) == ascii_lower(a[i]) by {
            assert(ascii_lower(a[i]) == ascii_lower(b[i]));
        }
    }
    if same_ignoring_case(b, a) {
        assert forall|i: int| 0 <= i < a.len() implies ascii_lower(a[i]) == ascii_lower(b[i]) by {
            assert(ascii_lower(b[i]) == ascii_lower(a[i]));
        }
    }
    if same_ignoring_case(a, b) && same_ignoring_case(b, c) {
        assert forall|i: int| 0 <= i < a.len() implies ascii_lower(a[i]) == ascii_lower(c[i]) by {
            assert(ascii_lower(a[i]) == ascii_lower(b[i]));
            assert(ascii_lower(b[i]) == ascii_lower(c[i]));
        }
    }
}

} // verus!
