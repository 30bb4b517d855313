//! What a change in the middle of a structure block does to the nodes in it.
//!
//! A splice replaces bytes at one token of the block. Tokens before that place
//! read as before. Tokens behind it read as before, moved by the growth.

use vstd::prelude::*;
use vstd::utf8::*;
use crate::bytes::{be32, be32_depends_on_four_bytes, zero_from, zero_from_is_first};
use crate::fdt_nodes::{
    after_begin, after_property, child_named, children_of, closing_from, closing_is_ahead,
    descendant, named_from, node_at, node_name, nodes_from, steps_advance, tag_at, NodeSpan,
};
use crate::fdt_tokens::{FDT_BEGIN_NODE, FDT_END_NODE, FDT_NOP, FDT_PROP};

verus! {

/// A block with `part` in place of `old_length` bytes at `place`.
pub open spec fn spliced(block: Seq<u8>, place: int, old_length: int, part: Seq<u8>) -> Seq<u8> {
    block.take(place) + part + block.skip(place + old_length)
}

/// Whether a splice is at a place behind which the block goes on, and moves what
/// is behind it by whole words.
pub open spec fn splices_words(block: Seq<u8>, place: int, old_length: int, part: Seq<u8>) -> bool {
    &&& 0 <= place
    &&& 0 <= old_length
    &&& place + old_length < block.len()
    &&& (part.len() - old_length) % 4 == 0
}

/// An offset moved by the growth of a splice.
pub open spec fn shifted(offset: Option<int>, growth: int) -> Option<int> {
    match offset {
        Some(place) => Some(place + growth),
        None => None,
    }
}

proof fn zero_same_before(a: Seq<u8>, b: Seq<u8>, from: int, end: int)
    requires
        0 <= from <= end < a.len(),
        end < b.len(),
        zero_from(a, from) == Some(end),
        forall|i: int| from <= i <= end ==> a[i] == b[i],
    ensures
        zero_from(b, from) == Some(end),
    decreases end - from,
{
    zero_from_is_first(a, from);
    if a[from] != 0 {
        zero_same_before(a, b, from + 1, end);
    }
}

proof fn zero_same_behind(a: Seq<u8>, b: Seq<u8>, from: int, growth: int)
    requires
        0 <= from,
        0 <= from + growth,
        b.len() == a.len() + growth,
        forall|i: int| from <= i < a.len() ==> a[i] == #[trigger] b[i + growth],
    ensures
        zero_from(b, from + growth) == shifted(zero_from(a, from), growth),
    decreases a.len() - from,
{
    if from < a.len() {
        assert(a[from] == b[from + growth]);
        if a[from] != 0 {
            zero_same_behind(a, b, from + 1, growth);
        }
    }
}

/// Tokens that end at or before the place of a splice read as before.
pub proof fn steps_before(block: Seq<u8>, place: int, old_length: int, part: Seq<u8>, offset: int)
    requires
        splices_words(block, place, old_length, part),
        0 <= offset,
    ensures
        ({
            let after = spliced(block, place, old_length, part);
            &&& offset + 4 <= place ==> tag_at(after, offset) == tag_at(block, offset)
            &&& (after_begin(block, offset) matches Some(next) ==> (next <= place ==> after_begin(
                after,
                offset,
            ) == Some(next) && node_name(after, offset) == node_name(block, offset)))
            &&& (after_property(block, offset) matches Some(next) ==> (next <= place
                ==> after_property(after, offset) == Some(next) && be32(after, offset + 4) == be32(
                block,
                offset + 4,
            ) && be32(after, offset + 8) == be32(block, offset + 8)))
        }),
{
    let after = spliced(block, place, old_length, part);
    assert forall|i: int| 0 <= i < place implies after[i] == block[i] by {}
    steps_advance(block, offset);
    if offset + 4 <= place {
        be32_depends_on_four_bytes(after, offset, block, offset);
    }
    if let Some(next) = after_begin(block, offset) {
        if next <= place {
            zero_from_is_first(block, offset + 4);
            let end = zero_from(block, offset + 4)->0;
            zero_same_before(block, after, offset + 4, end);
            assert(after.subrange(offset + 4, end) =~= block.subrange(offset + 4, end));
        }
    }
    if let Some(next) = after_property(block, offset) {
        if next <= place {
            be32_depends_on_four_bytes(after, offset + 4, block, offset + 4);
            be32_depends_on_four_bytes(after, offset + 8, block, offset + 8);
        }
    }
}

/// Whether two blocks hold the same bytes from `offset` on, in the second one
/// moved by `growth`.
pub open spec fn moved_from(a: Seq<u8>, b: Seq<u8>, offset: int, growth: int) -> bool {
    &&& b.len() == a.len() + growth
    &&& 0 <= offset
    &&& 0 <= offset + growth
    &&& growth % 4 == 0
    &&& forall|i: int| offset <= i < a.len() ==> a[i] == #[trigger] b[i + growth]
}

proof fn words_move(a: Seq<u8>, b: Seq<u8>, offset: int, growth: int, at: int)
    requires
        moved_from(a, b, offset, growth),
        offset <= at,
        at + 4 <= a.len(),
    ensures
        be32(b, at + growth) == be32(a, at),
{
    assert forall|i: int| 0 <= i < 4 implies b[at + growth + i] == #[trigger] a[at + i] by {
        assert(a[at + i] == b[(at + i) + growth]);
    }
    be32_depends_on_four_bytes(b, at + growth, a, at);
}

proof fn begins_move(a: Seq<u8>, b: Seq<u8>, offset: int, growth: int)
    requires
        moved_from(a, b, offset, growth),
    ensures
        tag_at(b, offset + growth) == tag_at(a, offset),
        node_name(b, offset + growth) == node_name(a, offset),
        after_begin(b, offset + growth) == shifted(after_begin(a, offset), growth),
{
    if offset + 4 <= a.len() {
        words_move(a, b, offset, growth, offset);
    }
    if tag_at(a, offset) == Some(FDT_BEGIN_NODE) {
        zero_same_behind(a, b, offset + 4, growth);
        zero_from_is_first(a, offset + 4);
        if let Some(end) = zero_from(a, offset + 4) {
            let there = b.subrange(offset + growth + 4, end + growth);
            let here = a.subrange(offset + 4, end);
            assert forall|i: int| 0 <= i < here.len() implies there[i] == here[i] by {
                assert(a[offset + 4 + i] == b[(offset + 4 + i) + growth]);
            }
            assert(there =~= here);
        }
    }
}

proof fn properties_move(a: Seq<u8>, b: Seq<u8>, offset: int, growth: int)
    requires
        moved_from(a, b, offset, growth),
    ensures
        after_property(b, offset + growth) == shifted(after_property(a, offset), growth),
        offset + 12 <= a.len() ==> be32(b, offset + growth + 4) == be32(a, offset + 4) && be32(
            b,
            offset + growth + 8,
        ) == be32(a, offset + 8),
{
    if offset + 12 <= a.len() {
        words_move(a, b, offset, growth, offset + 4);
        words_move(a, b, offset, growth, offset + 8);
    }
}

/// Tokens behind a splice read as before, moved by its growth.
pub proof fn steps_behind(block: Seq<u8>, place: int, old_length: int, part: Seq<u8>, offset: int)
    requires
        splices_words(block, place, old_length, part),
        place + old_length <= offset,
    ensures
        ({
            let after = spliced(block, place, old_length, part);
            let growth = part.len() - old_length;
            &&& tag_at(after, offset + growth) == tag_at(block, offset)
            &&& node_name(after, offset + growth) == node_name(block, offset)
            &&& after_begin(after, offset + growth) == shifted(after_begin(block, offset), growth)
            &&& after_property(after, offset + growth) == shifted(
                after_property(block, offset),
                growth,
            )
            &&& offset + 12 <= block.len() ==> be32(after, offset + growth + 4) == be32(
                block,
                offset + 4,
            ) && be32(after, offset + growth + 8) == be32(block, offset + 8)
        }),
{
    let after = spliced(block, place, old_length, part);
    let growth = part.len() - old_length;
    assert(moved_from(block, after, offset, growth)) by {
        assert forall|i: int| offset <= i < block.len() implies block[i] == #[trigger] after[i
            + growth] by {
            assert(after[i + growth] == block.skip(place + old_length)[i - place - old_length]);
        }
    }
    begins_move(block, after, offset, growth);
    properties_move(block, after, offset, growth);
}

/// Nodes behind a splice close as before, moved by its growth.
pub proof fn closing_behind(
    block: Seq<u8>,
    place: int,
    old_length: int,
    part: Seq<u8>,
    offset: int,
    depth: nat,
)
    requires
        splices_words(block, place, old_length, part),
        place + old_length <= offset,
    ensures
        ({
            let growth = part.len() - old_length;
            closing_from(spliced(block, place, old_length, part), offset + growth, depth) == shifted(
                closing_from(block, offset, depth),
                growth,
            )
        }),
    decreases block.len() - offset,
{
    let after = spliced(block, place, old_length, part);
    let growth = part.len() - old_length;
    steps_behind(block, place, old_length, part, offset);
    steps_advance(block, offset);
    if let Some(tag) = tag_at(block, offset) {
        assert(be32(after, offset + growth) == tag);
        if tag == FDT_BEGIN_NODE {
            if let Some(next) = after_begin(block, offset) {
                closing_behind(block, place, old_length, part, next, depth + 1);
            }
        } else if tag == FDT_PROP {
            if let Some(next) = after_property(block, offset) {
                closing_behind(block, place, old_length, part, next, depth);
            }
        } else if tag == FDT_END_NODE {
            if depth > 1 {
                closing_behind(block, place, old_length, part, offset + 4, (depth - 1) as nat);
            }
        } else if tag == FDT_NOP {
            closing_behind(block, place, old_length, part, offset + 4, depth);
        }
    }
}

/// Nodes that close before a splice close as before.
pub proof fn closing_before(
    block: Seq<u8>,
    place: int,
    old_length: int,
    part: Seq<u8>,
    offset: int,
    depth: nat,
)
    requires
        splices_words(block, place, old_length, part),
        0 <= offset,
        closing_from(block, offset, depth) matches Some(end) && end + 4 <= place,
    ensures
        closing_from(spliced(block, place, old_length, part), offset, depth) == closing_from(
            block,
            offset,
            depth,
        ),
    decreases block.len() - offset,
{
    let after = spliced(block, place, old_length, part);
    steps_before(block, place, old_length, part, offset);
    steps_advance(block, offset);
    closing_is_ahead(block, offset, depth);
    let tag = tag_at(block, offset)->0;
    if tag == FDT_BEGIN_NODE {
        let next = after_begin(block, offset)->0;
        closing_is_ahead(block, next, depth + 1);
        closing_before(block, place, old_length, part, next, depth + 1);
    } else if tag == FDT_PROP {
        let next = after_property(block, offset)->0;
        closing_is_ahead(block, next, depth);
        closing_before(block, place, old_length, part, next, depth);
    } else if tag == FDT_END_NODE {
        if depth > 1 {
            closing_is_ahead(block, offset + 4, (depth - 1) as nat);
            closing_before(block, place, old_length, part, offset + 4, (depth - 1) as nat);
        }
    } else {
        closing_is_ahead(block, offset + 4, depth);
        closing_before(block, place, old_length, part, offset + 4, depth);
    }
}

/// Whether reading token by token from `offset`, with `depth` nodes open, comes
/// to `target` with `final_depth` nodes open, and never closes the outermost one.
pub open spec fn reaches(
    block: Seq<u8>,
    offset: int,
    depth: nat,
    target: int,
    final_depth: nat,
) -> bool
    decreases block.len() - offset,
{
    if offset >= target {
        offset == target && depth == final_depth
    } else {
        match tag_at(block, offset) {
            Some(tag) => if tag == FDT_BEGIN_NODE {
                match after_begin(block, offset) {
                    Some(next) => offset < next <= block.len() && reaches(
                        block,
                        next,
                        depth + 1,
                        target,
                        final_depth,
                    ),
                    None => false,
                }
            } else if tag == FDT_END_NODE {
                depth >= 2 && reaches(block, offset + 4, (depth - 1) as nat, target, final_depth)
            } else if tag == FDT_PROP {
                match after_property(block, offset) {
                    Some(next) => offset < next <= block.len() && reaches(
                        block,
                        next,
                        depth,
                        target,
                        final_depth,
                    ),
                    None => false,
                }
            } else if tag == FDT_NOP {
                reaches(block, offset + 4, depth, target, final_depth)
            } else {
                false
            },
            None => false,
        }
    }
}

/// Reading that comes to a place closes its nodes as reading from that place
/// does.
pub proof fn reaching_closes_alike(
    block: Seq<u8>,
    offset: int,
    depth: nat,
    target: int,
    final_depth: nat,
)
    requires
        reaches(block, offset, depth, target, final_depth),
        target <= block.len(),
    ensures
        closing_from(block, offset, depth) == closing_from(block, target, final_depth),
        depth >= 1 ==> final_depth >= 1,
    decreases block.len() - offset,
{
    steps_advance(block, offset);
    if offset < target {
        let tag = tag_at(block, offset)->0;
        if tag == FDT_BEGIN_NODE {
            let next = after_begin(block, offset)->0;
            reaching_closes_alike(block, next, depth + 1, target, final_depth);
        } else if tag == FDT_END_NODE {
            reaching_closes_alike(block, offset + 4, (depth - 1) as nat, target, final_depth);
        } else if tag == FDT_PROP {
            let next = after_property(block, offset)->0;
            reaching_closes_alike(block, next, depth, target, final_depth);
        } else {
            reaching_closes_alike(block, offset + 4, depth, target, final_depth);
        }
    }
}

/// Reading that comes to the place of a splice still does after it.
pub proof fn reaching_survives(
    block: Seq<u8>,
    place: int,
    old_length: int,
    part: Seq<u8>,
    offset: int,
    depth: nat,
    target: int,
    final_depth: nat,
)
    requires
        splices_words(block, place, old_length, part),
        0 <= offset,
        target <= place,
        reaches(block, offset, depth, target, final_depth),
    ensures
        reaches(spliced(block, place, old_length, part), offset, depth, target, final_depth),
    decreases block.len() - offset,
{
    let after = spliced(block, place, old_length, part);
    steps_before(block, place, old_length, part, offset);
    steps_advance(block, offset);
    steps_advance(after, offset);
    if offset < target {
        let tag = tag_at(block, offset)->0;
        if tag == FDT_BEGIN_NODE {
            let next = after_begin(block, offset)->0;
            reached_is_ahead(block, next, depth + 1, target, final_depth);
            reaching_survives(
                block,
                place,
                old_length,
                part,
                next,
                depth + 1,
                target,
                final_depth,
            );
        } else if tag == FDT_END_NODE {
            reached_is_ahead(block, offset + 4, (depth - 1) as nat, target, final_depth);
            reaching_survives(
                block,
                place,
                old_length,
                part,
                offset + 4,
                (depth - 1) as nat,
                target,
                final_depth,
            );
        } else if tag == FDT_PROP {
            let next = after_property(block, offset)->0;
            reached_is_ahead(block, next, depth, target, final_depth);
            reaching_survives(
                block,
                place,
                old_length,
                part,
                next,
                depth,
                target,
                final_depth,
            );
        } else {
            reached_is_ahead(block, offset + 4, depth, target, final_depth);
            reaching_survives(
                block,
                place,
                old_length,
                part,
                offset + 4,
                depth,
                target,
                final_depth,
            );
        }
    }
}

proof fn reached_is_ahead(
    block: Seq<u8>,
    offset: int,
    depth: nat,
    target: int,
    final_depth: nat,
)
    requires
        reaches(block, offset, depth, target, final_depth),
    ensures
        offset <= target,
{
}

/// Reading in two stretches is reading in one.
pub proof fn reaching_joins(
    block: Seq<u8>,
    offset: int,
    depth: nat,
    middle: int,
    middle_depth: nat,
    target: int,
    final_depth: nat,
)
    requires
        reaches(block, offset, depth, middle, middle_depth),
        reaches(block, middle, middle_depth, target, final_depth),
    ensures
        reaches(block, offset, depth, target, final_depth),
    decreases block.len() - offset,
{
    steps_advance(block, offset);
    if offset < middle {
        let tag = tag_at(block, offset)->0;
        if tag == FDT_BEGIN_NODE {
            let next = after_begin(block, offset)->0;
            reaching_joins(
                block,
                next,
                depth + 1,
                middle,
                middle_depth,
                target,
                final_depth,
            );
        } else if tag == FDT_END_NODE {
            reaching_joins(
                block,
                offset + 4,
                (depth - 1) as nat,
                middle,
                middle_depth,
                target,
                final_depth,
            );
        } else if tag == FDT_PROP {
            let next = after_property(block, offset)->0;
            reaching_joins(block, next, depth, middle, middle_depth, target, final_depth);
        } else {
            reaching_joins(block, offset + 4, depth, middle, middle_depth, target, final_depth);
        }
    }
}

/// Reading inside of more open nodes goes the same way.
pub proof fn reaching_lifts(
    block: Seq<u8>,
    offset: int,
    depth: nat,
    target: int,
    final_depth: nat,
    more: nat,
)
    requires
        reaches(block, offset, depth, target, final_depth),
    ensures
        reaches(block, offset, depth + more, target, final_depth + more),
    decreases block.len() - offset,
{
    steps_advance(block, offset);
    if offset < target {
        let tag = tag_at(block, offset)->0;
        if tag == FDT_BEGIN_NODE {
            let next = after_begin(block, offset)->0;
            reaching_lifts(block, next, depth + 1, target, final_depth, more);
        } else if tag == FDT_END_NODE {
            reaching_lifts(block, offset + 4, (depth - 1) as nat, target, final_depth, more);
        } else if tag == FDT_PROP {
            let next = after_property(block, offset)->0;
            reaching_lifts(block, next, depth, target, final_depth, more);
        } else {
            reaching_lifts(block, offset + 4, depth, target, final_depth, more);
        }
    }
}

/// Reading passes over a whole node.
pub proof fn reaching_skips_node(block: Seq<u8>, offset: int, depth: nat, outer: nat)
    requires
        closing_from(block, offset, depth) is Some,
        outer >= 1,
    ensures
        reaches(
            block,
            offset,
            depth + outer,
            closing_from(block, offset, depth)->0 + 4,
            outer,
        ),
    decreases block.len() - offset,
{
    steps_advance(block, offset);
    closing_is_ahead(block, offset, depth);
    let end = closing_from(block, offset, depth)->0;
    let tag = tag_at(block, offset)->0;
    if tag == FDT_BEGIN_NODE {
        let next = after_begin(block, offset)->0;
        closing_is_ahead(block, next, depth + 1);
        reaching_skips_node(block, next, depth + 1, outer);
    } else if tag == FDT_END_NODE {
        if depth > 1 {
            reaching_skips_node(block, offset + 4, (depth - 1) as nat, outer);
        } else {
            assert(end == offset);
            assert(reaches(block, offset + 4, outer, end + 4, outer));
        }
    } else if tag == FDT_PROP {
        let next = after_property(block, offset)->0;
        reaching_skips_node(block, next, depth, outer);
    } else {
        reaching_skips_node(block, offset + 4, depth, outer);
    }
}

/// The nodes passed when reading goes from `offset` to `target` without entering
/// any, or nothing where it does not come to `target`.
pub open spec fn listed_to(block: Seq<u8>, offset: int, target: int) -> Option<Seq<NodeSpan>>
    decreases block.len() - offset,
{
    if offset >= target {
        if offset == target {
            Some(Seq::empty())
        } else {
            None
        }
    } else {
        match tag_at(block, offset) {
            Some(tag) => if tag == FDT_PROP {
                match after_property(block, offset) {
                    Some(next) => if offset < next <= block.len() {
                        listed_to(block, next, target)
                    } else {
                        None
                    },
                    None => None,
                }
            } else if tag == FDT_NOP {
                listed_to(block, offset + 4, target)
            } else if tag == FDT_BEGIN_NODE {
                match node_at(block, offset) {
                    Some(node) => if offset <= node.end && node.end + 4 <= block.len() {
                        match listed_to(block, node.end + 4, target) {
                            Some(rest) => Some(seq![node] + rest),
                            None => None,
                        }
                    } else {
                        None
                    },
                    None => None,
                }
            } else {
                None
            },
            None => None,
        }
    }
}

/// A list of nodes is what is passed on the way to a place and what comes behind
/// it.
pub proof fn listing_joins(block: Seq<u8>, offset: int, target: int, end: int)
    requires
        listed_to(block, offset, target) is Some,
        target <= end,
    ensures
        nodes_from(block, offset, end) == listed_to(block, offset, target)->0 + nodes_from(
            block,
            target,
            end,
        ),
    decreases block.len() - offset,
{
    let tail = nodes_from(block, target, end);
    if offset >= target {
        assert(Seq::<NodeSpan>::empty() + tail =~= tail);
    } else {
        steps_advance(block, offset);
        let tag = tag_at(block, offset)->0;
        if tag == FDT_PROP {
            listing_joins(block, after_property(block, offset)->0, target, end);
        } else if tag == FDT_NOP {
            listing_joins(block, offset + 4, target, end);
        } else {
            let node = node_at(block, offset)->0;
            listing_joins(block, node.end + 4, target, end);
            let rest = listed_to(block, node.end + 4, target)->0;
            assert(seq![node] + (rest + tail) =~= seq![node] + rest + tail);
        }
    }
}

/// Passing nodes is reading over them.
pub proof fn listing_reaches(block: Seq<u8>, offset: int, target: int, depth: nat)
    requires
        listed_to(block, offset, target) is Some,
        depth >= 1,
    ensures
        reaches(block, offset, depth, target, depth),
    decreases block.len() - offset,
{
    if offset < target {
        steps_advance(block, offset);
        let tag = tag_at(block, offset)->0;
        if tag == FDT_PROP {
            listing_reaches(block, after_property(block, offset)->0, target, depth);
        } else if tag == FDT_NOP {
            listing_reaches(block, offset + 4, target, depth);
        } else {
            let node = node_at(block, offset)->0;
            listing_reaches(block, node.end + 4, target, depth);
            reaching_skips_node(block, offset, 0, depth);
            reaching_joins(block, offset, depth, node.end + 4, depth, target, depth);
        }
    }
}

/// The nodes passed on the way to the place of a splice are the same after it.
pub proof fn listing_survives(
    block: Seq<u8>,
    place: int,
    old_length: int,
    part: Seq<u8>,
    offset: int,
    target: int,
)
    requires
        splices_words(block, place, old_length, part),
        0 <= offset,
        target <= place,
        listed_to(block, offset, target) is Some,
    ensures
        listed_to(spliced(block, place, old_length, part), offset, target) == listed_to(
            block,
            offset,
            target,
        ),
    decreases block.len() - offset,
{
    let after = spliced(block, place, old_length, part);
    if offset < target {
        steps_before(block, place, old_length, part, offset);
        steps_advance(block, offset);
        let tag = tag_at(block, offset)->0;
        if tag == FDT_PROP {
            let next = after_property(block, offset)->0;
            listed_is_ahead(block, next, target);
            listing_survives(block, place, old_length, part, next, target);
        } else if tag == FDT_NOP {
            listed_is_ahead(block, offset + 4, target);
            listing_survives(block, place, old_length, part, offset + 4, target);
        } else {
            let node = node_at(block, offset)->0;
            listed_is_ahead(block, node.end + 4, target);
            closing_is_ahead(block, offset, 0);
            closing_before(block, place, old_length, part, offset, 0);
            node_opens_inside(block, offset);
            listing_survives(block, place, old_length, part, node.end + 4, target);
        }
    }
}

pub proof fn listed_is_ahead(block: Seq<u8>, offset: int, target: int)
    requires
        listed_to(block, offset, target) is Some,
    ensures
        offset <= target,
{
}

/// The opening of a node ends before the node closes.
pub proof fn node_opens_inside(block: Seq<u8>, offset: int)
    requires
        node_at(block, offset) is Some,
    ensures
        after_begin(block, offset) matches Some(next) && offset + 4 < next <= node_at(
            block,
            offset,
        )->0.end,
        tag_at(block, offset) == Some(FDT_BEGIN_NODE),
        node_at(block, offset)->0.end + 4 <= block.len(),
{
    steps_advance(block, offset);
    closing_is_ahead(block, offset, 0);
    let next = after_begin(block, offset)->0;
    closing_is_ahead(block, next, 1);
}

/// Reading from inside of a node comes to where it closes, passing its children.
pub proof fn listing_comes_to_end(block: Seq<u8>, offset: int)
    requires
        closing_from(block, offset, 1) is Some,
    ensures
        listed_to(block, offset, closing_from(block, offset, 1)->0) is Some,
    decreases block.len() - offset,
{
    steps_advance(block, offset);
    closing_is_ahead(block, offset, 1);
    let end = closing_from(block, offset, 1)->0;
    let tag = tag_at(block, offset)->0;
    if tag == FDT_BEGIN_NODE {
        let next = after_begin(block, offset)->0;
        child_closes(block, next, 1, 1);
        let child_end = closing_from(block, next, 1)->0;
        assert(closing_from(block, offset, 0) == Some(child_end));
        closing_is_ahead(block, offset, 0);
        listing_comes_to_end(block, child_end + 4);
        closing_is_ahead(block, child_end + 4, 1);
    } else if tag == FDT_PROP {
        let next = after_property(block, offset)->0;
        closing_is_ahead(block, next, 1);
        listing_comes_to_end(block, next);
    } else if tag == FDT_NOP {
        closing_is_ahead(block, offset + 4, 1);
        listing_comes_to_end(block, offset + 4);
    }
}

/// Where the outer of nested nodes closes, the inner ones close before.
pub proof fn child_closes(block: Seq<u8>, offset: int, inner: nat, outer: nat)
    requires
        inner >= 1,
        outer >= 1,
        closing_from(block, offset, inner + outer) is Some,
    ensures
        closing_from(block, offset, inner) matches Some(end) && closing_from(
            block,
            end + 4,
            outer,
        ) == closing_from(block, offset, inner + outer),
    decreases block.len() - offset,
{
    steps_advance(block, offset);
    let tag = tag_at(block, offset)->0;
    if tag == FDT_BEGIN_NODE {
        let next = after_begin(block, offset)->0;
        child_closes(block, next, inner + 1, outer);
    } else if tag == FDT_END_NODE {
        if inner > 1 {
            child_closes(block, offset + 4, (inner - 1) as nat, outer);
        }
    } else if tag == FDT_PROP {
        let next = after_property(block, offset)->0;
        child_closes(block, next, inner, outer);
    } else {
        child_closes(block, offset + 4, inner, outer);
    }
}

/// Reading comes to each node of a list, passing those before it.
pub proof fn listing_comes_to_node(block: Seq<u8>, offset: int, end: int, index: int)
    requires
        0 <= index < nodes_from(block, offset, end).len(),
    ensures
        ({
            let nodes = nodes_from(block, offset, end);
            let node = nodes[index];
            &&& listed_to(block, offset, node.begin) == Some(nodes.take(index))
            &&& node_at(block, node.begin) == Some(node)
            &&& offset <= node.begin < end
        }),
    decreases block.len() - offset,
{
    let nodes = nodes_from(block, offset, end);
    steps_advance(block, offset);
    let tag = tag_at(block, offset)->0;
    if tag == FDT_PROP {
        let next = after_property(block, offset)->0;
        listing_comes_to_node(block, next, end, index);
    } else if tag == FDT_NOP {
        listing_comes_to_node(block, offset + 4, end, index);
    } else {
        let node = node_at(block, offset)->0;
        let rest = nodes_from(block, node.end + 4, end);
        closing_is_ahead(block, offset, 0);
        if index == 0 {
            assert(nodes.take(0) =~= Seq::empty());
        } else {
            listing_comes_to_node(block, node.end + 4, end, index - 1);
            assert(nodes[index] == rest[index - 1]);
            assert(nodes.take(index) =~= seq![node] + rest.take(index - 1));
        }
    }
}

/// Whether nodes that are open at the place of a splice close as before, moved by
/// its growth, and behind the bytes that it replaces.
pub open spec fn transparent(block: Seq<u8>, place: int, old_length: int, part: Seq<u8>) -> bool {
    forall|depth: nat|
        #![trigger closing_from(block, place, depth)]
        depth >= 1 ==> closing_from(spliced(block, place, old_length, part), place, depth)
            == shifted(closing_from(block, place, depth), part.len() - old_length) && (closing_from(
            block,
            place,
            depth,
        ) matches Some(end) ==> end >= place + old_length)
}

/// A node whose closing token has moved.
pub open spec fn stretched(node: NodeSpan, growth: int) -> NodeSpan {
    NodeSpan { end: node.end + growth, ..node }
}

/// A node around a splice is still there and has grown with it.
pub proof fn node_survives(
    block: Seq<u8>,
    place: int,
    old_length: int,
    part: Seq<u8>,
    node: NodeSpan,
    depth: nat,
)
    requires
        splices_words(block, place, old_length, part),
        transparent(block, place, old_length, part),
        0 <= node.begin < place,
        node_at(block, node.begin) == Some(node),
        reaches(block, node.begin, 0, place, depth),
    ensures
        node_at(spliced(block, place, old_length, part), node.begin) == Some(
            stretched(node, part.len() - old_length),
        ),
        after_begin(spliced(block, place, old_length, part), node.begin) == after_begin(
            block,
            node.begin,
        ),
        after_begin(block, node.begin) matches Some(inside) && inside <= place,
        place + old_length <= node.end,
        depth >= 1,
{
    let after = spliced(block, place, old_length, part);
    let next = after_begin(block, node.begin)->0;
    node_opens_inside(block, node.begin);
    assert(reaches(block, next, 1, place, depth));
    steps_before(block, place, old_length, part, node.begin);
    reaching_closes_alike(block, next, 1, place, depth);
    reaching_closes_alike(block, node.begin, 0, place, depth);
    reaching_survives(block, place, old_length, part, node.begin, 0, place, depth);
    reaching_closes_alike(after, node.begin, 0, place, depth);
    assert(closing_from(block, place, depth) == Some(node.end));
}

/// A node below which a splice happens is found by the same names after it.
pub proof fn descendant_survives(
    block: Seq<u8>,
    place: int,
    old_length: int,
    part: Seq<u8>,
    top: NodeSpan,
    names: Seq<Seq<u8>>,
    inner: NodeSpan,
    depth: nat,
)
    requires
        splices_words(block, place, old_length, part),
        transparent(block, place, old_length, part),
        0 <= top.begin,
        node_at(block, top.begin) == Some(top),
        descendant(block, top, names) == Some(inner),
        inner.begin < place,
        reaches(block, inner.begin, 0, place, depth),
    ensures
        top.begin <= inner.begin,
        node_at(block, inner.begin) == Some(inner),
        reaches(block, top.begin, 0, place, depth + names.len()),
        descendant(
            spliced(block, place, old_length, part),
            stretched(top, part.len() - old_length),
            names,
        ) == Some(stretched(inner, part.len() - old_length)),
    decreases names.len(),
{
    let after = spliced(block, place, old_length, part);
    let growth = part.len() - old_length;
    if names.len() > 0 {
        let children = children_of(block, top);
        let child = child_named(block, top, names[0])->0;
        let start = after_begin(block, top.begin)->0;
        named_has_index(children, names[0], 0);
        let index = choose|i: int|
            0 <= i < children.len() && children[i] == child && child.name == names[0] && forall|
                j: int,
            | 0 <= j < i ==> (#[trigger] children[j]).name != names[0];
        node_opens_inside(block, top.begin);
        listing_comes_to_node(block, start, top.end, index);
        descendant_survives(
            block,
            place,
            old_length,
            part,
            child,
            names.drop_first(),
            inner,
            depth,
        );
        let deep = (depth + names.drop_first().len()) as nat;
        // The way from the top node to the child, and on to the place.
        listing_reaches(block, start, child.begin, 1);
        reaching_lifts(block, child.begin, 0, place, deep, 1);
        reaching_joins(block, start, 1, child.begin, 1, place, (deep + 1) as nat);
        assert(top.begin < start <= place);
        assert(reaches(block, top.begin, 0, place, (deep + 1) as nat));
        node_survives(block, place, old_length, part, top, (deep + 1) as nat);
        node_survives(block, place, old_length, part, child, deep);
        // The list of children after the splice.
        let grown_top = stretched(top, growth);
        let grown_child = stretched(child, growth);
        listing_survives(block, place, old_length, part, start, child.begin);
        assert(listed_to(after, start, child.begin) == Some(children.take(index)));
        listing_joins(after, start, child.begin, grown_top.end);
        let tail = nodes_from(after, child.begin, grown_top.end);
        closing_is_ahead(after, child.begin, 0);
        assert(tail.len() > 0 && tail[0] == grown_child);
        let grown = children_of(after, grown_top);
        assert(grown == children.take(index) + tail);
        assert(grown[index] == grown_child);
        assert forall|j: int| 0 <= j < index implies (#[trigger] grown[j]).name != names[0] by {
            assert(grown[j] == children[j]);
        }
        first_named(grown, names[0], 0, index);
    }
}

pub proof fn named_has_index(nodes: Seq<NodeSpan>, name: Seq<u8>, from: int)
    requires
        0 <= from,
    ensures
        named_from(nodes, name, from) matches Some(node) ==> exists|i: int|
            from <= i < nodes.len() && nodes[i] == node && node.name == name && forall|j: int|
                from <= j < i ==> (#[trigger] nodes[j]).name != name,
    decreases nodes.len() - from,
{
    if from < nodes.len() {
        if nodes[from].name == name {
            assert(nodes[from] == nodes[from]);
        } else {
            named_has_index(nodes, name, from + 1);
            if let Some(node) = named_from(nodes, name, from) {
                let i = choose|i: int|
                    from + 1 <= i < nodes.len() && nodes[i] == node && node.name == name && forall|
                        j: int,
                    | from + 1 <= j < i ==> (#[trigger] nodes[j]).name != name;
                assert(nodes[i] == node);
                assert forall|j: int| from <= j < i implies (#[trigger] nodes[j]).name != name by {
                    if j > from {
                        assert(from + 1 <= j < i);
                    }
                }
            }
        }
    }
}

/// The first node with a name is the one that is found by it.
pub proof fn first_named(nodes: Seq<NodeSpan>, name: Seq<u8>, from: int, index: int)
    requires
        0 <= from <= index < nodes.len(),
        nodes[index].name == name,
        forall|j: int| from <= j < index ==> (#[trigger] nodes[j]).name != name,
    ensures
        named_from(nodes, name, from) == Some(nodes[index]),
    decreases index - from,
{
    if from < index {
        first_named(nodes, name, from + 1, index);
    }
}

} // verus!
