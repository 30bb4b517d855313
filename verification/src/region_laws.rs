//! Memory ranges that are written as cells are what is read from them.

use vstd::prelude::*;
use crate::bytes::{
    be32, be32_bytes, be32_depends_on_four_bytes, be32_round_trip, be64_bytes, cells_value,
};
use crate::devicetree::{
    filled, fitting, pair_size, region_at, regions_in, reserve_entries, MemoryRegion,
};
use crate::memory::first_regions;
use crate::records::{be64_stored, stored, stored_parts, stored_whole, zeros};

verus! {

/// A number in big-endian cells of four bytes.
pub open spec fn cells_image(value: u64, cells: nat) -> Seq<u8>
    decreases cells,
{
    if cells == 0 {
        Seq::empty()
    } else {
        cells_image(value / 0x1_0000_0000, (cells - 1) as nat) + be32_bytes(
            (value % 0x1_0000_0000) as u32,
        )
    }
}

/// Whether a number fits into cells.
pub open spec fn fits_cells(value: u64, cells: nat) -> bool {
    &&& cells == 0 ==> value == 0
    &&& cells == 1 ==> value <= u32::MAX
}

/// The cells of a range: its base and then its size.
pub open spec fn pair_image(region: MemoryRegion, address_cells: u32, size_cells: u32) -> Seq<u8> {
    cells_image(region.base, address_cells as nat) + cells_image(region.size, size_cells as nat)
}

/// The cells of ranges, one behind the other.
pub open spec fn reg_image(regions: Seq<MemoryRegion>, address_cells: u32, size_cells: u32) -> Seq<
    u8,
>
    decreases regions.len(),
{
    if regions.len() == 0 {
        Seq::empty()
    } else {
        reg_image(regions.drop_last(), address_cells, size_cells) + pair_image(
            regions.last(),
            address_cells,
            size_cells,
        )
    }
}

/// Whether the bases and sizes of ranges fit into their cells.
pub open spec fn regions_fit(
    regions: Seq<MemoryRegion>,
    address_cells: u32,
    size_cells: u32,
) -> bool {
    forall|i: int|
        0 <= i < regions.len() ==> fits_cells(
            (#[trigger] regions[i]).base,
            address_cells as nat,
        ) && fits_cells(regions[i].size, size_cells as nat)
}

/// What cells add up to depends on their own bytes alone.
proof fn cells_depend_on_bytes(a: Seq<u8>, b: Seq<u8>, cells: nat)
    requires
        cells * 4 <= a.len(),
        cells * 4 <= b.len(),
        forall|i: int| 0 <= i < cells * 4 ==> a[i] == b[i],
    ensures
        cells_value(a, cells) == cells_value(b, cells),
    decreases cells,
{
    if cells > 0 {
        cells_depend_on_bytes(a, b, (cells - 1) as nat);
        be32_depends_on_four_bytes(a, cells * 4 - 4, b, cells * 4 - 4);
    }
}

/// A number that is written in cells is read back from them.
pub proof fn written_cells_are_read(value: u64, cells: nat)
    requires
        fits_cells(value, cells),
    ensures
        cells_image(value, cells).len() == cells * 4,
        cells_value(cells_image(value, cells), cells) == value,
    decreases cells,
{
    if cells > 0 {
        let image = cells_image(value, cells);
        let high = value / 0x1_0000_0000;
        let low = (value % 0x1_0000_0000) as u32;
        let front = cells_image(high, (cells - 1) as nat);
        written_cells_are_read(high, (cells - 1) as nat);
        be32_round_trip(low);
        assert(be32(image, cells * 4 - 4) == low) by {
            assert forall|i: int| 0 <= i < 4 implies image[cells * 4 - 4 + i]
                == #[trigger] be32_bytes(low)[0 + i] by {}
            be32_depends_on_four_bytes(image, cells * 4 - 4, be32_bytes(low), 0);
        }
        cells_depend_on_bytes(image, front, (cells - 1) as nat);
        assert(value == high * 0x1_0000_0000 + low);
        assert(high < 0x1_0000_0000);
    }
}

/// Of more than two cells, the last two count.
#[verifier::spinoff_prover]
#[verifier::rlimit(30)]
pub proof fn last_cells_count(front: Seq<u8>, leading: nat, value: u64)
    requires
        front.len() == leading * 4,
    ensures
        cells_value(front + cells_image(value, 2), leading + 2) == value,
{
    let high = (value / 0x1_0000_0000) as u32;
    let low = (value % 0x1_0000_0000) as u32;
    let whole = front + cells_image(value, 2);
    reveal_with_fuel(cells_image, 3);
    reveal_with_fuel(cells_value, 3);
    assert(cells_image(value, 2) =~= be32_bytes(high) + be32_bytes(low)) by {
        assert(value / 0x1_0000_0000 % 0x1_0000_0000 == high);
    }
    be32_round_trip(high);
    be32_round_trip(low);
    assert forall|i: int| 0 <= i < 4 implies whole[leading * 4 + i] == #[trigger] be32_bytes(high)[0
        + i] by {}
    be32_depends_on_four_bytes(whole, (leading * 4) as int, be32_bytes(high), 0);
    assert forall|i: int| 0 <= i < 4 implies whole[leading * 4 + 4 + i] == #[trigger] be32_bytes(
        low,
    )[0 + i] by {}
    be32_depends_on_four_bytes(whole, (leading * 4 + 4) as int, be32_bytes(low), 0);
    let before = cells_value(whole, leading);
    assert(cells_value(whole, (leading + 1) as nat) % 0x1_0000_0000 == high) by {
        assert((before % 0x1_0000_0000 * 0x1_0000_0000 + high) % 0x1_0000_0000 == high as int)
            by (nonlinear_arith)
            requires
                0 <= high < 0x1_0000_0000,
        ;
    }
}

/// The ranges of a value that is made of two, the first of which holds whole pairs, are those
/// of the first and then those of the second.
#[verifier::spinoff_prover]
#[verifier::rlimit(30)]
pub proof fn regions_join(a: Seq<u8>, b: Seq<u8>, address_cells: u32, size_cells: u32)
    requires
        address_cells + size_cells > 0,
        a.len() as int % pair_size(address_cells, size_cells) == 0,
    ensures
        regions_in(a + b, address_cells, size_cells) == regions_in(a, address_cells, size_cells)
            + regions_in(b, address_cells, size_cells),
{
    let stride = (address_cells + size_cells) * 4;
    let first = a.len() as int / stride;
    let second = b.len() as int / stride;
    vstd::arithmetic::div_mod::lemma_fundamental_div_mod(a.len() as int, stride);
    vstd::arithmetic::div_mod::lemma_fundamental_div_mod(b.len() as int, stride);
    assert((first + second) * stride + b.len() as int % stride == a.len() + b.len())
        by (nonlinear_arith)
        requires
            a.len() == stride * first,
            b.len() == stride * second + b.len() as int % stride,
    ;
    vstd::arithmetic::div_mod::lemma_fundamental_div_mod_converse(
        (a.len() + b.len()) as int,
        stride,
        first + second,
        b.len() as int % stride,
    );
    let whole = regions_in(a + b, address_cells, size_cells);
    let left = regions_in(a, address_cells, size_cells);
    let right = regions_in(b, address_cells, size_cells);
    assert(whole.len() == left.len() + right.len());
    assert forall|i: int| 0 <= i < whole.len() implies whole[i] == (left + right)[i] by {
        if i < first {
            assert(0 <= i * stride && i * stride + stride <= a.len()) by (nonlinear_arith)
                requires
                    0 <= i < first,
                    a.len() == stride * first,
                    stride > 0,
            ;
            same_pair(a + b, i * stride, a, i * stride, address_cells, size_cells);
        } else {
            let k = i - first;
            assert(0 <= k * stride && k * stride + stride <= b.len() && i * stride == a.len() + k
                * stride) by (nonlinear_arith)
                requires
                    k == i - first,
                    0 <= k < second,
                    a.len() == stride * first,
                    b.len() >= stride * second,
                    stride > 0,
            ;
            same_pair(a + b, i * stride, b, k * stride, address_cells, size_cells);
        }
    }
    assert(whole =~= left + right);
}

/// Pairs of the same bytes are the same range.
proof fn same_pair(
    a: Seq<u8>,
    at_a: int,
    b: Seq<u8>,
    at_b: int,
    address_cells: u32,
    size_cells: u32,
)
    requires
        0 <= at_a,
        0 <= at_b,
        at_a + pair_size(address_cells, size_cells) <= a.len(),
        at_b + pair_size(address_cells, size_cells) <= b.len(),
        forall|i: int|
            0 <= i < pair_size(address_cells, size_cells) ==> #[trigger] a[at_a + i] == b[at_b + i],
    ensures
        region_at(a, at_a, address_cells, size_cells) == region_at(
            b,
            at_b,
            address_cells,
            size_cells,
        ),
{
    let middle = address_cells * 4;
    let end = pair_size(address_cells, size_cells);
    let front = a.subrange(at_a, at_a + middle);
    let other = b.subrange(at_b, at_b + middle);
    assert forall|i: int| 0 <= i < front.len() implies front[i] == other[i] by {
        assert(a[at_a + i] == b[at_b + i]);
    }
    assert(front =~= other);
    let left = a.subrange(at_a + middle, at_a + end);
    let right = b.subrange(at_b + middle, at_b + end);
    assert forall|i: int| 0 <= i < left.len() implies left[i] == right[i] by {
        assert(a[at_a + (middle + i)] == b[at_b + (middle + i)]);
    }
    assert(left =~= right);
}

/// A range that is written as a pair is read back.
#[verifier::spinoff_prover]
#[verifier::rlimit(30)]
proof fn written_pair_is_read(region: MemoryRegion, address_cells: u32, size_cells: u32)
    requires
        address_cells + size_cells > 0,
        fits_cells(region.base, address_cells as nat),
        fits_cells(region.size, size_cells as nat),
    ensures
        pair_image(region, address_cells, size_cells).len() == (address_cells + size_cells) * 4,
        regions_in(pair_image(region, address_cells, size_cells), address_cells, size_cells)
            == seq![region],
{
    let image = pair_image(region, address_cells, size_cells);
    let front = cells_image(region.base, address_cells as nat);
    let back = cells_image(region.size, size_cells as nat);
    written_cells_are_read(region.base, address_cells as nat);
    written_cells_are_read(region.size, size_cells as nat);
    let stride = (address_cells + size_cells) * 4;
    assert(image.len() == stride);
    assert(image.len() as int / stride == 1) by (nonlinear_arith)
        requires
            image.len() == stride,
            stride > 0,
    ;
    assert(0 * stride == 0) by (nonlinear_arith);
    let found = regions_in(image, address_cells, size_cells);
    assert(found[0] == region_at(image, 0, address_cells, size_cells));
    assert(image.subrange(0, address_cells * 4) =~= front);
    assert(image.subrange(address_cells * 4, stride) =~= back);
    assert(found =~= seq![region]);
}

/// Ranges that are written one behind the other are read back in order. What is left behind
/// the last whole pair is no range.
pub proof fn written_regions_are_read(
    regions: Seq<MemoryRegion>,
    rest: Seq<u8>,
    address_cells: u32,
    size_cells: u32,
)
    requires
        address_cells + size_cells > 0,
        regions_fit(regions, address_cells, size_cells),
        rest.len() < (address_cells + size_cells) * 4,
    ensures
        regions_in(
            reg_image(regions, address_cells, size_cells) + rest,
            address_cells,
            size_cells,
        ) == regions,
{
    let image = reg_image(regions, address_cells, size_cells);
    written_list_is_read(regions, address_cells, size_cells);
    regions_join(image, rest, address_cells, size_cells);
    let stride = (address_cells + size_cells) * 4;
    assert(rest.len() as int / stride == 0) by (nonlinear_arith)
        requires
            0 <= rest.len() < stride,
    ;
    assert(regions_in(rest, address_cells, size_cells) =~= Seq::empty());
    assert(regions + Seq::empty() =~= regions);
}

proof fn written_list_is_read(regions: Seq<MemoryRegion>, address_cells: u32, size_cells: u32)
    requires
        address_cells + size_cells > 0,
        regions_fit(regions, address_cells, size_cells),
    ensures
        reg_image(regions, address_cells, size_cells).len() as int % pair_size(
            address_cells,
            size_cells,
        ) == 0,
        regions_in(reg_image(regions, address_cells, size_cells), address_cells, size_cells)
            == regions,
    decreases regions.len(),
{
    let stride = (address_cells + size_cells) * 4;
    if regions.len() == 0 {
        assert(0int / stride == 0 && 0int % stride == 0) by (nonlinear_arith)
            requires
                stride > 0,
        ;
        assert(regions_in(Seq::empty(), address_cells, size_cells) =~= regions);
    } else {
        let earlier = regions.drop_last();
        let last = regions.last();
        assert forall|i: int| 0 <= i < earlier.len() implies fits_cells(
            (#[trigger] earlier[i]).base,
            address_cells as nat,
        ) && fits_cells(earlier[i].size, size_cells as nat) by {
            assert(earlier[i] == regions[i]);
        }
        assert(regions[regions.len() - 1] == last);
        written_list_is_read(earlier, address_cells, size_cells);
        written_pair_is_read(last, address_cells, size_cells);
        let front = reg_image(earlier, address_cells, size_cells);
        let pair = pair_image(last, address_cells, size_cells);
        regions_join(front, pair, address_cells, size_cells);
        vstd::arithmetic::div_mod::lemma_mod_add_multiples_vanish(front.len() as int, stride);
        assert(regions =~= earlier + seq![last]);
    }
}

/// The entries of a reserve map, one behind the other.
pub open spec fn reserve_image(entries: Seq<MemoryRegion>) -> Seq<u8>
    decreases entries.len(),
{
    if entries.len() == 0 {
        Seq::empty()
    } else {
        be64_bytes(entries[0].base) + be64_bytes(entries[0].size) + reserve_image(
            entries.drop_first(),
        )
    }
}

/// The entries of a reserve map that is ended by an entry of zeros are read back in order,
/// whatever follows.
pub proof fn written_reserve_map_is_read(entries: Seq<MemoryRegion>, rest: Seq<u8>)
    requires
        forall|i: int|
            0 <= i < entries.len() ==> (#[trigger] entries[i]).base != 0 || entries[i].size != 0,
    ensures
        reserve_entries(reserve_image(entries) + zeros(16) + rest, 0) == entries,
{
    let map = reserve_image(entries) + zeros(16) + rest;
    stored_whole(map);
    stored_parts(map, 0, reserve_image(entries) + zeros(16), rest);
    written_reserve_is_read(map, 0, entries);
}

proof fn written_reserve_is_read(map: Seq<u8>, at: int, entries: Seq<MemoryRegion>)
    requires
        stored(map, at, reserve_image(entries) + zeros(16)),
        forall|i: int|
            0 <= i < entries.len() ==> (#[trigger] entries[i]).base != 0 || entries[i].size != 0,
    ensures
        reserve_entries(map, at) == entries,
    decreases entries.len(),
{
    reveal(stored);
    if entries.len() == 0 {
        assert(reserve_image(entries) + zeros(16) =~= zeros(16));
        assert(zeros(16) =~= be64_bytes(0) + be64_bytes(0));
        stored_parts(map, at, be64_bytes(0), be64_bytes(0));
        be64_stored(map, at, 0);
        be64_stored(map, at + 8, 0);
        assert(entries =~= Seq::empty());
    } else {
        let first = entries[0];
        let rest = entries.drop_first();
        let head = be64_bytes(first.base) + be64_bytes(first.size);
        assert(reserve_image(entries) + zeros(16) =~= head + (reserve_image(rest) + zeros(16)));
        stored_parts(map, at, head, reserve_image(rest) + zeros(16));
        stored_parts(map, at, be64_bytes(first.base), be64_bytes(first.size));
        be64_stored(map, at, first.base);
        be64_stored(map, at + 8, first.size);
        assert forall|i: int| 0 <= i < rest.len() implies (#[trigger] rest[i]).base != 0
            || rest[i].size != 0 by {
            assert(rest[i] == entries[i + 1]);
        }
        written_reserve_is_read(map, at + 16, rest);
        assert(entries =~= seq![first] + rest);
    }
}

/// As many regions are taken as there are and as there is room for. Those are the first ones,
/// and they replace what was in their places, and nothing else.
pub proof fn regions_fill_their_places(
    output: Seq<MemoryRegion>,
    found: Seq<MemoryRegion>,
    place: int,
)
    requires
        0 <= place < output.len(),
    ensures
        fitting(found, output.len()) <= found.len(),
        fitting(found, output.len()) <= output.len(),
        fitting(found, output.len()) == found.len() || fitting(found, output.len())
            == output.len(),
        filled(output, found).len() == output.len(),
        filled(output, found)[place] == if place < found.len() {
            found[place]
        } else {
            output[place]
        },
        place < first_regions(found, output.len()).len() <==> place < found.len(),
        place < found.len() ==> first_regions(found, output.len())[place] == found[place],
{
}

} // verus!
