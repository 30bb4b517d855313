//! Memory layout described by a flattened device tree.
//!
//! One pass over the structure block collects the usable or the reserved
//! ranges. Each pass is a walk over the block's tokens that keeps the state of
//! the nodes that are open.

use vstd::prelude::*;
use vstd::string::*;
use crate::bytes::{
    be32, be64, begins_with, bytes_equal, cells_value, read_be_u32_from_slice,
    read_be_u64_from_slice, read_cells, starts_with,
};
use crate::fdt_tokens::{next_token, token_at, FdtToken, Token, FDT_MAGIC};

verus! {

/// One memory or reserved-memory range decoded from a device tree.
#[derive(Clone, Copy, Debug, PartialEq, Eq, Structural)]
pub struct MemoryRegion {
    /// Start address of the decoded region.
    pub base: u64,
    /// Size in bytes of the decoded region.
    pub size: u64,
}

/// Errors returned while validating the flattened device tree blob.
#[derive(Clone, Copy, Debug, PartialEq, Eq, Structural)]
pub enum FdtError {
    /// The blob header did not contain the device-tree magic value.
    BadMagic,
    /// The blob or one of its sections ended before required data was available.
    Truncated,
    /// The blob version is older than the minimum supported format version.
    UnsupportedVersion,
}

/// Bytes of one base and size pair.
pub open spec fn pair_size(address_cells: u32, size_cells: u32) -> int {
    (address_cells + size_cells) * 4
}

/// The region that starts at `offset` of a `reg` value.
pub open spec fn region_at(value: Seq<u8>, offset: int, address_cells: u32, size_cells: u32) -> MemoryRegion {
    let middle = offset + address_cells * 4;
    let end = offset + pair_size(address_cells, size_cells);
    MemoryRegion {
        base: cells_value(value.subrange(offset, middle), address_cells as nat),
        size: cells_value(value.subrange(middle, end), size_cells as nat),
    }
}

/// All whole base and size pairs of a `reg` value, in order.
pub open spec fn regions_in(value: Seq<u8>, address_cells: u32, size_cells: u32) -> Seq<MemoryRegion> {
    let stride = pair_size(address_cells, size_cells);
    if stride == 0 {
        Seq::empty()
    } else {
        Seq::new(
            (value.len() as int / stride) as nat,
            |i: int| region_at(value, i * stride, address_cells, size_cells),
        )
    }
}

/// `output` with its leading places taken by `found`, as far as it reaches.
pub open spec fn filled(output: Seq<MemoryRegion>, found: Seq<MemoryRegion>) -> Seq<MemoryRegion> {
    Seq::new(output.len(), |i: int| if i < found.len() { found[i] } else { output[i] })
}

/// How many of `found` fit into `room` places.
pub open spec fn fitting(found: Seq<MemoryRegion>, room: nat) -> nat {
    if found.len() <= room {
        found.len()
    } else {
        room
    }
}

/// Stores the regions of a `reg` value from place `count` on, as far as they
/// fit, and returns the number of places then taken.
pub fn store_regions(
    value: &[u8],
    address_cells: u32,
    size_cells: u32,
    output: &mut [MemoryRegion],
    count: usize,
) -> (taken: usize)
    requires
        count <= old(output)@.len(),
    ensures
        taken == count + fitting(
            regions_in(value@, address_cells, size_cells),
            (old(output)@.len() - count) as nat,
        ),
        final(output)@ == old(output)@.take(count as int) + filled(
            old(output)@.skip(count as int),
            regions_in(value@, address_cells, size_cells),
        ),
{
    let ghost before = output@;
    let ghost regions = regions_in(value@, address_cells, size_cells);
    let ghost room = (before.len() - count) as nat;
    let wide_stride: u64 = (address_cells as u64 + size_cells as u64) * 4;
    let mut taken: usize = count;
    if wide_stride == 0 || wide_stride > value.len() as u64 {
        proof {
            if wide_stride != 0 {
                assert(value@.len() as int / wide_stride as int == 0) by (nonlinear_arith)
                    requires
                        0 <= value@.len() < wide_stride,
                ;
            }
            assert(regions.len() == 0);
            assert(before =~= before.take(count as int) + filled(before.skip(count as int), regions));
        }
        return taken;
    }
    let stride = wide_stride as usize;
    let middle = address_cells as usize * 4;
    let mut index: usize = 0;
    let ghost mut k: int = 0;
    while stride <= value.len() - index && taken < output.len()
        invariant
            stride as int == pair_size(address_cells, size_cells),
            stride > 0,
            middle as int == address_cells * 4,
            index as int == k * stride,
            k >= 0,
            index <= value@.len(),
            regions == regions_in(value@, address_cells, size_cells),
            output@.len() == before.len(),
            count <= before.len(),
            taken == count + k,
            taken <= before.len(),
            k <= regions.len(),
            forall|i: int| 0 <= i < count ==> output@[i] == before[i],
            forall|i: int| taken <= i < before.len() ==> output@[i] == before[i],
            forall|i: int| 0 <= i < k ==> #[trigger] output@[count + i] == regions[i],
        decreases value@.len() - index,
    {
        let base = read_cells(&value[index..index + middle], address_cells as usize);
        let size = read_cells(&value[index + middle..index + stride], size_cells as usize);
        let ghost previous = output@;
        proof {
            assert((k + 1) * stride == k * stride + stride) by (nonlinear_arith);
            assert(k < value@.len() as int / stride as int) by (nonlinear_arith)
                requires
                    (k + 1) * stride <= value@.len(),
                    stride > 0,
                    k >= 0,
            ;
        }
        output[taken] = MemoryRegion { base, size };
        assert(output@[taken as int] == regions[k]);
        assert forall|i: int| 0 <= i < k + 1 implies #[trigger] output@[count + i] == regions[i] by {
            if i < k {
                assert(previous[count + i] == regions[i]);
            }
        }
        taken += 1;
        index += stride;
        proof {
            k = k + 1;
        }
    }
    proof {
        if !(stride <= value@.len() - index) {
            assert(k == value@.len() as int / stride as int) by (nonlinear_arith)
                requires
                    k * stride <= value@.len() < k * stride + stride,
                    stride > 0,
                    k >= 0,
            ;
        }
        let after = before.take(count as int) + filled(before.skip(count as int), regions);
        assert forall|i: int| 0 <= i < before.len() implies output@[i] == after[i] by {
            if i >= count && i < taken {
                assert(output@[count + (i - count)] == regions[i - count]);
            }
        }
        assert(output@ =~= after);
    }
    taken
}

/// State of the search for usable memory.
pub struct MemoryWalk {
    /// Number of open nodes.
    pub depth: nat,
    /// Address cells of the root node.
    pub address_cells: u32,
    /// Size cells of the root node.
    pub size_cells: u32,
    /// Whether a memory node below the root is open.
    pub in_memory: bool,
    /// Regions met so far.
    pub found: Seq<MemoryRegion>,
}

/// The number that the first word of a property value holds, or `fallback`
/// where the value is shorter.
pub open spec fn cells_property(value: Seq<u8>, fallback: u32) -> u32 {
    if value.len() >= 4 {
        be32(value, 0)
    } else {
        fallback
    }
}

/// Whether a node of this name below the root describes memory.
pub open spec fn is_memory_name(name: Seq<u8>) -> bool {
    name == "memory".spec_bytes() || begins_with(name, "memory@".spec_bytes())
}

/// What one token does to the search for usable memory. The children of the
/// root are the nodes at depth two.
pub open spec fn memory_step(walk: MemoryWalk, token: FdtToken) -> MemoryWalk {
    match token {
        FdtToken::BeginNode { name } => MemoryWalk {
            depth: walk.depth + 1,
            in_memory: walk.in_memory || (walk.depth == 1 && is_memory_name(name)),
            ..walk
        },
        FdtToken::EndNode => MemoryWalk {
            depth: (walk.depth - 1) as nat,
            in_memory: walk.in_memory && walk.depth != 2,
            ..walk
        },
        FdtToken::Property { name, value } => {
            if name == "#address-cells".spec_bytes() {
                if walk.depth == 1 {
                    MemoryWalk {
                        address_cells: cells_property(value, walk.address_cells),
                        ..walk
                    }
                } else {
                    walk
                }
            } else if name == "#size-cells".spec_bytes() {
                if walk.depth == 1 {
                    MemoryWalk { size_cells: cells_property(value, walk.size_cells), ..walk }
                } else {
                    walk
                }
            } else if walk.in_memory && walk.depth == 2 && name == "device_type".spec_bytes() {
                MemoryWalk { in_memory: value == "memory\0".spec_bytes(), ..walk }
            } else if walk.in_memory && walk.depth == 2 && name == "reg".spec_bytes() {
                MemoryWalk {
                    found: walk.found + regions_in(value, walk.address_cells, walk.size_cells),
                    ..walk
                }
            } else {
                walk
            }
        },
        FdtToken::Nop => walk,
    }
}

/// The usable memory found when the walk goes on from `cursor`. The walk ends
/// with the token stream, or where a node closes that was never opened.
pub open spec fn memory_walk(
    structure: Seq<u8>,
    strings: Seq<u8>,
    cursor: int,
    walk: MemoryWalk,
) -> Seq<MemoryRegion>
    decreases structure.len() - cursor,
{
    match token_at(structure, strings, cursor) {
        Some((token, next)) => if (token is EndNode && walk.depth == 0) || next <= cursor || next
            > structure.len() {
            walk.found
        } else {
            memory_walk(structure, strings, next, memory_step(walk, token))
        },
        None => walk.found,
    }
}

/// The usable memory that a device tree describes, in the order of its nodes.
pub open spec fn memory_found(structure: Seq<u8>, strings: Seq<u8>) -> Seq<MemoryRegion> {
    memory_walk(
        structure,
        strings,
        0,
        (MemoryWalk {
            depth: 0,
            address_cells: 2,
            size_cells: 1,
            in_memory: false,
            found: Seq::empty(),
        }),
    )
}

/// State of the search for reserved memory.
pub struct ReservedWalk {
    /// Address and size cells in force outside of any node and in each open node.
    pub cells: Seq<(u32, u32)>,
    /// Whether the `reserved-memory` node is open.
    pub in_reserved: bool,
    /// Regions met so far.
    pub found: Seq<MemoryRegion>,
}

/// What one token does to the search for reserved memory. A node starts with
/// the cells of the node around it. The children of `/reserved-memory` are read
/// with the cells of `/reserved-memory`, which is open at depth two.
pub open spec fn reserved_step(walk: ReservedWalk, token: FdtToken) -> ReservedWalk {
    let depth = walk.cells.len() - 1;
    let (address_cells, size_cells) = walk.cells[depth];
    match token {
        FdtToken::BeginNode { name } => ReservedWalk {
            cells: walk.cells.push(walk.cells[depth]),
            in_reserved: walk.in_reserved || (depth == 1 && name
                == "reserved-memory".spec_bytes()),
            ..walk
        },
        FdtToken::EndNode => ReservedWalk {
            cells: walk.cells.drop_last(),
            in_reserved: walk.in_reserved && depth != 2,
            ..walk
        },
        FdtToken::Property { name, value } => {
            if name == "#address-cells".spec_bytes() {
                ReservedWalk {
                    cells: walk.cells.update(
                        depth,
                        (cells_property(value, address_cells), size_cells),
                    ),
                    ..walk
                }
            } else if name == "#size-cells".spec_bytes() {
                ReservedWalk {
                    cells: walk.cells.update(
                        depth,
                        (address_cells, cells_property(value, size_cells)),
                    ),
                    ..walk
                }
            } else if walk.in_reserved && depth > 2 && name == "reg".spec_bytes() {
                ReservedWalk {
                    found: walk.found + regions_in(value, walk.cells[2].0, walk.cells[2].1),
                    ..walk
                }
            } else {
                walk
            }
        },
        FdtToken::Nop => walk,
    }
}

/// The reserved memory found when the walk goes on from `cursor`.
pub open spec fn reserved_walk(
    structure: Seq<u8>,
    strings: Seq<u8>,
    cursor: int,
    walk: ReservedWalk,
) -> Seq<MemoryRegion>
    decreases structure.len() - cursor,
{
    match token_at(structure, strings, cursor) {
        Some((token, next)) => if (token is EndNode && walk.cells.len() == 1) || next <= cursor
            || next > structure.len() {
            walk.found
        } else {
            reserved_walk(structure, strings, next, reserved_step(walk, token))
        },
        None => walk.found,
    }
}

/// The ranges below `/reserved-memory`, in the order of its nodes.
pub open spec fn reserved_nodes_found(structure: Seq<u8>, strings: Seq<u8>) -> Seq<MemoryRegion> {
    reserved_walk(
        structure,
        strings,
        0,
        (ReservedWalk { cells: seq![(2u32, 1u32)], in_reserved: false, found: Seq::empty() }),
    )
}

/// The entries of the reserve map from `offset` on, up to the entry of zeros
/// that ends it or to the end of the data.
pub open spec fn reserve_entries(map: Seq<u8>, offset: int) -> Seq<MemoryRegion>
    decreases map.len() - offset,
{
    if offset < 0 || offset + 16 > map.len() {
        Seq::empty()
    } else {
        let entry = MemoryRegion { base: be64(map, offset), size: be64(map, offset + 8) };
        if entry.base == 0 && entry.size == 0 {
            Seq::empty()
        } else {
            seq![entry] + reserve_entries(map, offset + 16)
        }
    }
}

/// Why a blob is no device tree, or nothing where it is one.
pub open spec fn header_fault(blob: Seq<u8>) -> Option<FdtError> {
    if blob.len() < 4 {
        Some(FdtError::Truncated)
    } else if be32(blob, 0) != FDT_MAGIC {
        Some(FdtError::BadMagic)
    } else if blob.len() < 40 {
        Some(FdtError::Truncated)
    } else if be32(blob, 20) < 17 {
        Some(FdtError::UnsupportedVersion)
    } else if be32(blob, 16) > be32(blob, 4) || be32(blob, 8) + be32(blob, 36) > be32(blob, 4)
        || be32(blob, 12) + be32(blob, 32) > be32(blob, 4) || be32(blob, 4) > blob.len() {
        Some(FdtError::Truncated)
    } else {
        None
    }
}

/// Read-only view of one flattened device tree blob.
pub struct Fdt<'a> {
    /// Raw reserve map section of the blob.
    reserve_map: &'a [u8],
    /// Raw structure block section of the blob.
    structure: &'a [u8],
    /// Raw strings block section of the blob.
    strings: &'a [u8],
}

impl<'a> Fdt<'a> {
    /// Bytes from the reserve map to the end of the blob.
    pub closed spec fn reserve_map(&self) -> Seq<u8> {
        self.reserve_map@
    }

    /// Bytes of the structure block.
    pub closed spec fn structure(&self) -> Seq<u8> {
        self.structure@
    }

    /// Bytes of the strings block.
    pub closed spec fn strings(&self) -> Seq<u8> {
        self.strings@
    }

    /// Creates a view of the blob that starts at the first byte of `memory`.
    pub fn from_ptr(memory: &'a [u8]) -> (fdt: Result<Self, FdtError>)
        ensures
            match fdt {
                Ok(view) => header_fault(memory@) is None && view.reserve_map()
                    == memory@.subrange(be32(memory@, 16) as int, be32(memory@, 4) as int)
                    && view.structure() == memory@.subrange(
                    be32(memory@, 8) as int,
                    be32(memory@, 8) + be32(memory@, 36),
                ) && view.strings() == memory@.subrange(
                    be32(memory@, 12) as int,
                    be32(memory@, 12) + be32(memory@, 32),
                ),
                Err(error) => header_fault(memory@) == Some(error),
            },
    {
        let magic: u32 = match read_be_u32_from_slice(memory, 0) {
            Some(word) => word,
            None => return Err(FdtError::Truncated),
        };
        if magic != FDT_MAGIC {
            return Err(FdtError::BadMagic);
        }
        match (
            read_be_u32_from_slice(memory, 4),
            read_be_u32_from_slice(memory, 8),
            read_be_u32_from_slice(memory, 12),
            read_be_u32_from_slice(memory, 16),
            read_be_u32_from_slice(memory, 20),
            read_be_u32_from_slice(memory, 32),
            read_be_u32_from_slice(memory, 36),
        ) {
            (
                Some(total_size),
                Some(off_dt_struct),
                Some(off_dt_strings),
                Some(off_mem_rsvmap),
                Some(version),
                Some(size_dt_strings),
                Some(size_dt_struct),
            ) => {
                if version < 17 {
                    return Err(FdtError::UnsupportedVersion);
                }
                if off_mem_rsvmap > total_size || off_dt_struct as u64 + size_dt_struct as u64
                    > total_size as u64 || off_dt_strings as u64 + size_dt_strings as u64
                    > total_size as u64 || total_size as u64 > memory.len() as u64 {
                    return Err(FdtError::Truncated);
                }
                let structure_end = off_dt_struct as usize + size_dt_struct as usize;
                let strings_end = off_dt_strings as usize + size_dt_strings as usize;
                Ok(
                    Fdt {
                        reserve_map: &memory[off_mem_rsvmap as usize..total_size as usize],
                        structure: &memory[off_dt_struct as usize..structure_end],
                        strings: &memory[off_dt_strings as usize..strings_end],
                    },
                )
            },
            _ => Err(FdtError::Truncated),
        }
    }

    /// Collects memory ranges from `/memory` nodes into `output`, as many as
    /// fit, and returns how many were stored.
    pub fn memory_regions(&self, output: &mut [MemoryRegion]) -> (count: usize)
        ensures
            count == fitting(
                memory_found(self.structure(), self.strings()),
                old(output)@.len(),
            ),
            final(output)@ == filled(
                old(output)@,
                memory_found(self.structure(), self.strings()),
            ),
    {
        let ghost before = output@;
        let mut cursor: usize = 0;
        let mut depth: usize = 0;
        let mut root_address_cells: u32 = 2;
        let mut root_size_cells: u32 = 1;
        let mut in_memory = false;
        let mut count: usize = 0;
        let ghost mut walk = MemoryWalk {
            depth: 0,
            address_cells: 2,
            size_cells: 1,
            in_memory: false,
            found: Seq::empty(),
        };
        assert(output@ =~= filled(before, walk.found));

        loop
            invariant
                cursor <= self.structure@.len(),
                depth <= cursor,
                walk.depth == depth,
                walk.address_cells == root_address_cells,
                walk.size_cells == root_size_cells,
                walk.in_memory == in_memory,
                output@ == filled(before, walk.found),
                count == fitting(walk.found, before.len()),
                memory_walk(self.structure@, self.strings@, cursor as int, walk) == memory_found(
                    self.structure@,
                    self.strings@,
                ),
            ensures
                walk.found == memory_found(self.structure@, self.strings@),
                output@ == filled(before, walk.found),
                count == fitting(walk.found, before.len()),
            decreases self.structure@.len() - cursor,
        {
            let (token, next) = match next_token(self.structure, self.strings, cursor) {
                Some(pair) => pair,
                None => break,
            };
            let ghost previous = walk;
            match token {
                Token::BeginNode { name } => {
                    if depth == 1 && (bytes_equal(name, "memory".as_bytes()) || starts_with(
                        name,
                        "memory@".as_bytes(),
                    )) {
                        in_memory = true;
                    }
                    depth += 1;
                },
                Token::EndNode => {
                    if depth == 0 {
                        break;
                    }
                    if depth == 2 {
                        in_memory = false;
                    }
                    depth -= 1;
                },
                Token::Property { name, value } => {
                    if bytes_equal(name, "#address-cells".as_bytes()) {
                        if depth == 1 {
                            if let Some(cells) = read_be_u32_from_slice(value, 0) {
                                root_address_cells = cells;
                            }
                        }
                    } else if bytes_equal(name, "#size-cells".as_bytes()) {
                        if depth == 1 {
                            if let Some(cells) = read_be_u32_from_slice(value, 0) {
                                root_size_cells = cells;
                            }
                        }
                    } else if in_memory && depth == 2 {
                        if bytes_equal(name, "device_type".as_bytes()) {
                            if !bytes_equal(value, "memory\0".as_bytes()) {
                                in_memory = false;
                            }
                        } else if bytes_equal(name, "reg".as_bytes()) {
                            count = store_regions(
                                value,
                                root_address_cells,
                                root_size_cells,
                                output,
                                count,
                            );
                        }
                    }
                },
                Token::Nop => {},
            }
            proof {
                walk = memory_step(previous, token@);
                assert(output@ =~= filled(before, walk.found));
            }
            cursor = next;
        }
        count
    }

    /// Collects reserved regions from both the reserve map and the
    /// `/reserved-memory` subtree into `output`, as many as fit, and returns how
    /// many were stored.
    pub fn reserved_regions(&self, output: &mut [MemoryRegion]) -> (count: usize)
        ensures
            count == fitting(
                reserve_entries(self.reserve_map(), 0) + reserved_nodes_found(
                    self.structure(),
                    self.strings(),
                ),
                old(output)@.len(),
            ),
            final(output)@ == filled(
                old(output)@,
                reserve_entries(self.reserve_map(), 0) + reserved_nodes_found(
                    self.structure(),
                    self.strings(),
                ),
            ),
    {
        let ghost before = output@;
        let ghost entries = reserve_entries(self.reserve_map@, 0);
        let count = self.reserve_map_regions(output);
        if count < output.len() {
            let total = self.reserved_memory_regions(output, count);
            assert(output@ =~= filled(
                before,
                entries + reserved_nodes_found(self.structure@, self.strings@),
            ));
            return total;
        }
        assert(output@ =~= filled(
            before,
            entries + reserved_nodes_found(self.structure@, self.strings@),
        ));
        count
    }

    fn reserve_map_regions(&self, output: &mut [MemoryRegion]) -> (count: usize)
        ensures
            count == fitting(reserve_entries(self.reserve_map@, 0), old(output)@.len()),
            final(output)@ == filled(old(output)@, reserve_entries(self.reserve_map@, 0)),
    {
        let ghost before = output@;
        let mut offset: usize = 0;
        let mut count: usize = 0;
        let ghost mut found: Seq<MemoryRegion> = Seq::empty();
        let ghost entries = reserve_entries(self.reserve_map@, 0);
        assert(entries =~= found + entries);
        while count < output.len()
            invariant_except_break
                offset <= self.reserve_map@.len(),
            invariant
                count == found.len(),
                count <= before.len(),
                output@.len() == before.len(),
                forall|i: int| 0 <= i < count ==> output@[i] == found[i],
                forall|i: int| count <= i < before.len() ==> output@[i] == before[i],
                entries == found + reserve_entries(self.reserve_map@, offset as int),
            ensures
                count < before.len() ==> entries == found,
            decreases self.reserve_map@.len() - offset,
        {
            let address: u64 = match read_be_u64_from_slice(self.reserve_map, offset) {
                Some(value) => value,
                None => {
                    assert(entries =~= found);
                    break;
                },
            };
            assert(offset + 8 <= self.reserve_map.len());
            let size: u64 = match read_be_u64_from_slice(self.reserve_map, offset + 8) {
                Some(value) => value,
                None => {
                    assert(entries =~= found);
                    break;
                },
            };
            assert(offset + 16 <= self.reserve_map.len());
            if address == 0 && size == 0 {
                assert(entries =~= found);
                break;
            }
            let region = MemoryRegion { base: address, size };
            output[count] = region;
            proof {
                let rest = reserve_entries(self.reserve_map@, offset + 16);
                assert(found + (seq![region] + rest) =~= found.push(region) + rest);
                found = found.push(region);
            }
            count += 1;
            offset += 16;
        }
        assert(output@ =~= filled(before, entries));
        count
    }

    fn reserved_memory_regions(&self, output: &mut [MemoryRegion], first: usize) -> (count: usize)
        requires
            first <= old(output)@.len(),
        ensures
            count == first + fitting(
                reserved_nodes_found(self.structure@, self.strings@),
                (old(output)@.len() - first) as nat,
            ),
            final(output)@ == old(output)@.take(first as int) + filled(
                old(output)@.skip(first as int),
                reserved_nodes_found(self.structure@, self.strings@),
            ),
    {
        let ghost before = output@;
        let ghost head = before.take(first as int);
        let ghost tail = before.skip(first as int);
        let mut cursor: usize = 0;
        let mut depth: usize = 0;
        let mut current_address_cells: [u32; 16] = [2u32; 16];
        let mut current_size_cells: [u32; 16] = [1u32; 16];
        let mut in_reserved = false;
        let mut count: usize = first;
        let ghost mut walk = ReservedWalk {
            cells: seq![(2u32, 1u32)],
            in_reserved: false,
            found: Seq::empty(),
        };
        assert(output@ =~= head + filled(tail, walk.found));

        loop
            invariant
                first <= before.len(),
                head == before.take(first as int),
                tail == before.skip(first as int),
                cursor <= self.structure@.len(),
                depth <= cursor,
                walk.cells.len() == depth + 1,
                forall|i: int|
                    0 <= i <= depth && i < 16 ==> #[trigger] walk.cells[i] == (
                        current_address_cells@[i],
                        current_size_cells@[i],
                    ),
                walk.in_reserved == in_reserved,
                in_reserved ==> depth >= 2,
                output@ == head + filled(tail, walk.found),
                count == first + fitting(walk.found, tail.len()),
                reserved_walk(self.structure@, self.strings@, cursor as int, walk)
                    == reserved_nodes_found(self.structure@, self.strings@),
            ensures
                walk.found == reserved_nodes_found(self.structure@, self.strings@),
                output@ == head + filled(tail, walk.found),
                count == first + fitting(walk.found, tail.len()),
            decreases self.structure@.len() - cursor,
        {
            let (token, next) = match next_token(self.structure, self.strings, cursor) {
                Some(pair) => pair,
                None => break,
            };
            let ghost previous = walk;
            match token {
                Token::BeginNode { name } => {
                    if depth + 1 < 16 {
                        current_address_cells[depth + 1] = current_address_cells[depth];
                        current_size_cells[depth + 1] = current_size_cells[depth];
                    }
                    if depth == 1 && bytes_equal(name, "reserved-memory".as_bytes()) {
                        in_reserved = true;
                    }
                    depth += 1;
                },
                Token::EndNode => {
                    if depth == 0 {
                        break;
                    }
                    if depth == 2 {
                        in_reserved = false;
                    }
                    depth -= 1;
                },
                Token::Property { name, value } => {
                    if bytes_equal(name, "#address-cells".as_bytes()) {
                        if depth < 16 {
                            if let Some(cells) = read_be_u32_from_slice(value, 0) {
                                current_address_cells[depth] = cells;
                            }
                        }
                    } else if bytes_equal(name, "#size-cells".as_bytes()) {
                        if depth < 16 {
                            if let Some(cells) = read_be_u32_from_slice(value, 0) {
                                current_size_cells[depth] = cells;
                            }
                        }
                    } else if in_reserved && depth > 2 && bytes_equal(name, "reg".as_bytes()) {
                        assert(walk.cells[2] == (current_address_cells@[2], current_size_cells@[2]));
                        count = store_regions(
                            value,
                            current_address_cells[2],
                            current_size_cells[2],
                            output,
                            count,
                        );
                    }
                },
                Token::Nop => {},
            }
            proof {
                walk = reserved_step(previous, token@);
                assert(output@ =~= head + filled(tail, walk.found));
            }
            cursor = next;
        }
        count
    }
}

} // verus!
