//! Read-only access to flattened device trees.

use vstd::prelude::*;
use vstd::string::*;
use crate::bytes::{
    align4_within, be32, be64, bytes_equal, c_string, read_be_u32_from_slice,
    read_be_u64_from_slice, read_c_string, utf8_text,
};
use crate::fdt_nodes::{
    after_begin, after_property, child_named, children_of, closing_from, closing_is_ahead,
    descendant, named_from, node_at, node_at_path, nodes_from, parts_from, path_parts,
    property_from, property_number, property_of, steps_advance, tag_at, NodeSpan,
};
use crate::fdt_tokens::{
    FDT_BEGIN_NODE, FDT_END_NODE, FDT_HEADER_SIZE, FDT_MAGIC, FDT_NOP, FDT_PROP,
};
use crate::path::{copy_range, parts_are};

verus! {

/// Errors returned while validating the flattened device tree blob.
#[derive(Clone, Copy, Debug, PartialEq, Eq, Structural)]
pub enum FdtError {
    /// The supplied device-tree pointer was null.
    NullPointer,
    /// The supplied device-tree pointer was not 8-byte aligned.
    MisalignedPointer,
    /// The blob header did not contain the FDT magic value.
    BadMagic,
    /// The blob or one of its sections ended before required data was available.
    Truncated,
    /// The blob version is older than the minimum supported format version.
    UnsupportedVersion,
    /// The blob header contained inconsistent offsets or section sizes.
    InvalidHeader,
}

/// One validated node inside the FDT structure block.
#[derive(Clone, Copy)]
pub struct FdtNode<'a> {
    /// Node name taken directly from the structure block.
    pub name: &'a str,
    /// Byte offset of the node's `FDT_BEGIN_NODE` token.
    pub begin_offset: usize,
    /// Byte offset of the node's matching `FDT_END_NODE` token.
    pub end_offset: usize,
}

impl<'a> FdtNode<'a> {
    /// Name and place of the node.
    pub open spec fn span(&self) -> NodeSpan {
        NodeSpan {
            name: self.name.spec_bytes(),
            begin: self.begin_offset as int,
            end: self.end_offset as int,
        }
    }
}

/// One decoded reserve-map entry from the FDT header area.
#[derive(Clone, Copy, Debug, PartialEq, Eq, Structural)]
pub struct FdtReserveEntry {
    /// Start address of the reserved range.
    pub address: u64,
    /// Size in bytes of the reserved range.
    pub size: u64,
}

/// Why the memory at an address holds no device tree, or nothing where it does.
pub open spec fn fdt_fault(address: usize, memory: Seq<u8>) -> Option<FdtError> {
    if address == 0 {
        Some(FdtError::NullPointer)
    } else if address % 8 != 0 {
        Some(FdtError::MisalignedPointer)
    } else {
        blob_fault(memory)
    }
}

/// Why a byte string does not start with a device tree, or nothing where it does.
pub open spec fn blob_fault(memory: Seq<u8>) -> Option<FdtError> {
    let total_size = be32(memory, 4);
    if memory.len() < 4 {
        Some(FdtError::Truncated)
    } else if be32(memory, 0) != FDT_MAGIC {
        Some(FdtError::BadMagic)
    } else if memory.len() < 40 {
        Some(FdtError::Truncated)
    } else if be32(memory, 20) < 17 {
        Some(FdtError::UnsupportedVersion)
    } else if total_size < 40 {
        Some(FdtError::InvalidHeader)
    } else if be32(memory, 16) > total_size {
        Some(FdtError::Truncated)
    } else if be32(memory, 8) < 40 || be32(memory, 8) + be32(memory, 36) > total_size || be32(
        memory,
        12,
    ) < 40 || be32(memory, 12) + be32(memory, 32) > total_size {
        Some(FdtError::InvalidHeader)
    } else if total_size > memory.len() {
        Some(FdtError::Truncated)
    } else {
        None
    }
}

/// The bytes from the reserve map of a device tree to its end.
pub open spec fn reserve_map_of(blob: Seq<u8>) -> Seq<u8> {
    blob.subrange(be32(blob, 16) as int, be32(blob, 4) as int)
}

/// The structure block of a device tree.
pub open spec fn structure_of(blob: Seq<u8>) -> Seq<u8> {
    blob.subrange(be32(blob, 8) as int, be32(blob, 8) + be32(blob, 36))
}

/// The strings block of a device tree.
pub open spec fn strings_of(blob: Seq<u8>) -> Seq<u8> {
    blob.subrange(be32(blob, 12) as int, be32(blob, 12) + be32(blob, 32))
}

/// Read-only view of one flattened device tree blob.
pub struct Fdt<'a> {
    /// Address of the start of the validated FDT blob.
    base: usize,
    /// Total size in bytes of the validated FDT blob.
    total_size: usize,
    /// Raw reserve map section of the FDT blob.
    reserve_map: &'a [u8],
    /// Raw structure block section of the FDT blob.
    structure: &'a [u8],
    /// Raw strings block section of the FDT blob.
    strings: &'a [u8],
}

/// Splits a path at its slashes.
pub(crate) fn split_path(path: &[u8]) -> (parts: Vec<Vec<u8>>)
    ensures
        parts_are(parts@, path_parts(path@)),
        parts@.len() > 0,
{
    let mut parts: Vec<Vec<u8>> = Vec::new();
    let mut start: usize = 0;
    let mut cursor: usize = 0;
    let ghost mut done: Seq<Seq<u8>> = Seq::empty();
    assert(done + path_parts(path@) =~= path_parts(path@));
    while cursor < path.len()
        invariant
            start <= cursor <= path@.len(),
            parts_are(parts@, done),
            done + parts_from(path@, start as int, cursor as int) == path_parts(path@),
        decreases path@.len() - cursor,
    {
        if path[cursor] == 0x2f {
            let part = copy_range(path, start, cursor);
            proof {
                let rest = parts_from(path@, cursor + 1, cursor + 1);
                assert(done + (seq![part@] + rest) =~= done.push(part@) + rest);
                done = done.push(part@);
            }
            parts.push(part);
            start = cursor + 1;
        }
        cursor += 1;
    }
    let part = copy_range(path, start, path.len());
    assert(done + seq![part@] =~= done.push(part@));
    parts.push(part);
    parts
}

impl<'a> Fdt<'a> {
    /// Address at which the blob starts.
    pub closed spec fn base(&self) -> usize {
        self.base
    }

    /// Size of the blob in bytes.
    pub closed spec fn total_size(&self) -> usize {
        self.total_size
    }

    /// Bytes from the reserve map to the end of the blob.
    pub closed spec fn reserve_map(&self) -> Seq<u8> {
        self.reserve_map@
    }

    /// Bytes of the structure block.
    pub closed spec fn structure(&self) -> Seq<u8> {
        self.structure@
    }

    /// Bytes of the strings block.
    pub closed spec fn strings(&self) -> Seq<u8> {
        self.strings@
    }

    /// Creates an FDT view of the blob at `address`. `memory` is what can be read
    /// from that address on.
    pub fn from_ptr(address: usize, memory: &'a [u8]) -> (fdt: Result<Self, FdtError>)
        ensures
            match fdt {
                Ok(view) => fdt_fault(address, memory@) is None && view.base() == address
                    && view.total_size() == be32(memory@, 4) && view.reserve_map()
                    == reserve_map_of(memory@) && view.structure() == structure_of(memory@)
                    && view.strings() == strings_of(memory@),
                Err(error) => fdt_fault(address, memory@) == Some(error),
            },
    {
        match validate_dtb_pointer(address) {
            Ok(()) => Fdt::from_bytes(address, memory),
            Err(error) => Err(error),
        }
    }

    /// Validates a byte string and creates a view of the device tree that it starts with.
    pub(crate) fn from_bytes(address: usize, memory: &'a [u8]) -> (fdt: Result<Self, FdtError>)
        ensures
            match fdt {
                Ok(view) => blob_fault(memory@) is None && view.base() == address
                    && view.total_size() == be32(memory@, 4) && view.reserve_map()
                    == reserve_map_of(memory@) && view.structure() == structure_of(memory@)
                    && view.strings() == strings_of(memory@),
                Err(error) => blob_fault(memory@) == Some(error),
            },
    {
        let magic: u32 = match read_be_u32_from_slice(memory, 0) {
            Some(word) => word,
            None => return Err(FdtError::Truncated),
        };
        if magic != FDT_MAGIC {
            return Err(FdtError::BadMagic);
        }
        match (
            read_be_u32_from_slice(memory, 4),
            read_be_u32_from_slice(memory, 8),
            read_be_u32_from_slice(memory, 12),
            read_be_u32_from_slice(memory, 16),
            read_be_u32_from_slice(memory, 20),
            read_be_u32_from_slice(memory, 32),
            read_be_u32_from_slice(memory, 36),
        ) {
            (
                Some(total_size),
                Some(off_dt_struct),
                Some(off_dt_strings),
                Some(off_mem_rsvmap),
                Some(version),
                Some(size_dt_strings),
                Some(size_dt_struct),
            ) => {
                if version < 17 {
                    return Err(FdtError::UnsupportedVersion);
                }
                if (total_size as usize) < FDT_HEADER_SIZE {
                    return Err(FdtError::InvalidHeader);
                }
                if off_mem_rsvmap > total_size {
                    return Err(FdtError::Truncated);
                }
                if (off_dt_struct as usize) < FDT_HEADER_SIZE || off_dt_struct as u64
                    + size_dt_struct as u64 > total_size as u64 || (off_dt_strings as usize)
                    < FDT_HEADER_SIZE || off_dt_strings as u64 + size_dt_strings as u64
                    > total_size as u64 {
                    return Err(FdtError::InvalidHeader);
                }
                if total_size as usize > memory.len() {
                    return Err(FdtError::Truncated);
                }
                let structure_end = off_dt_struct as usize + size_dt_struct as usize;
                let strings_end = off_dt_strings as usize + size_dt_strings as usize;
                Ok(
                    Fdt {
                        base: address,
                        total_size: total_size as usize,
                        reserve_map: &memory[off_mem_rsvmap as usize..total_size as usize],
                        structure: &memory[off_dt_struct as usize..structure_end],
                        strings: &memory[off_dt_strings as usize..strings_end],
                    },
                )
            },
            _ => Err(FdtError::Truncated),
        }
    }

    /// Returns the root node from the validated structure block.
    pub fn root_node(&self) -> (root: Option<FdtNode<'a>>)
        ensures
            match root {
                Some(node) => node_at(self.structure(), 0) == Some(node.span()),
                None => node_at(self.structure(), 0) is None,
            },
    {
        self.node_at_offset(0)
    }

    /// Finds one direct child node of `parent` by name.
    pub fn find_child(&self, parent: FdtNode<'a>, name: &str) -> (child: Option<FdtNode<'a>>)
        ensures
            match child {
                Some(node) => child_named(self.structure(), parent.span(), name.spec_bytes())
                    == Some(node.span()),
                None => child_named(self.structure(), parent.span(), name.spec_bytes()) is None,
            },
    {
        self.find_child_bytes(parent, name.as_bytes())
    }

    /// Finds one direct child node of `parent` by the bytes of its name.
    pub(crate) fn find_child_bytes(&self, parent: FdtNode<'a>, name: &[u8]) -> (child: Option<
        FdtNode<'a>,
    >)
        ensures
            match child {
                Some(node) => child_named(self.structure(), parent.span(), name@) == Some(
                    node.span(),
                ),
                None => child_named(self.structure(), parent.span(), name@) is None,
            },
    {
        let mut children: Vec<FdtNode<'a>> = Vec::new();
        self.for_each_child(parent, &mut children);
        let ghost nodes = children_of(self.structure@, parent.span());
        assert(spans_of(children@) =~= nodes);
        let mut index: usize = 0;
        while index < children.len()
            invariant
                index <= children@.len(),
                nodes == children_of(self.structure@, parent.span()),
                spans_of(children@) == nodes,
                named_from(nodes, name@, 0) == named_from(nodes, name@, index as int),
            decreases children@.len() - index,
        {
            let child = children[index];
            assert(child.span() == nodes[index as int]);
            if bytes_equal(child.name.as_bytes(), name) {
                return Some(child);
            }
            index += 1;
        }
        None
    }

    /// Finds one node by absolute device-tree path.
    pub fn find_node(&self, path: &str) -> (node: Option<FdtNode<'a>>)
        ensures
            match node {
                Some(found) => node_at_path(self.structure(), path.spec_bytes()) == Some(
                    found.span(),
                ),
                None => node_at_path(self.structure(), path.spec_bytes()) is None,
            },
    {
        let bytes = path.as_bytes();
        let root = match self.root_node() {
            Some(root) => root,
            None => return None,
        };
        if bytes.len() == 1 && bytes[0] == 0x2f {
            assert(bytes@ =~= seq![0x2fu8]);
            return Some(root);
        }
        assert(bytes@ != seq![0x2fu8]);
        let parts = split_path(bytes);
        let ghost all = path_parts(bytes@);
        if parts[0].len() != 0 {
            return None;
        }
        let ghost names = all.drop_first();
        let mut node = root;
        let mut index: usize = 1;
        assert(names.skip(0) =~= names);
        while index < parts.len()
            invariant
                1 <= index <= parts@.len(),
                all == path_parts(path.spec_bytes()),
                parts_are(parts@, all),
                names == all.drop_first(),
                node_at_path(self.structure@, path.spec_bytes()) == descendant(
                    self.structure@,
                    node.span(),
                    names.skip(index - 1),
                ),
            decreases parts@.len() - index,
        {
            assert(names.skip(index - 1)[0] == parts@[index as int]@);
            assert(names.skip(index - 1).drop_first() =~= names.skip(index as int));
            if parts[index].len() == 0 {
                return None;
            }
            node = match self.find_child_bytes(node, parts[index].as_slice()) {
                Some(child) => child,
                None => return None,
            };
            index += 1;
        }
        Some(node)
    }

    /// Appends each direct child of `parent` to `children`, in structure-block
    /// order.
    pub fn for_each_child(&self, parent: FdtNode<'a>, children: &mut Vec<FdtNode<'a>>)
        ensures
            spans_of(final(children)@) == spans_of(old(children)@) + children_of(
                self.structure(),
                parent.span(),
            ),
    {
        let ghost before = spans_of(children@);
        let ghost whole = children_of(self.structure@, parent.span());
        let ghost mut found: Seq<NodeSpan> = Seq::empty();
        let mut offset: usize = match self.after_begin_node(parent.begin_offset) {
            Some(offset) => offset,
            None => {
                assert(before + whole =~= before);
                return;
            },
        };
        assert(found + whole =~= whole);
        assert(before + found =~= before);
        while offset < parent.end_offset
            invariant
                offset <= self.structure@.len(),
                before == spans_of(old(children)@),
                whole == children_of(self.structure@, parent.span()),
                spans_of(children@) == before + found,
                whole == found + nodes_from(
                    self.structure@,
                    offset as int,
                    parent.end_offset as int,
                ),
            ensures
                spans_of(children@) == before + found,
                found =~= whole,
            decreases self.structure@.len() - offset,
        {
            let ghost rest = nodes_from(self.structure@, offset as int, parent.end_offset as int);
            let tag: u32 = match self.read_token(offset) {
                Some(tag) => tag,
                None => break,
            };
            proof {
                steps_advance(self.structure@, offset as int);
                closing_is_ahead(self.structure@, offset as int, 0);
            }
            if tag == FDT_PROP {
                offset = match self.after_property(offset) {
                    Some(next) => next,
                    None => break,
                };
            } else if tag == FDT_NOP {
                offset += 4;
            } else if tag == FDT_BEGIN_NODE {
                let child = match self.node_at_offset(offset) {
                    Some(child) => child,
                    None => break,
                };
                proof {
                    let tail = nodes_from(
                        self.structure@,
                        child.end_offset + 4,
                        parent.end_offset as int,
                    );
                    assert(found + (seq![child.span()] + tail) =~= found.push(child.span()) + tail);
                    assert(before + found.push(child.span()) =~= (before + found).push(
                        child.span(),
                    ));
                    found = found.push(child.span());
                }
                let ghost earlier = spans_of(children@);
                children.push(child);
                assert(spans_of(children@) =~= earlier.push(child.span()));
                offset = child.end_offset + 4;
            } else {
                break;
            }
        }
    }

    /// Returns one property value by name from `node`.
    pub fn get_property(&self, node: FdtNode<'a>, property_name: &str) -> (value: Option<&'a [u8]>)
        ensures
            match value {
                Some(bytes) => property_of(
                    self.structure(),
                    self.strings(),
                    node.span(),
                    property_name.spec_bytes(),
                ) == Some(bytes@),
                None => property_of(
                    self.structure(),
                    self.strings(),
                    node.span(),
                    property_name.spec_bytes(),
                ) is None,
            },
    {
        let ghost name = property_name.spec_bytes();
        let ghost whole = property_of(self.structure@, self.strings@, node.span(), name);
        let mut offset: usize = match self.after_begin_node(node.begin_offset) {
            Some(offset) => offset,
            None => return None,
        };
        while offset < node.end_offset
            invariant
                offset <= self.structure@.len(),
                name == property_name.spec_bytes(),
                whole == property_of(self.structure@, self.strings@, node.span(), name),
                whole == property_from(
                    self.structure@,
                    self.strings@,
                    offset as int,
                    node.end_offset as int,
                    name,
                ),
            decreases self.structure@.len() - offset,
        {
            let tag: u32 = match self.read_token(offset) {
                Some(tag) => tag,
                None => return None,
            };
            proof {
                steps_advance(self.structure@, offset as int);
            }
            if tag == FDT_PROP {
                let next: usize = match self.after_property(offset) {
                    Some(next) => next,
                    None => return None,
                };
                match (self.read_token(offset + 4), self.read_token(offset + 8)) {
                    (Some(length), Some(name_offset)) => {
                        let found = match read_c_string(self.strings, name_offset as usize) {
                            Some(found) => found,
                            None => return None,
                        };
                        if bytes_equal(found, property_name.as_bytes()) {
                            let start = offset + 12;
                            return Some(&self.structure[start..start + length as usize]);
                        }
                    },
                    _ => return None,
                }
                offset = next;
            } else if tag == FDT_NOP {
                offset += 4;
            } else {
                return None;
            }
        }
        None
    }

    /// Returns one 32-bit property value decoded from big-endian cells.
    pub fn get_property_u32(&self, node: FdtNode<'a>, property_name: &str) -> (value: Option<u32>)
        ensures
            value == property_number(
                self.structure(),
                self.strings(),
                node.span(),
                property_name.spec_bytes(),
            ),
    {
        match self.get_property(node, property_name) {
            Some(value) => read_be_u32_from_slice(value, 0),
            None => None,
        }
    }

    /// Returns one 64-bit property value decoded from big-endian cells.
    pub fn get_property_u64(&self, node: FdtNode<'a>, property_name: &str) -> (value: Option<u64>)
        ensures
            value == match property_of(
                self.structure(),
                self.strings(),
                node.span(),
                property_name.spec_bytes(),
            ) {
                Some(bytes) => if bytes.len() >= 8 {
                    Some(be64(bytes, 0))
                } else {
                    None
                },
                None => None,
            },
    {
        match self.get_property(node, property_name) {
            Some(value) => read_be_u64_from_slice(value, 0),
            None => None,
        }
    }

    /// Returns one NUL-terminated UTF-8 property string.
    pub fn get_property_string(&self, node: FdtNode<'a>, property_name: &str) -> (text: Option<
        &'a str,
    >)
        ensures
            ({
                let stored = match property_of(
                    self.structure(),
                    self.strings(),
                    node.span(),
                    property_name.spec_bytes(),
                ) {
                    Some(bytes) => c_string(bytes, 0),
                    None => None,
                };
                match text {
                    Some(value) => stored == Some(value.spec_bytes()),
                    None => stored is None,
                }
            }),
    {
        match self.get_property(node, property_name) {
            Some(value) => match read_c_string(value, 0) {
                Some(bytes) => utf8_text(bytes),
                None => None,
            },
            None => None,
        }
    }

    /// Returns the start address of the validated FDT blob.
    pub fn base_ptr(&self) -> (address: usize)
        ensures
            address == self.base(),
    {
        self.base
    }

    /// Returns the validated total FDT blob size in bytes.
    pub fn total_size_bytes(&self) -> (size: usize)
        ensures
            size == self.total_size(),
    {
        self.total_size
    }

    /// Returns one decoded reserve-map entry by index. The entry of zeros that
    /// ends the map is none.
    pub fn reserve_entry(&self, index: usize) -> (entry: Option<FdtReserveEntry>)
        ensures
            entry == if index * 16 + 16 > self.reserve_map().len() || (be64(
                self.reserve_map(),
                index * 16,
            ) == 0 && be64(self.reserve_map(), index * 16 + 8) == 0) {
                None
            } else {
                Some(
                    FdtReserveEntry {
                        address: be64(self.reserve_map(), index * 16),
                        size: be64(self.reserve_map(), index * 16 + 8),
                    },
                )
            },
    {
        if index >= self.reserve_map.len() / 16 {
            return None;
        }
        let offset = index * 16;
        match (
            read_be_u64_from_slice(self.reserve_map, offset),
            read_be_u64_from_slice(self.reserve_map, offset + 8),
        ) {
            (Some(address), Some(size)) => {
                if address == 0 && size == 0 {
                    None
                } else {
                    Some(FdtReserveEntry { address, size })
                }
            },
            _ => None,
        }
    }

    /// Builds one validated node view from a structure-block offset.
    pub(crate) fn node_at_offset(&self, offset: usize) -> (node: Option<FdtNode<'a>>)
        ensures
            match node {
                Some(found) => node_at(self.structure(), offset as int) == Some(found.span())
                    && found.end_offset + 4 <= self.structure().len() && found.end_offset > offset,
                None => node_at(self.structure(), offset as int) is None,
            },
    {
        match self.read_token(offset) {
            Some(tag) => if tag != FDT_BEGIN_NODE {
                return None;
            },
            None => return None,
        }
        let name = match read_c_string(self.structure, offset + 4) {
            Some(bytes) => match utf8_text(bytes) {
                Some(name) => name,
                None => return None,
            },
            None => return None,
        };
        match self.node_end_offset(offset) {
            Some(end_offset) => Some(FdtNode { name, begin_offset: offset, end_offset }),
            None => None,
        }
    }

    /// Returns the offset immediately after one `FDT_BEGIN_NODE` record.
    pub(crate) fn after_begin_node(&self, begin_offset: usize) -> (next: Option<usize>)
        ensures
            match next {
                Some(offset) => after_begin(self.structure(), begin_offset as int) == Some(
                    offset as int,
                ) && offset <= self.structure().len(),
                None => after_begin(self.structure(), begin_offset as int) is None,
            },
    {
        match self.read_token(begin_offset) {
            Some(tag) => if tag != FDT_BEGIN_NODE {
                return None;
            },
            None => return None,
        }
        match read_c_string(self.structure, begin_offset + 4) {
            Some(name) => Some(
                align4_within(begin_offset + 4 + name.len() + 1, self.structure.len()),
            ),
            None => None,
        }
    }

    /// Returns the offset immediately after one property record.
    pub(crate) fn after_property(&self, property_offset: usize) -> (next: Option<usize>)
        ensures
            match next {
                Some(offset) => after_property(self.structure(), property_offset as int) == Some(
                    offset as int,
                ) && property_offset + 12 <= offset <= self.structure().len() && property_offset
                    + 12 + be32(self.structure(), property_offset + 4) <= self.structure().len(),
                None => after_property(self.structure(), property_offset as int) is None,
            },
    {
        let size = self.structure.len();
        if size < 12 || property_offset > size - 12 {
            return None;
        }
        match self.read_token(property_offset + 4) {
            Some(length) => {
                let value_offset = property_offset + 12;
                if length as usize > size - value_offset {
                    return None;
                }
                Some(align4_within(value_offset + length as usize, size))
            },
            None => None,
        }
    }

    /// Returns one NUL-terminated string from the strings block.
    pub(crate) fn name_at(&self, offset: usize) -> (name: Option<&'a [u8]>)
        ensures
            match name {
                Some(found) => c_string(self.strings(), offset as int) == Some(found@),
                None => c_string(self.strings(), offset as int) is None,
            },
    {
        read_c_string(self.strings, offset)
    }

    /// Finds the matching `FDT_END_NODE` token for one node.
    fn node_end_offset(&self, begin_offset: usize) -> (end: Option<usize>)
        ensures
            match end {
                Some(offset) => closing_from(self.structure@, begin_offset as int, 0) == Some(
                    offset as int,
                ) && offset + 4 <= self.structure@.len() && offset > begin_offset,
                None => closing_from(self.structure@, begin_offset as int, 0) is None,
            },
    {
        let ghost whole = closing_from(self.structure@, begin_offset as int, 0);
        proof {
            closing_is_ahead(self.structure@, begin_offset as int, 0);
        }
        if begin_offset > self.structure.len() {
            return None;
        }
        let mut offset: usize = begin_offset;
        let mut depth: usize = 0;
        loop
            invariant
                begin_offset <= offset <= self.structure@.len(),
                depth <= offset,
                whole == closing_from(self.structure@, begin_offset as int, 0),
                whole == closing_from(self.structure@, offset as int, depth as nat),
                whole matches Some(end) ==> end > begin_offset && end + 4
                    <= self.structure@.len(),
            decreases self.structure@.len() - offset,
        {
            let tag: u32 = match self.read_token(offset) {
                Some(tag) => tag,
                None => return None,
            };
            proof {
                steps_advance(self.structure@, offset as int);
            }
            if tag == FDT_BEGIN_NODE {
                offset = match self.after_begin_node(offset) {
                    Some(next) => next,
                    None => return None,
                };
                depth += 1;
            } else if tag == FDT_END_NODE {
                if depth == 0 {
                    return None;
                }
                depth -= 1;
                if depth == 0 {
                    return Some(offset);
                }
                offset += 4;
            } else if tag == FDT_PROP {
                offset = match self.after_property(offset) {
                    Some(next) => next,
                    None => return None,
                };
            } else if tag == FDT_NOP {
                offset += 4;
            } else {
                return None;
            }
        }
    }

    /// Reads one structure token from the validated structure block.
    pub(crate) fn read_token(&self, offset: usize) -> (token: Option<u32>)
        ensures
            token == tag_at(self.structure(), offset as int),
            token is Some ==> offset + 4 <= self.structure().len() <= usize::MAX,
    {
        assert(self.structure.len() == self.structure@.len());
        read_be_u32_from_slice(self.structure, offset)
    }
}

/// Names and places of nodes.
pub open spec fn spans_of(nodes: Seq<FdtNode<'_>>) -> Seq<NodeSpan> {
    Seq::new(nodes.len(), |i: int| nodes[i].span())
}

/// Validates the address used to construct one FDT view.
fn validate_dtb_pointer(address: usize) -> (outcome: Result<(), FdtError>)
    ensures
        match outcome {
            Ok(()) => address != 0 && address % 8 == 0,
            Err(error) => if address == 0 {
                error == FdtError::NullPointer
            } else {
                address % 8 != 0 && error == FdtError::MisalignedPointer
            },
        },
{
    if address == 0 {
        return Err(FdtError::NullPointer);
    }
    if address % 8 != 0 {
        return Err(FdtError::MisalignedPointer);
    }
    Ok(())
}

} // verus!
