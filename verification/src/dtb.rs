//! Device-tree object with raw access to its bytes.

use vstd::prelude::*;
use vstd::string::*;
use crate::bytes::{be32, be32_bytes, be32_depends_on_four_bytes, be64_bytes, overwritten};
use crate::dtb_agree::{creating_alike, proper_tree, root_alike, setting_alike, walk_alike};
use crate::dtb_change::{
    allocate_for_clone, clone_granted, created_way_is_added, enlarge, enlarged,
    enlarged_tree_tells_size, node_kept, plain_name, property_kept, set_property_reads_back,
    way_added, CloneFault,
};
use crate::dtb_edit::{front_kept, header_word, write_bytes, EditError};
use crate::dtb_read::{split_path, strings_of, structure_of};
use crate::dtb_walk::{
    create_way, place_of_pair, place_walked, property_written, readable, root_node, root_place,
    walk_to, way_created, write_property,
};
use crate::dtb_write::{double_word_bytes, word_bytes};
use crate::fdt_frame::child_names;
use crate::fdt_nodes::{
    descendant, node_at, node_at_path, parts_are_some, parts_from, path_names, path_parts,
    property_of,
};
use crate::fdt_records::found_node_is_there;
use crate::fdt_tokens::FDT_MAGIC;
use crate::memory::{MemoryError, PageAllocator};
use crate::path::copy_range;

verus! {

/// Errors returned while constructing or changing a DTB object.
#[derive(Clone, Copy, Debug, PartialEq, Eq, Structural)]
pub enum DtbError {
    /// The supplied device-tree pointer was null.
    NullPointer,
    /// The supplied device-tree pointer was not 8-byte aligned.
    MisalignedPointer,
    /// The device-tree header did not contain the expected magic value.
    BadMagic,
    /// The requested clone size was not larger than the header totalsize.
    InvalidCloneSize,
    /// The requested or allocated clone size could not fit in the header.
    SizeOverflow,
    /// The requested write did not fit inside the DTB buffer.
    BufferTooSmall,
    /// The supplied node path was not a valid absolute device-tree path.
    InvalidPath,
    /// The requested node could not be found in the structure block.
    NodeNotFound,
    /// The structure block contents were malformed.
    BadStructure,
    /// Allocating pages for the cloned DTB failed.
    Memory(MemoryError),
}

impl vstd::std_specs::convert::FromSpecImpl<MemoryError> for DtbError {
    open spec fn obeys_from_spec() -> bool {
        true
    }

    open spec fn from_spec(error: MemoryError) -> DtbError {
        DtbError::Memory(error)
    }
}

impl From<MemoryError> for DtbError {
    /// Converts page-allocation failures into DTB construction failures.
    fn from(error: MemoryError) -> DtbError {
        DtbError::Memory(error)
    }
}

/// The error that a failed change is reported as. An unsound header is malformed.
pub open spec fn reported(error: EditError) -> DtbError {
    match error {
        EditError::SizeOverflow => DtbError::SizeOverflow,
        EditError::BufferTooSmall => DtbError::BufferTooSmall,
        EditError::BadStructure => DtbError::BadStructure,
        EditError::InvalidPath => DtbError::InvalidPath,
        EditError::NodeNotFound => DtbError::NodeNotFound,
        EditError::Header(_) => DtbError::BadStructure,
    }
}

fn report(error: EditError) -> (reported_error: DtbError)
    ensures
        reported_error == reported(error),
{
    match error {
        EditError::SizeOverflow => DtbError::SizeOverflow,
        EditError::BufferTooSmall => DtbError::BufferTooSmall,
        EditError::BadStructure => DtbError::BadStructure,
        EditError::InvalidPath => DtbError::InvalidPath,
        EditError::NodeNotFound => DtbError::NodeNotFound,
        EditError::Header(_) => DtbError::BadStructure,
    }
}

/// What a change leaves and how it went, with the error as it is reported.
pub open spec fn change_reported(change: (Seq<u8>, Result<(), EditError>)) -> (
    Seq<u8>,
    Result<(), DtbError>,
) {
    match change.1 {
        Ok(_) => (change.0, Ok(())),
        Err(error) => (change.0, Err(reported(error))),
    }
}

/// Decoded flattened device-tree header.
#[derive(Clone, Copy, Debug, PartialEq, Eq, Structural)]
pub struct DtbHeader {
    magic: u32,
    totalsize: u32,
    off_dt_struct: u32,
    off_dt_strings: u32,
    off_mem_rsvmap: u32,
    version: u32,
    last_comp_version: u32,
    boot_cpuid_phys: u32,
    size_dt_strings: u32,
    size_dt_struct: u32,
}

impl DtbHeader {
    /// Whether this is the header in the first bytes of a blob.
    pub closed spec fn heads(&self, blob: Seq<u8>) -> bool {
        &&& self.magic == be32(blob, 0)
        &&& self.totalsize == be32(blob, 4)
        &&& self.off_dt_struct == be32(blob, 8)
        &&& self.off_dt_strings == be32(blob, 12)
        &&& self.off_mem_rsvmap == be32(blob, 16)
        &&& self.version == be32(blob, 20)
        &&& self.last_comp_version == be32(blob, 24)
        &&& self.boot_cpuid_phys == be32(blob, 28)
        &&& self.size_dt_strings == be32(blob, 32)
        &&& self.size_dt_struct == be32(blob, 36)
    }

    /// Decodes the header of a blob.
    fn decode(blob: &Vec<u8>) -> (header: Self)
        requires
            blob@.len() >= 40,
        ensures
            header.heads(blob@),
    {
        DtbHeader {
            magic: header_word(blob, 0),
            totalsize: header_word(blob, 4),
            off_dt_struct: header_word(blob, 8),
            off_dt_strings: header_word(blob, 12),
            off_mem_rsvmap: header_word(blob, 16),
            version: header_word(blob, 20),
            last_comp_version: header_word(blob, 24),
            boot_cpuid_phys: header_word(blob, 28),
            size_dt_strings: header_word(blob, 32),
            size_dt_struct: header_word(blob, 36),
        }
    }

    /// Returns the decoded device-tree magic number.
    pub fn magic(&self) -> (value: u32)
        ensures
            forall|blob: Seq<u8>| self.heads(blob) ==> value == #[trigger] be32(blob, 0),
    {
        self.magic
    }

    /// Returns the decoded total device-tree blob size.
    pub fn total_size(&self) -> (value: u32)
        ensures
            forall|blob: Seq<u8>| self.heads(blob) ==> value == #[trigger] be32(blob, 4),
    {
        self.totalsize
    }

    /// Returns the decoded structure-block offset.
    pub fn off_dt_struct(&self) -> (value: u32)
        ensures
            forall|blob: Seq<u8>| self.heads(blob) ==> value == #[trigger] be32(blob, 8),
    {
        self.off_dt_struct
    }

    /// Returns the decoded strings-block offset.
    pub fn off_dt_strings(&self) -> (value: u32)
        ensures
            forall|blob: Seq<u8>| self.heads(blob) ==> value == #[trigger] be32(blob, 12),
    {
        self.off_dt_strings
    }

    /// Returns the decoded memory-reservation block offset.
    pub fn off_mem_rsvmap(&self) -> (value: u32)
        ensures
            forall|blob: Seq<u8>| self.heads(blob) ==> value == #[trigger] be32(blob, 16),
    {
        self.off_mem_rsvmap
    }

    /// Returns the decoded device-tree format version.
    pub fn version(&self) -> (value: u32)
        ensures
            forall|blob: Seq<u8>| self.heads(blob) ==> value == #[trigger] be32(blob, 20),
    {
        self.version
    }

    /// Returns the decoded last compatible device-tree version.
    pub fn last_comp_version(&self) -> (value: u32)
        ensures
            forall|blob: Seq<u8>| self.heads(blob) ==> value == #[trigger] be32(blob, 24),
    {
        self.last_comp_version
    }

    /// Returns the decoded physical boot CPU identifier.
    pub fn boot_cpuid_phys(&self) -> (value: u32)
        ensures
            forall|blob: Seq<u8>| self.heads(blob) ==> value == #[trigger] be32(blob, 28),
    {
        self.boot_cpuid_phys
    }

    /// Returns the decoded strings-block size.
    pub fn size_dt_strings(&self) -> (value: u32)
        ensures
            forall|blob: Seq<u8>| self.heads(blob) ==> value == #[trigger] be32(blob, 32),
    {
        self.size_dt_strings
    }

    /// Returns the decoded structure-block size.
    pub fn size_dt_struct(&self) -> (value: u32)
        ensures
            forall|blob: Seq<u8>| self.heads(blob) ==> value == #[trigger] be32(blob, 36),
    {
        self.size_dt_struct
    }
}

/// Why the memory at an address holds no device tree that can be opened. Memory
/// that ends inside of the header or of the blob is malformed.
pub open spec fn pointer_fault(address: usize, memory: Seq<u8>) -> Option<DtbError> {
    if address == 0 {
        Some(DtbError::NullPointer)
    } else if address % 8 != 0 {
        Some(DtbError::MisalignedPointer)
    } else if memory.len() < 40 {
        Some(DtbError::BadStructure)
    } else if be32(memory, 0) != FDT_MAGIC {
        Some(DtbError::BadMagic)
    } else if be32(memory, 4) > memory.len() {
        Some(DtbError::BadStructure)
    } else {
        None
    }
}

/// The end of a blob and its header: the header can be longer than the blob.
pub open spec fn header_end(memory: Seq<u8>) -> int {
    if be32(memory, 4) < 40 {
        40
    } else {
        be32(memory, 4) as int
    }
}

/// Where the node at a path opens and closes in a blob of `size` bytes, or why there is
/// none.
pub open spec fn node_found(head: Seq<u8>, size: int, path: Seq<u8>) -> Result<
    (int, int),
    EditError,
> {
    match path_names(path) {
        None => Err(EditError::InvalidPath),
        Some(names) => match root_place(head, size) {
            Err(error) => Err(error),
            Ok(root) => place_walked(head, size, root, names),
        },
    }
}

/// The bytes from the start of the header on after a property of the node at a path was
/// set in a blob of `size` bytes, and how it went.
pub open spec fn property_set_at(
    head: Seq<u8>,
    size: int,
    path: Seq<u8>,
    name: Seq<u8>,
    value: Seq<u8>,
) -> (Seq<u8>, Result<(), DtbError>) {
    match node_found(head, size, path) {
        Err(error) => (head, Err(reported(error))),
        Ok(node) => change_reported(property_written(head, size, node, name, value)),
    }
}

/// The bytes from the start of the header on after the nodes of a path were created in a
/// blob of `size` bytes, and how it went.
pub open spec fn path_created(head: Seq<u8>, size: int, path: Seq<u8>) -> (
    Seq<u8>,
    Result<(), DtbError>,
) {
    if path_parts(path)[0].len() != 0 {
        (head, Err(DtbError::InvalidPath))
    } else {
        match root_place(head, size) {
            Err(error) => (head, Err(reported(error))),
            Ok(root) => change_reported(
                way_created(head, size, root, path_parts(path).drop_first()),
            ),
        }
    }
}

/// The bytes from the start of the header on after bytes were written at an offset of a
/// blob of `size` bytes, and the offset behind them.
pub open spec fn bytes_inserted(head: Seq<u8>, size: int, offset: usize, bytes: Seq<u8>) -> (
    Seq<u8>,
    Result<usize, DtbError>,
) {
    if offset + bytes.len() > usize::MAX {
        (head, Err(DtbError::SizeOverflow))
    } else if offset + bytes.len() > size {
        (head, Err(DtbError::BufferTooSmall))
    } else {
        (overwritten(head, offset as int, bytes), Ok((offset + bytes.len()) as usize))
    }
}

/// The bytes from the start of the header on after a string and its terminator were
/// written at an offset of a blob of `size` bytes, and the offset behind them.
pub open spec fn text_inserted(head: Seq<u8>, size: int, offset: usize, text: Seq<u8>) -> (
    Seq<u8>,
    Result<usize, DtbError>,
) {
    match bytes_inserted(head, size, offset, text) {
        (after, Ok(next)) => bytes_inserted(after, size, next, seq![0u8]),
        (after, Err(error)) => (after, Err(error)),
    }
}

/// The error that a failed clone is reported as.
pub open spec fn clone_reported(fault: CloneFault) -> DtbError {
    match fault {
        CloneFault::InvalidCloneSize => DtbError::InvalidCloneSize,
        CloneFault::SizeOverflow => DtbError::SizeOverflow,
        CloneFault::Memory(error) => DtbError::Memory(error),
    }
}

/// Boot-oriented device-tree object passed to boot methods.
pub struct Dtb {
    /// Address of the start of the device-tree blob.
    address: u64,
    /// Bytes of the device-tree blob, and of its header where that is longer.
    bytes: Vec<u8>,
    /// Size in bytes of the device-tree blob.
    size: usize,
}

impl Dtb {
    /// Address at which the blob starts.
    pub closed spec fn address(&self) -> u64 {
        self.address
    }

    /// The bytes from the start of the header on: those of the blob, and of the header
    /// where that is longer.
    pub closed spec fn head(&self) -> Seq<u8> {
        self.bytes@
    }

    /// Size in bytes of the blob.
    pub closed spec fn blob_size(&self) -> int {
        self.size as int
    }

    /// Bytes of the blob.
    pub open spec fn blob(&self) -> Seq<u8> {
        self.head().take(self.blob_size())
    }

    /// As many bytes of the blob as its header tells.
    pub open spec fn told(&self) -> Seq<u8> {
        self.blob().take(be32(self.head(), 4) as int)
    }

    /// Whether the header can be read. Nothing lies behind a blob that holds it.
    pub open spec fn well_formed(&self) -> bool {
        &&& readable(self.head(), self.blob_size())
        &&& self.head().len() == if self.blob_size() < 40 {
            40
        } else {
            self.blob_size()
        }
    }

    /// Creates one DTB object from the device tree at `address`. `memory` is what
    /// can be read from that address on.
    pub fn from_ptr(address: usize, memory: &[u8]) -> (tree: Result<Self, DtbError>)
        ensures
            match tree {
                Ok(dtb) => pointer_fault(address, memory@) is None && dtb.well_formed()
                    && dtb.address() == address && dtb.blob_size() == be32(memory@, 4)
                    && dtb.blob() == memory@.take(be32(memory@, 4) as int) && dtb.head()
                    == memory@.take(header_end(memory@)) && be32(dtb.head(), 4) == be32(memory@, 4),
                Err(error) => pointer_fault(address, memory@) == Some(error),
            },
    {
        if address == 0 {
            return Err(DtbError::NullPointer);
        }
        if address % 8 != 0 {
            return Err(DtbError::MisalignedPointer);
        }
        if memory.len() < 40 {
            return Err(DtbError::BadStructure);
        }
        let head = copy_range(memory, 0, 40);
        proof {
            be32_depends_on_four_bytes(head@, 0, memory@, 0);
            be32_depends_on_four_bytes(head@, 4, memory@, 4);
        }
        if header_word(&head, 0) != FDT_MAGIC {
            return Err(DtbError::BadMagic);
        }
        let total_size = header_word(&head, 4) as usize;
        if total_size > memory.len() {
            return Err(DtbError::BadStructure);
        }
        let bytes = copy_range(memory, 0, if total_size < 40 {
            40
        } else {
            total_size
        });
        let tree = Dtb { address: address as u64, bytes, size: total_size };
        proof {
            assert(tree.head() =~= memory@.take(header_end(memory@)));
            assert(tree.blob() =~= memory@.take(total_size as int));
            be32_depends_on_four_bytes(tree.head(), 4, memory@, 4);
        }
        Ok(tree)
    }

    /// Clones this DTB into newly allocated memory with a larger total size.
    pub fn clone(&self, new_size: usize, allocator: &mut PageAllocator<'_>) -> (copy: Result<
        Self,
        DtbError,
    >)
        requires
            self.well_formed(),
            be32(self.head(), 4) <= self.blob_size(),
            old(allocator).well_formed(),
        ensures
            final(allocator).well_formed(),
            final(allocator).capacity() == old(allocator).capacity(),
            final(final(allocator).buffer())@ == final(old(allocator).buffer())@,
            match clone_granted(
                be32(self.head(), 4) as int,
                new_size as int,
                old(allocator).map(),
                old(allocator).capacity(),
            ) {
                Ok((start, size, after)) => copy matches Ok(dtb) && dtb.well_formed()
                    && dtb.address() == start && dtb.head() == enlarged(self.told(), size)
                    && dtb.blob_size() == size && final(allocator).map() == after,
                Err(fault) => copy == Err::<Dtb, DtbError>(clone_reported(fault))
                    && final(allocator).map() == old(allocator).map(),
            },
    {
        let total = self.total_size() as usize;
        let (start, size) = match allocate_for_clone(total, new_size, allocator) {
            Ok(granted) => granted,
            Err(fault) => {
                return match fault {
                    CloneFault::InvalidCloneSize => Err(DtbError::InvalidCloneSize),
                    CloneFault::SizeOverflow => Err(DtbError::SizeOverflow),
                    CloneFault::Memory(error) => Err(DtbError::Memory(error)),
                };
            },
        };
        let tree = &self.bytes.as_slice()[0..total];
        assert(tree@ =~= self.told());
        let bytes = enlarge(tree, size);
        proof {
            enlarged_tree_tells_size(self.told(), size as int);
        }
        Ok(Dtb { address: start, bytes, size })
    }

    /// Returns the size that the header tells.
    fn total_size(&self) -> (size: u32)
        requires
            self.well_formed(),
        ensures
            size == be32(self.head(), 4),
    {
        header_word(&self.bytes, 4)
    }

    /// Returns the decoded header of the blob.
    pub fn header(&self) -> (header: DtbHeader)
        requires
            self.well_formed(),
        ensures
            header.heads(self.head()),
    {
        DtbHeader::decode(&self.bytes)
    }

    /// Returns the address of the start of the device-tree blob.
    pub fn pointer(&self) -> (address: u64)
        ensures
            address == self.address(),
    {
        self.address
    }

    /// Returns the size in bytes of the device-tree blob.
    pub fn size(&self) -> (size: usize)
        ensures
            size == self.blob_size(),
    {
        self.size
    }

    /// Returns as many bytes of the blob as its header tells.
    pub fn bytes(&self) -> (bytes: &[u8])
        requires
            self.well_formed(),
            be32(self.head(), 4) <= self.blob_size(),
        ensures
            bytes@ == self.told(),
    {
        let total_size = self.total_size() as usize;
        let bytes = &self.bytes.as_slice()[0..total_size];
        assert(bytes@ =~= self.told());
        bytes
    }

    /// Creates one node path in the structure block, adding missing components.
    pub fn create_node(&mut self, path: &str) -> (outcome: Result<(), DtbError>)
        requires
            old(self).well_formed(),
        ensures
            final(self).address() == old(self).address(),
            final(self).blob_size() == old(self).blob_size(),
            final(self).well_formed(),
            (final(self).head(), outcome) == path_created(
                old(self).head(),
                old(self).blob_size(),
                path.spec_bytes(),
            ),
    {
        let parts = split_path(path.as_bytes());
        let ghost all = path_parts(path.spec_bytes());
        if parts[0].len() != 0 {
            return Err(DtbError::InvalidPath);
        }
        let root = match root_node(self.bytes.as_slice(), self.size) {
            Ok(root) => root,
            Err(error) => return Err(report(error)),
        };
        assert(all.skip(1) =~= all.drop_first());
        match create_way(&mut self.bytes, self.size, root, &parts, 1, Ghost(all)) {
            Ok(()) => Ok(()),
            Err(error) => Err(report(error)),
        }
    }

    /// Creates or replaces one property on an existing node.
    fn set_property(&mut self, node_path: &str, property_name: &str, value: &[u8]) -> (outcome:
        Result<(), DtbError>)
        requires
            old(self).well_formed(),
        ensures
            final(self).address() == old(self).address(),
            final(self).blob_size() == old(self).blob_size(),
            final(self).well_formed(),
            (final(self).head(), outcome) == property_set_at(
                old(self).head(),
                old(self).blob_size(),
                node_path.spec_bytes(),
                property_name.spec_bytes(),
                value@,
            ),
    {
        let node = match self.find_node(node_path) {
            Ok(place) => place,
            Err(error) => return Err(report(error)),
        };
        match write_property(&mut self.bytes, self.size, node, property_name.as_bytes(), value) {
            Ok(()) => Ok(()),
            Err(error) => Err(report(error)),
        }
    }

    /// Creates or replaces one 32-bit property on an existing node.
    pub fn set_property_u32(&mut self, node_path: &str, property_name: &str, value: u32) -> (outcome:
        Result<(), DtbError>)
        requires
            old(self).well_formed(),
        ensures
            final(self).address() == old(self).address(),
            final(self).blob_size() == old(self).blob_size(),
            final(self).well_formed(),
            (final(self).head(), outcome) == property_set_at(
                old(self).head(),
                old(self).blob_size(),
                node_path.spec_bytes(),
                property_name.spec_bytes(),
                be32_bytes(value),
            ),
    {
        let bytes = word_bytes(value);
        self.set_property(node_path, property_name, bytes.as_slice())
    }

    /// Creates or replaces one 64-bit property on an existing node.
    pub fn set_property_u64(&mut self, node_path: &str, property_name: &str, value: u64) -> (outcome:
        Result<(), DtbError>)
        requires
            old(self).well_formed(),
        ensures
            final(self).address() == old(self).address(),
            final(self).blob_size() == old(self).blob_size(),
            final(self).well_formed(),
            (final(self).head(), outcome) == property_set_at(
                old(self).head(),
                old(self).blob_size(),
                node_path.spec_bytes(),
                property_name.spec_bytes(),
                be64_bytes(value),
            ),
    {
        let bytes = double_word_bytes(value);
        self.set_property(node_path, property_name, bytes.as_slice())
    }

    /// Creates or replaces one zero-terminated string property.
    pub fn set_property_string(&mut self, node_path: &str, property_name: &str, value: &str) -> (
    outcome: Result<(), DtbError>)
        requires
            old(self).well_formed(),
        ensures
            final(self).address() == old(self).address(),
            final(self).blob_size() == old(self).blob_size(),
            final(self).well_formed(),
            (final(self).head(), outcome) == property_set_at(
                old(self).head(),
                old(self).blob_size(),
                node_path.spec_bytes(),
                property_name.spec_bytes(),
                value.spec_bytes().push(0u8),
            ),
    {
        let text = value.as_bytes();
        let mut bytes = copy_range(text, 0, text.len());
        bytes.push(0);
        assert(bytes@ =~= value.spec_bytes().push(0u8));
        self.set_property(node_path, property_name, bytes.as_slice())
    }

    /// Writes one 32-bit big-endian value into the blob and returns the offset
    /// behind it.
    pub fn insert_u32(&mut self, offset: usize, value: u32) -> (next: Result<usize, DtbError>)
        requires
            old(self).well_formed(),
        ensures
            final(self).address() == old(self).address(),
            final(self).blob_size() == old(self).blob_size(),
            final(self).well_formed(),
            (final(self).head(), next) == bytes_inserted(
                old(self).head(),
                old(self).blob_size(),
                offset,
                be32_bytes(value),
            ),
    {
        let bytes = word_bytes(value);
        self.insert_bytes(offset, bytes.as_slice())
    }

    /// Writes one 64-bit big-endian value into the blob and returns the offset
    /// behind it.
    pub fn insert_u64(&mut self, offset: usize, value: u64) -> (next: Result<usize, DtbError>)
        requires
            old(self).well_formed(),
        ensures
            final(self).address() == old(self).address(),
            final(self).blob_size() == old(self).blob_size(),
            final(self).well_formed(),
            (final(self).head(), next) == bytes_inserted(
                old(self).head(),
                old(self).blob_size(),
                offset,
                be64_bytes(value),
            ),
    {
        let bytes = double_word_bytes(value);
        self.insert_bytes(offset, bytes.as_slice())
    }

    /// Writes one string with a trailing zero byte into the blob and returns the
    /// offset behind it.
    pub fn insert_string(&mut self, offset: usize, value: &str) -> (next: Result<usize, DtbError>)
        requires
            old(self).well_formed(),
        ensures
            final(self).address() == old(self).address(),
            final(self).blob_size() == old(self).blob_size(),
            final(self).well_formed(),
            (final(self).head(), next) == text_inserted(
                old(self).head(),
                old(self).blob_size(),
                offset,
                value.spec_bytes(),
            ),
    {
        let next_offset: usize = match self.insert_bytes(offset, value.as_bytes()) {
            Ok(next) => next,
            Err(error) => return Err(error),
        };
        let terminator: [u8; 1] = [0u8];
        assert(terminator@ =~= seq![0u8]);
        self.insert_bytes(next_offset, terminator.as_slice())
    }

    /// Writes raw bytes into the blob and returns the offset behind them.
    fn insert_bytes(&mut self, offset: usize, bytes: &[u8]) -> (next: Result<usize, DtbError>)
        requires
            old(self).well_formed(),
        ensures
            final(self).address() == old(self).address(),
            final(self).blob_size() == old(self).blob_size(),
            final(self).well_formed(),
            (final(self).head(), next) == bytes_inserted(
                old(self).head(),
                old(self).blob_size(),
                offset,
                bytes@,
            ),
    {
        if bytes.len() > usize::MAX - offset {
            return Err(DtbError::SizeOverflow);
        }
        let end = offset + bytes.len();
        if end > self.size {
            return Err(DtbError::BufferTooSmall);
        }
        write_bytes(&mut self.bytes, offset, bytes);
        Ok(end)
    }

    /// Finds where the node at a path opens and closes.
    fn find_node(&self, path: &str) -> (place: Result<(u64, u64), EditError>)
        requires
            self.well_formed(),
        ensures
            match place {
                Ok(node) => node_found(self.head(), self.blob_size(), path.spec_bytes()) == Ok::<
                    (int, int),
                    EditError,
                >(place_of_pair(node)) && node.0 <= self.blob_size() && node.1 <= self.blob_size(),
                Err(error) => node_found(self.head(), self.blob_size(), path.spec_bytes()) == Err::<
                    (int, int),
                    EditError,
                >(error),
            },
    {
        let bytes = path.as_bytes();
        let parts = split_path(bytes);
        let ghost all = path_parts(bytes@);
        let single = bytes.len() == 1 && bytes[0] == 0x2f;
        assert(single == (bytes@ == seq![0x2fu8])) by {
            if single {
                assert(bytes@ =~= seq![0x2fu8]);
            }
        }
        if !single && parts[0].len() != 0 {
            return Err(EditError::InvalidPath);
        }
        let root = match root_node(self.bytes.as_slice(), self.size) {
            Ok(root) => root,
            Err(error) => return Err(error),
        };
        if single {
            return Ok(root);
        }
        assert(all.skip(1) =~= all.drop_first());
        walk_to(self.bytes.as_slice(), self.size, root, &parts, 1, Ghost(all))
    }
}

/// A property that was set at a path of a proper device tree is read back from the node
/// at that path. The other properties of the node, all other nodes and what comes
/// before the structure block are as they were.
pub proof fn property_reads_back(blob: Seq<u8>, path: Seq<u8>, name: Seq<u8>, value: Seq<u8>)
    requires
        proper_tree(blob),
        plain_name(name),
        property_set_at(blob, blob.len() as int, path, name, value).1 is Ok,
    ensures
        ({
            let after = property_set_at(blob, blob.len() as int, path, name, value).0;
            &&& after.len() == blob.len()
            &&& proper_tree(after)
            &&& front_kept(blob, after)
            &&& node_at_path(structure_of(blob), path) matches Some(before) && node_at_path(
                structure_of(after),
                path,
            ) matches Some(node) && property_of(
                structure_of(after),
                strings_of(after),
                node,
                name,
            ) == Some(value) && child_names(structure_of(after), node) == child_names(
                structure_of(blob),
                before,
            ) && forall|other: Seq<u8>|
                #![trigger property_of(structure_of(after), strings_of(after), node, other)]
                other != name ==> property_kept(blob, before, after, node, other)
            &&& forall|place: Seq<u8>|
                #![trigger node_at_path(structure_of(after), place)]
                path_names(place) != path_names(path) ==> (node_at_path(
                    structure_of(blob),
                    place,
                ) matches Some(there) ==> (node_at_path(structure_of(after), place) matches Some(
                    kept,
                ) && node_kept(blob, there, after, kept)))
        }),
{
    let names = path_names(path)->0;
    let root = node_at(structure_of(blob), 0)->0;
    root_alike(blob);
    walk_alike(blob, root, names);
    let node = descendant(structure_of(blob), root, names)->0;
    found_node_is_there(structure_of(blob), root, names);
    setting_alike(blob, node, name, value);
    assert(node_at_path(structure_of(blob), path) == Some(node));
    set_property_reads_back(blob, root, names, node, name, value);
    let after = property_set_at(blob, blob.len() as int, path, name, value).0;
    let top = node_at(structure_of(after), 0)->0;
    assert forall|place: Seq<u8>|
        #![trigger node_at_path(structure_of(after), place)]
        path_names(place) != path_names(path) && node_at_path(structure_of(blob), place)
            is Some implies (node_at_path(structure_of(after), place) matches Some(kept)
        && node_kept(blob, node_at_path(structure_of(blob), place)->0, after, kept)) by {
        let way = path_names(place)->0;
        assert(descendant(structure_of(blob), root, way) is Some);
        assert(descendant(structure_of(after), top, way) is Some);
    }
}

/// A path that was created in a proper device tree leads to a node, and so does each
/// beginning of it. New nodes are empty, but for the next one on the path, and all else
/// in the tree reads as before. Creating the path once more changes nothing.
pub proof fn created_path_is_found(blob: Seq<u8>, path: Seq<u8>)
    requires
        proper_tree(blob),
        forall|i: int| 1 <= i < path_parts(path).len() ==> plain_name(#[trigger] path_parts(path)[i]),
        path_created(blob, blob.len() as int, path).1 is Ok,
    ensures
        ({
            let after = path_created(blob, blob.len() as int, path).0;
            &&& after.len() == blob.len()
            &&& proper_tree(after)
            &&& node_at_path(structure_of(after), path) is Some
            &&& way_added(blob, after, path_parts(path).drop_first())
            &&& path_created(after, after.len() as int, path) == (after, Ok::<(), DtbError>(()))
        }),
{
    parts_are_some(path, 0, 0);
    let names = path_parts(path).drop_first();
    let none = Seq::<Seq<u8>>::empty();
    let root = node_at(structure_of(blob), 0)->0;
    assert forall|i: int| 0 <= i < names.len() implies plain_name(#[trigger] names[i]) by {
        assert(names[i] == path_parts(path)[i + 1]);
    }
    root_alike(blob);
    creating_alike(blob, root, none, root, names);
    if path == seq![0x2fu8] {
        reveal_with_fuel(parts_from, 3);
        assert(names =~= seq![Seq::<u8>::empty()]);
        assert(false);
    }
    created_way_is_added(blob, root, names);
    let after = path_created(blob, blob.len() as int, path).0;
    let top = node_at(structure_of(after), 0)->0;
    root_alike(after);
    creating_alike(after, top, none, top, names);
}

/// Bytes that were written at an offset are there, and no other byte has changed.
pub proof fn inserted_bytes_read_back(blob: Seq<u8>, size: int, offset: usize, bytes: Seq<u8>)
    requires
        size <= blob.len(),
        bytes_inserted(blob, size, offset, bytes).1 is Ok,
    ensures
        ({
            let after = bytes_inserted(blob, size, offset, bytes).0;
            &&& after.len() == blob.len()
            &&& after.subrange(offset as int, offset + bytes.len()) == bytes
            &&& forall|i: int|
                0 <= i < blob.len() && !(offset <= i < offset + bytes.len()) ==> after[i] == blob[i]
        }),
{
    let after = bytes_inserted(blob, size, offset, bytes).0;
    assert(after.subrange(offset as int, offset + bytes.len()) =~= bytes);
}

} // verus!
