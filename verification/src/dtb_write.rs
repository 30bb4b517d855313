//! Boot-oriented device-tree object that can be changed.

use vstd::prelude::*;
use vstd::string::*;
use vstd::utf8::*;
use crate::bytes::{
    be32, be32_bytes, be32_depends_on_four_bytes, be32_round_trip, be64, be64_bytes,
    be64_round_trip,
};
use crate::dtb_change::{
    allocate_for_clone, blocks_apart, clone_granted, create_nodes, created_way_is_added,
    creation_keeps_length, enlarge, enlarged, enlarged_tree_tells_size, node_kept, nodes_created,
    plain_name, property_kept, property_set, set_keeps_length, set_property,
    set_property_reads_back, way_added, whole_tree, CloneFault,
};
use crate::dtb_edit::{front_kept, EditError};
use crate::dtb_read::{blob_fault, fdt_fault, split_path, strings_of, structure_of, Fdt, FdtError};
use crate::fdt_frame::child_names;
use crate::fdt_nodes::{
    closing_is_ahead, descendant, node_at, node_at_path, parts_are_some, parts_from, path_names,
    path_parts, property_number, property_of, NodeSpan,
};
use crate::fdt_records::found_node_is_there;
use crate::memory::{MemoryError, PageAllocator};
use crate::path::{copy_range, parts_are};

verus! {

/// Errors returned while constructing or changing a boot-oriented DTB object.
#[derive(Clone, Copy, Debug, PartialEq, Eq, Structural)]
pub enum DtbError {
    /// The requested clone size was not larger than the header totalsize.
    InvalidCloneSize,
    /// The requested or allocated clone size could not fit in the header.
    SizeOverflow,
    /// The requested write did not fit inside the DTB buffer.
    BufferTooSmall,
    /// The supplied node path was not a valid absolute device-tree path.
    InvalidPath,
    /// The requested node could not be found in the structure block.
    NodeNotFound,
    /// The structure block contents were malformed.
    BadStructure,
    /// Allocating pages for the cloned DTB failed.
    Memory(MemoryError),
    /// Low-level FDT validation or parsing failed.
    Fdt(FdtError),
}

impl vstd::std_specs::convert::FromSpecImpl<MemoryError> for DtbError {
    open spec fn obeys_from_spec() -> bool {
        true
    }

    open spec fn from_spec(error: MemoryError) -> DtbError {
        DtbError::Memory(error)
    }
}

impl From<MemoryError> for DtbError {
    /// Converts page-allocation failures into DTB construction failures.
    fn from(error: MemoryError) -> DtbError {
        DtbError::Memory(error)
    }
}

impl vstd::std_specs::convert::FromSpecImpl<FdtError> for DtbError {
    open spec fn obeys_from_spec() -> bool {
        true
    }

    open spec fn from_spec(error: FdtError) -> DtbError {
        DtbError::Fdt(error)
    }
}

impl From<FdtError> for DtbError {
    /// Converts FDT validation failures into boot-oriented DTB errors.
    fn from(error: FdtError) -> DtbError {
        DtbError::Fdt(error)
    }
}

/// The error that a failed change is reported as.
pub open spec fn reported(error: EditError) -> DtbError {
    match error {
        EditError::SizeOverflow => DtbError::SizeOverflow,
        EditError::BufferTooSmall => DtbError::BufferTooSmall,
        EditError::BadStructure => DtbError::BadStructure,
        EditError::InvalidPath => DtbError::InvalidPath,
        EditError::NodeNotFound => DtbError::NodeNotFound,
        EditError::Header(fault) => DtbError::Fdt(fault),
    }
}

fn report(error: EditError) -> (reported_error: DtbError)
    ensures
        reported_error == reported(error),
{
    match error {
        EditError::SizeOverflow => DtbError::SizeOverflow,
        EditError::BufferTooSmall => DtbError::BufferTooSmall,
        EditError::BadStructure => DtbError::BadStructure,
        EditError::InvalidPath => DtbError::InvalidPath,
        EditError::NodeNotFound => DtbError::NodeNotFound,
        EditError::Header(fault) => DtbError::Fdt(fault),
    }
}

/// What a change leaves and how it went, with the error as it is reported.
pub open spec fn change_reported(change: (Seq<u8>, Result<(), EditError>)) -> (
    Seq<u8>,
    Result<(), DtbError>,
) {
    match change.1 {
        Ok(_) => (change.0, Ok(())),
        Err(error) => (change.0, Err(reported(error))),
    }
}

/// Whether a part of a path other than the first is empty.
pub open spec fn has_empty_part(parts: Seq<Seq<u8>>) -> bool {
    exists|i: int| 1 <= i < parts.len() && (#[trigger] parts[i]).len() == 0
}

/// Why the tree at an address cannot be read, or nothing where it can.
pub open spec fn view_fault(address: u64, blob: Seq<u8>) -> Option<FdtError> {
    if address == 0 {
        Some(FdtError::NullPointer)
    } else if address % 8 != 0 {
        Some(FdtError::MisalignedPointer)
    } else {
        blob_fault(blob)
    }
}

/// The node at a path of the tree at an address, or why there is none.
pub open spec fn node_location(address: u64, blob: Seq<u8>, path: Seq<u8>) -> Result<
    NodeSpan,
    DtbError,
> {
    let structure = structure_of(blob);
    if path != seq![0x2fu8] && (path_parts(path)[0].len() != 0 || has_empty_part(
        path_parts(path),
    )) {
        Err(DtbError::InvalidPath)
    } else {
        match (view_fault(address, blob), node_at_path(structure, path)) {
            (Some(fault), _) => Err(DtbError::Fdt(fault)),
            (None, Some(node)) => Ok(node),
            (None, None) => if path == seq![0x2fu8] {
                Err(DtbError::BadStructure)
            } else {
                Err(DtbError::NodeNotFound)
            },
        }
    }
}

/// The blob after a property of the node at a path was set, and how it went.
pub open spec fn property_set_at(
    address: u64,
    blob: Seq<u8>,
    path: Seq<u8>,
    name: Seq<u8>,
    value: Seq<u8>,
) -> (Seq<u8>, Result<(), DtbError>) {
    match node_location(address, blob, path) {
        Err(error) => (blob, Err(error)),
        Ok(node) => change_reported(property_set(blob, node.begin, node.end, name, value)),
    }
}

/// The blob after the nodes of a path were created, and how it went.
pub open spec fn path_created(address: u64, blob: Seq<u8>, path: Seq<u8>) -> (
    Seq<u8>,
    Result<(), DtbError>,
) {
    if path_parts(path)[0].len() != 0 {
        (blob, Err(DtbError::InvalidPath))
    } else {
        match (view_fault(address, blob), node_at(structure_of(blob), 0)) {
            (Some(fault), _) => (blob, Err(DtbError::Fdt(fault))),
            (None, None) => (blob, Err(DtbError::BadStructure)),
            (None, Some(root)) => change_reported(
                nodes_created(blob, root.begin, root.end, path_parts(path).drop_first()),
            ),
        }
    }
}

/// The error that a failed clone is reported as.
pub open spec fn clone_reported(fault: CloneFault) -> DtbError {
    match fault {
        CloneFault::InvalidCloneSize => DtbError::InvalidCloneSize,
        CloneFault::SizeOverflow => DtbError::SizeOverflow,
        CloneFault::Memory(error) => DtbError::Memory(error),
    }
}

/// Boot-oriented device-tree object passed to boot methods.
pub struct Dtb {
    /// Address of the start of the device-tree blob.
    address: u64,
    /// Bytes of the device-tree blob.
    blob: Vec<u8>,
}

impl Dtb {
    /// Address at which the blob starts.
    pub closed spec fn address(&self) -> u64 {
        self.address
    }

    /// Bytes of the blob.
    pub closed spec fn blob(&self) -> Seq<u8> {
        self.blob@
    }

    /// Whether the blob holds a header that tells its size.
    pub open spec fn well_formed(&self) -> bool {
        40 <= self.blob().len() == be32(self.blob(), 4)
    }

    /// Creates one DTB object from the device tree at `address`. `memory` is what
    /// can be read from that address on.
    pub fn from_ptr(address: usize, memory: &[u8]) -> (tree: Result<Self, DtbError>)
        ensures
            match tree {
                Ok(dtb) => fdt_fault(address, memory@) is None && dtb.well_formed() && whole_tree(
                    dtb.blob(),
                )
                    && dtb.address() == address && dtb.blob() == memory@.take(
                    be32(memory@, 4) as int,
                ),
                Err(error) => fdt_fault(address, memory@) matches Some(fault) && error
                    == DtbError::Fdt(fault),
            },
    {
        let total_size: usize = match Fdt::from_ptr(address, memory) {
            Ok(fdt) => fdt.total_size_bytes(),
            Err(error) => return Err(DtbError::Fdt(error)),
        };
        let blob = copy_range(memory, 0, total_size);
        proof {
            assert(blob@ =~= memory@.take(total_size as int));
            assert forall|word: int| 0 <= word <= 36 implies #[trigger] be32(blob@, word) == be32(
                memory@,
                word,
            ) by {
                be32_depends_on_four_bytes(blob@, word, memory@, word);
            }
        }
        Ok(Dtb { address: address as u64, blob })
    }

    /// Clones this DTB into newly allocated memory with a larger total size.
    pub fn clone(&self, new_size: usize, allocator: &mut PageAllocator<'_>) -> (copy: Result<
        Self,
        DtbError,
    >)
        requires
            self.well_formed(),
            old(allocator).well_formed(),
        ensures
            final(allocator).well_formed(),
            final(allocator).capacity() == old(allocator).capacity(),
            final(final(allocator).buffer())@ == final(old(allocator).buffer())@,
            match clone_granted(
                self.blob().len() as int,
                new_size as int,
                old(allocator).map(),
                old(allocator).capacity(),
            ) {
                Ok((start, size, after)) => copy matches Ok(dtb) && dtb.well_formed()
                    && dtb.address() == start && dtb.blob() == enlarged(self.blob(), size)
                    && final(allocator).map() == after,
                Err(fault) => copy == Err::<Dtb, DtbError>(clone_reported(fault))
                    && final(allocator).map() == old(allocator).map(),
            },
    {
        let total = self.blob.len();
        let (start, size) = match allocate_for_clone(total, new_size, allocator) {
            Ok(granted) => granted,
            Err(fault) => {
                return match fault {
                    CloneFault::InvalidCloneSize => Err(DtbError::InvalidCloneSize),
                    CloneFault::SizeOverflow => Err(DtbError::SizeOverflow),
                    CloneFault::Memory(error) => Err(DtbError::Memory(error)),
                };
            },
        };
        let blob = enlarge(self.blob.as_slice(), size);
        proof {
            enlarged_tree_tells_size(self.blob@, size as int);
        }
        Ok(Dtb { address: start, blob })
    }

    /// Returns the address of the start of the device-tree blob.
    pub fn pointer(&self) -> (address: u64)
        ensures
            address == self.address(),
    {
        self.address
    }

    /// Returns the size in bytes of the device-tree blob.
    pub fn size(&self) -> (size: usize)
        ensures
            size == self.blob().len(),
    {
        self.blob.len()
    }

    /// Returns the device-tree blob as a byte slice.
    pub fn bytes(&self) -> (bytes: &[u8])
        requires
            self.well_formed(),
        ensures
            bytes@ == self.blob(),
    {
        self.blob.as_slice()
    }

    /// Creates one node path in the structure block, adding missing components.
    pub fn create_node(&mut self, path: &str) -> (outcome: Result<(), DtbError>)
        requires
            old(self).well_formed(),
        ensures
            final(self).address() == old(self).address(),
            (final(self).blob(), outcome) == path_created(
                old(self).address(),
                old(self).blob(),
                path.spec_bytes(),
            ),
            final(self).well_formed(),
    {
        let parts = split_path(path.as_bytes());
        let ghost all = path_parts(path.spec_bytes());
        if parts[0].len() != 0 {
            return Err(DtbError::InvalidPath);
        }
        let root = {
            let fdt = match self.fdt_view() {
                Ok(fdt) => fdt,
                Err(fault) => return Err(DtbError::Fdt(fault)),
            };
            match fdt.root_node() {
                Some(root) => (root.begin_offset, root.end_offset),
                None => return Err(DtbError::BadStructure),
            }
        };
        proof {
            assert(all.skip(1) =~= all.drop_first());
            creation_keeps_length(
                self.blob@,
                root.0 as int,
                root.1 as int,
                all.drop_first(),
            );
        }
        match create_nodes(&mut self.blob, root.0, root.1, &parts, 1, Ghost(all)) {
            Ok(()) => Ok(()),
            Err(error) => Err(report(error)),
        }
    }

    /// Creates or replaces one property on an existing node.
    pub fn set_property_bytes(&mut self, node_path: &str, property_name: &str, value: &[u8]) -> (
    outcome: Result<(), DtbError>)
        requires
            old(self).well_formed(),
        ensures
            final(self).address() == old(self).address(),
            (final(self).blob(), outcome) == property_set_at(
                old(self).address(),
                old(self).blob(),
                node_path.spec_bytes(),
                property_name.spec_bytes(),
                value@,
            ),
            final(self).well_formed(),
    {
        let (begin, end) = match self.find_node_location(node_path) {
            Ok(place) => place,
            Err(error) => return Err(error),
        };
        proof {
            if let Some(root) = node_at(structure_of(self.blob@), 0) {
                if let Some(names) = path_names(node_path.spec_bytes()) {
                    found_node_is_there(structure_of(self.blob@), root, names);
                    closing_is_ahead(structure_of(self.blob@), begin as int, 0);
                }
            }
            set_keeps_length(
                self.blob@,
                begin as int,
                end as int,
                property_name.spec_bytes(),
                value@,
            );
        }
        match set_property(&mut self.blob, begin, end, property_name.as_bytes(), value) {
            Ok(()) => Ok(()),
            Err(error) => Err(report(error)),
        }
    }

    /// Creates or replaces one 32-bit property on an existing node.
    pub fn set_property_u32(&mut self, node_path: &str, property_name: &str, value: u32) -> (outcome:
        Result<(), DtbError>)
        requires
            old(self).well_formed(),
        ensures
            final(self).address() == old(self).address(),
            (final(self).blob(), outcome) == property_set_at(
                old(self).address(),
                old(self).blob(),
                node_path.spec_bytes(),
                property_name.spec_bytes(),
                be32_bytes(value),
            ),
            final(self).well_formed(),
    {
        let bytes = word_bytes(value);
        self.set_property_bytes(node_path, property_name, bytes.as_slice())
    }

    /// Creates or replaces one 64-bit property on an existing node.
    pub fn set_property_u64(&mut self, node_path: &str, property_name: &str, value: u64) -> (outcome:
        Result<(), DtbError>)
        requires
            old(self).well_formed(),
        ensures
            final(self).address() == old(self).address(),
            (final(self).blob(), outcome) == property_set_at(
                old(self).address(),
                old(self).blob(),
                node_path.spec_bytes(),
                property_name.spec_bytes(),
                be64_bytes(value),
            ),
            final(self).well_formed(),
    {
        let bytes = double_word_bytes(value);
        self.set_property_bytes(node_path, property_name, bytes.as_slice())
    }

    /// Creates or replaces one zero-terminated string property. With its
    /// terminator the string takes at most 256 bytes.
    pub fn set_property_string(&mut self, node_path: &str, property_name: &str, value: &str) -> (
    outcome: Result<(), DtbError>)
        requires
            old(self).well_formed(),
        ensures
            final(self).address() == old(self).address(),
            (final(self).blob(), outcome) == if value.spec_bytes().len() + 1 > 256 {
                (old(self).blob(), Err(DtbError::BufferTooSmall))
            } else {
                property_set_at(
                    old(self).address(),
                    old(self).blob(),
                    node_path.spec_bytes(),
                    property_name.spec_bytes(),
                    value.spec_bytes().push(0u8),
                )
            },
            final(self).well_formed(),
    {
        let text = value.as_bytes();
        if text.len() > 255 {
            return Err(DtbError::BufferTooSmall);
        }
        let mut bytes = copy_range(text, 0, text.len());
        bytes.push(0);
        assert(bytes@ =~= value.spec_bytes().push(0u8));
        self.set_property_bytes(node_path, property_name, bytes.as_slice())
    }

    /// Creates a view of the blob as it is.
    fn fdt_view(&self) -> (fdt: Result<Fdt<'_>, FdtError>)
        ensures
            match fdt {
                Ok(view) => view_fault(self.address(), self.blob()) is None && view.structure()
                    == structure_of(self.blob()) && view.strings() == strings_of(self.blob()),
                Err(fault) => view_fault(self.address(), self.blob()) == Some(fault),
            },
    {
        if self.address == 0 {
            return Err(FdtError::NullPointer);
        }
        if self.address % 8 != 0 {
            return Err(FdtError::MisalignedPointer);
        }
        Fdt::from_bytes(self.address as usize, self.blob.as_slice())
    }

    /// Finds where the node at a path opens and closes.
    fn find_node_location(&self, path: &str) -> (place: Result<(usize, usize), DtbError>)
        requires
            self.well_formed(),
        ensures
            match place {
                Ok((begin, end)) => node_location(
                    self.address(),
                    self.blob(),
                    path.spec_bytes(),
                ) matches Ok(node) && node.begin == begin && node.end == end,
                Err(error) => node_location(self.address(), self.blob(), path.spec_bytes())
                    == Err::<NodeSpan, DtbError>(error),
            },
    {
        let bytes = path.as_bytes();
        if bytes.len() == 1 && bytes[0] == 0x2f {
            assert(bytes@ =~= seq![0x2fu8]);
            let fdt = match self.fdt_view() {
                Ok(fdt) => fdt,
                Err(fault) => return Err(DtbError::Fdt(fault)),
            };
            return match fdt.root_node() {
                Some(root) => Ok((root.begin_offset, root.end_offset)),
                None => Err(DtbError::BadStructure),
            };
        }
        assert(bytes@ != seq![0x2fu8]);
        let parts = split_path(bytes);
        let ghost all = path_parts(bytes@);
        if parts[0].len() != 0 {
            return Err(DtbError::InvalidPath);
        }
        let mut index: usize = 1;
        while index < parts.len()
            invariant
                1 <= index <= parts@.len(),
                parts_are(parts@, all),
                all == path_parts(path.spec_bytes()),
                path.spec_bytes() != seq![0x2fu8],
                forall|i: int| 1 <= i < index ==> (#[trigger] all[i]).len() != 0,
            decreases parts@.len() - index,
        {
            if parts[index].len() == 0 {
                assert(all[index as int].len() == 0);
                return Err(DtbError::InvalidPath);
            }
            index += 1;
        }
        let fdt = match self.fdt_view() {
            Ok(fdt) => fdt,
            Err(fault) => return Err(DtbError::Fdt(fault)),
        };
        match fdt.find_node(path) {
            Some(node) => Ok((node.begin_offset, node.end_offset)),
            None => Err(DtbError::NodeNotFound),
        }
    }
}

/// Returns the big-endian bytes of a 32-bit number.
pub(crate) fn word_bytes(value: u32) -> (bytes: Vec<u8>)
    ensures
        bytes@ == be32_bytes(value),
{
    let mut bytes: Vec<u8> = Vec::new();
    bytes.push((value / 0x100_0000) as u8);
    bytes.push((value / 0x1_0000 % 0x100) as u8);
    bytes.push((value / 0x100 % 0x100) as u8);
    bytes.push((value % 0x100) as u8);
    assert(bytes@ =~= be32_bytes(value));
    bytes
}

/// Returns the big-endian bytes of a 64-bit number.
pub(crate) fn double_word_bytes(value: u64) -> (bytes: Vec<u8>)
    ensures
        bytes@ == be64_bytes(value),
{
    let high: u32 = (value / 0x1_0000_0000) as u32;
    let low: u32 = (value % 0x1_0000_0000) as u32;
    let mut bytes = word_bytes(high);
    let mut tail = word_bytes(low);
    bytes.append(&mut tail);
    assert(bytes@ =~= be64_bytes(value));
    bytes
}

/// A property that was set at a path is read back from the node at that path. The other
/// properties of the node, all other nodes and what comes before the structure block
/// are as they were.
pub proof fn property_reads_back(
    address: u64,
    blob: Seq<u8>,
    path: Seq<u8>,
    name: Seq<u8>,
    value: Seq<u8>,
)
    requires
        whole_tree(blob),
        blocks_apart(blob),
        plain_name(name),
        property_set_at(address, blob, path, name, value).1 is Ok,
    ensures
        ({
            let after = property_set_at(address, blob, path, name, value).0;
            &&& whole_tree(after)
            &&& blocks_apart(after)
            &&& front_kept(blob, after)
            &&& node_at_path(structure_of(blob), path) matches Some(before) && node_at_path(
                structure_of(after),
                path,
            ) matches Some(node) && property_of(
                structure_of(after),
                strings_of(after),
                node,
                name,
            ) == Some(value) && child_names(structure_of(after), node) == child_names(
                structure_of(blob),
                before,
            ) && forall|other: Seq<u8>|
                #![trigger property_of(structure_of(after), strings_of(after), node, other)]
                other != name ==> property_kept(blob, before, after, node, other)
            &&& forall|place: Seq<u8>|
                #![trigger node_at_path(structure_of(after), place)]
                path_names(place) != path_names(path) ==> (node_at_path(
                    structure_of(blob),
                    place,
                ) matches Some(there) ==> (node_at_path(structure_of(after), place) matches Some(
                    kept,
                ) && node_kept(blob, there, after, kept)))
        }),
{
    let node = node_location(address, blob, path)->Ok_0;
    let names = path_names(path)->0;
    let root = node_at(structure_of(blob), 0)->0;
    assert(node_at_path(structure_of(blob), path) == Some(node));
    set_property_reads_back(blob, root, names, node, name, value);
    let after = property_set_at(address, blob, path, name, value).0;
    let top = node_at(structure_of(after), 0)->0;
    assert forall|place: Seq<u8>|
        #![trigger node_at_path(structure_of(after), place)]
        path_names(place) != path_names(path) && node_at_path(structure_of(blob), place)
            is Some implies (node_at_path(structure_of(after), place) matches Some(kept)
        && node_kept(blob, node_at_path(structure_of(blob), place)->0, after, kept)) by {
        let way = path_names(place)->0;
        assert(descendant(structure_of(blob), root, way) is Some);
        assert(descendant(structure_of(after), top, way) is Some);
    }
}

/// A 32-bit number that was set is read back as that number.
pub proof fn u32_reads_back(address: u64, blob: Seq<u8>, path: Seq<u8>, name: Seq<u8>, value: u32)
    requires
        whole_tree(blob),
        blocks_apart(blob),
        plain_name(name),
        property_set_at(address, blob, path, name, be32_bytes(value)).1 is Ok,
    ensures
        ({
            let after = property_set_at(address, blob, path, name, be32_bytes(value)).0;
            node_at_path(structure_of(after), path) matches Some(node) && property_number(
                structure_of(after),
                strings_of(after),
                node,
                name,
            ) == Some(value)
        }),
{
    property_reads_back(address, blob, path, name, be32_bytes(value));
    be32_round_trip(value);
}

/// A 64-bit number that was set is read back as that number.
pub proof fn u64_reads_back(address: u64, blob: Seq<u8>, path: Seq<u8>, name: Seq<u8>, value: u64)
    requires
        whole_tree(blob),
        blocks_apart(blob),
        plain_name(name),
        property_set_at(address, blob, path, name, be64_bytes(value)).1 is Ok,
    ensures
        ({
            let after = property_set_at(address, blob, path, name, be64_bytes(value)).0;
            node_at_path(structure_of(after), path) matches Some(node) && (property_of(
                structure_of(after),
                strings_of(after),
                node,
                name,
            ) matches Some(bytes) && bytes.len() == 8 && be64(bytes, 0) == value)
        }),
{
    property_reads_back(address, blob, path, name, be64_bytes(value));
    be64_round_trip(value);
}

/// A path that was created in a whole device tree leads to a node, and so does each
/// beginning of it. New nodes are empty, but for the next one on the path, and all else
/// in the tree reads as before. Creating the path once more changes nothing.
pub proof fn created_path_is_found(address: u64, blob: Seq<u8>, path: Seq<u8>)
    requires
        whole_tree(blob),
        blocks_apart(blob),
        forall|i: int| 1 <= i < path_parts(path).len() ==> plain_name(#[trigger] path_parts(path)[i]),
        path_created(address, blob, path).1 is Ok,
    ensures
        whole_tree(path_created(address, blob, path).0),
        blocks_apart(path_created(address, blob, path).0),
        node_at_path(structure_of(path_created(address, blob, path).0), path) is Some,
        way_added(blob, path_created(address, blob, path).0, path_parts(path).drop_first()),
        path_created(address, path_created(address, blob, path).0, path) == (
            path_created(address, blob, path).0,
            Ok::<(), DtbError>(()),
        ),
{
    parts_are_some(path, 0, 0);
    let names = path_parts(path).drop_first();
    let root = node_at(structure_of(blob), 0)->0;
    if path == seq![0x2fu8] {
        reveal_with_fuel(parts_from, 3);
        assert(names =~= seq![Seq::<u8>::empty()]);
        assert(false);
    }
    assert forall|i: int| 0 <= i < names.len() implies plain_name(#[trigger] names[i]) by {
        assert(names[i] == path_parts(path)[i + 1]);
    }
    created_way_is_added(blob, root, names);
}

} // verus!
