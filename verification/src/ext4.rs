//! Read-only ext4 filesystems.

use vstd::prelude::*;
use vstd::string::*;
use vstd::utf8::*;
use crate::bytes::{bytes_equal, le16, read_le_u16, read_le_u32, utf8_text, window};
use crate::bytes::{overwrite_within, overwrites_join, overwritten, windows_join};
use crate::ext4_format::{
    after_component, begins_listing, block_bytes, block_listed, block_listing_appends,
    completing_appends, component_fits, component_length, directory_listing, directory_visited,
    entries_visited, ext4_file_at, extent_laid, extents_laid, first_component, group_descriptor,
    index_extents, inode_contents, inode_extents, inode_of, inode_position, inode_table,
    joined_path, leading_slashes, leaf_extents, listing_completed, node_extents, number_from,
    number_in_directory, number_survives, path_inode, path_visited, record_sound, requested_inode,
    rest_inode, superblock_layout, symlink_path, symlink_target, trimmed, trimming_shortens,
    visit_begins, visit_stops_at_error, volume_bytes, zero_padded, Ext4Extent, Ext4Layout,
    Ext4Listing, Ext4Named, Ext4Walked, InodeRecord,
};
pub use crate::ext4_format::Ext4Error;
use crate::filesystem::{
    beginning_is_partly_listed, deeper_is_partly_listed, in_pages, loads_as, partly_listed,
    FileHandle, FileInfo, FileInfoView, FileState, FileSystem, FileType, LoadedFile, MountedVolume,
};
use crate::memory::{
    allocation, pages_needed, size_allocation, MemoryError, PageAllocator, EFI_ALLOCATE_TYPE,
    EFI_MEMORY_TYPE,
};
use crate::memory_map::EFI_MEMORY_DESCRIPTOR;
use crate::path::copy_range;
use crate::virtio::{read_sector, BlockDevice, VirtioError};

verus! {

impl vstd::std_specs::convert::FromSpecImpl<VirtioError> for Ext4Error {
    open spec fn obeys_from_spec() -> bool {
        true
    }

    open spec fn from_spec(error: VirtioError) -> Ext4Error {
        Ext4Error::Device(error)
    }
}

impl From<VirtioError> for Ext4Error {
    /// Converts one block-device error into the matching ext4-layer error.
    fn from(error: VirtioError) -> Ext4Error {
        Ext4Error::Device(error)
    }
}

impl vstd::std_specs::convert::FromSpecImpl<MemoryError> for Ext4Error {
    open spec fn obeys_from_spec() -> bool {
        true
    }

    open spec fn from_spec(error: MemoryError) -> Ext4Error {
        Ext4Error::Memory(error)
    }
}

impl From<MemoryError> for Ext4Error {
    /// Converts one page-allocation error into the matching ext4-layer error.
    fn from(error: MemoryError) -> Ext4Error {
        Ext4Error::Memory(error)
    }
}

/// Parsed inode metadata needed by this implementation.
#[derive(Clone, Copy)]
pub struct Ext4Inode {
    /// Inode number used to re-read this inode later.
    pub inode_number: u32,
    /// Raw mode bits that encode file type and permissions.
    pub mode: u16,
    /// Logical file size in bytes.
    pub size_bytes: u64,
    /// Raw inode flags field.
    pub flags: u32,
    /// Inline `i_block` payload used for extents or fast symlinks.
    pub block_data: [u8; 60],
}

impl View for Ext4Inode {
    type V = InodeRecord;

    open spec fn view(&self) -> InodeRecord {
        InodeRecord {
            inode_number: self.inode_number,
            mode: self.mode,
            size_bytes: self.size_bytes,
            flags: self.flags,
            block_data: self.block_data@,
        }
    }
}

impl Ext4Inode {
    /// Returns `true` when the inode describes one directory.
    pub fn is_directory(&self) -> (answer: bool)
        ensures
            answer == self@.directory(),
    {
        (self.mode & 0xf000) == 0x4000
    }

    /// Returns `true` when the inode describes one regular file.
    pub fn is_regular_file(&self) -> (answer: bool)
        ensures
            answer == self@.regular_file(),
    {
        (self.mode & 0xf000) == 0x8000
    }

    /// Returns `true` when the inode describes one symlink.
    pub fn is_symlink(&self) -> (answer: bool)
        ensures
            answer == self@.symlink(),
    {
        (self.mode & 0xf000) == 0xa000
    }

    /// Returns the external file type represented by this inode.
    pub fn file_type(&self) -> (kind: Result<FileType, Ext4Error>)
        ensures
            kind == if self@.directory() {
                Ok::<FileType, Ext4Error>(FileType::Directory)
            } else if self@.regular_file() {
                Ok::<FileType, Ext4Error>(FileType::File)
            } else {
                Err::<FileType, Ext4Error>(Ext4Error::UnsupportedFileType(self.mode))
            },
    {
        if self.is_directory() {
            Ok(FileType::Directory)
        } else if self.is_regular_file() {
            Ok(FileType::File)
        } else {
            Err(Ext4Error::UnsupportedFileType(self.mode))
        }
    }

    /// Returns `true` when the inode stores data via extents.
    pub fn uses_extents(&self) -> (answer: bool)
        ensures
            answer == self@.extent_mapped(),
    {
        (self.flags & 0x0008_0000) != 0
    }
}

/// Whether the physical block numbers of extents have 48 bits and their counts
/// fifteen.
pub open spec fn extents_fit(extents: Seq<Ext4Extent>) -> bool {
    forall|i: int|
        0 <= i < extents.len() ==> (#[trigger] extents[i]).physical_block <= 0xffff_ffff_ffff
            && extents[i].block_count < 0x8000
}

/// What a call that found no fault in its own input returns on a device fault:
/// the fault, which the device has recorded.
pub open spec fn reports_fault<D: BlockDevice>(before: D, after: D, error: Ext4Error) -> bool {
    error matches Ext4Error::Device(fault) && after.faults() == before.faults().push(fault)
}

/// Whether a device is unchanged but for faults that it has reported.
pub open spec fn same_medium<D: BlockDevice>(before: D, after: D) -> bool {
    after.medium() == before.medium() && after.sectors() == before.sectors()
}

/// Copies `take` bytes of `source` from `source_at` on to `target` from
/// `target_at` on.
fn copy_bytes(
    target: &mut [u8],
    target_at: usize,
    source: &[u8],
    source_at: usize,
    take: usize,
)
    requires
        target_at + take <= old(target)@.len(),
        source_at + take <= source@.len(),
    ensures
        final(target)@ == overwritten(
            old(target)@,
            target_at as int,
            source@.subrange(source_at as int, source_at + take),
        ),
{
    let ghost before = target@;
    let mut index: usize = 0;
    assert(target_at + take <= target.len());
    assert(source_at + take <= source.len());
    while index < take
        invariant
            index <= take,
            target_at + take <= before.len() <= usize::MAX,
            source_at + take <= source@.len() <= usize::MAX,
            target@ == before.take(target_at as int) + source@.subrange(
                source_at as int,
                source_at + index,
            ) + before.skip(target_at + index),
        decreases take - index,
    {
        target[target_at + index] = source[source_at + index];
        index += 1;
        assert(target@ =~= before.take(target_at as int) + source@.subrange(
            source_at as int,
            source_at + index,
        ) + before.skip(target_at + index));
    }
    assert(target@ =~= overwritten(
        before,
        target_at as int,
        source@.subrange(source_at as int, source_at + take),
    ));
}

/// Reads one unaligned byte range from `device` relative to `partition_start_lba`.
fn read_device_bytes<D: BlockDevice>(
    device: &mut D,
    partition_start_lba: u64,
    byte_offset: u64,
    buffer: &mut [u8],
) -> (outcome: Result<(), Ext4Error>)
    requires
        partition_start_lba + byte_offset / 512 <= u64::MAX,
    ensures
        same_medium(*old(device), *final(device)),
        final(buffer)@.len() == old(buffer)@.len(),
        match outcome {
            Ok(()) => final(device).faults() == old(device).faults() && final(buffer)@ == window(
                old(device).medium(),
                partition_start_lba * 512 + byte_offset,
                old(buffer)@.len() as int,
            ) && (old(buffer)@.len() > 0 ==> partition_start_lba * 512 + byte_offset
                + old(buffer)@.len() <= old(device).medium().len() <= u64::MAX),
            Err(error) => reports_fault(*old(device), *final(device), error),
        },
{
    let length = buffer.len();
    if length == 0 {
        assert(buffer@ =~= window(
            device.medium(),
            partition_start_lba * 512 + byte_offset,
            buffer@.len() as int,
        ));
        return Ok(());
    }
    if byte_offset % 512 == 0 && length % 512 == 0 {
        return match device.read_blocks(partition_start_lba + byte_offset / 512, buffer) {
            Ok(()) => {
                assert(buffer@ =~= window(
                    device.medium(),
                    partition_start_lba * 512 + byte_offset,
                    buffer@.len() as int,
                ));
                Ok(())
            },
            Err(error) => Err(Ext4Error::Device(error)),
        };
    }
    let ghost medium = device.medium();
    let ghost base = partition_start_lba * 512 + byte_offset;
    let mut copied: usize = 0;
    while copied < length
        invariant
            length == buffer@.len(),
            length == old(buffer)@.len(),
            copied <= length,
            device.medium() == medium,
            medium == old(device).medium(),
            device.sectors() == old(device).sectors(),
            device.faults() == old(device).faults(),
            base == partition_start_lba * 512 + byte_offset,
            partition_start_lba + byte_offset / 512 <= u64::MAX,
            copied > 0 ==> base + copied <= medium.len() <= u64::MAX,
            forall|i: int| 0 <= i < copied ==> buffer@[i] == medium[base + i],
        decreases length - copied,
    {
        let absolute_offset: u64 = byte_offset + copied as u64;
        let sector_index: u64 = absolute_offset / 512;
        let sector_offset = (absolute_offset % 512) as usize;
        let sector = match read_sector(device, partition_start_lba + sector_index) {
            Ok(bytes) => bytes,
            Err(error) => return Err(Ext4Error::Device(error)),
        };
        let take = if length - copied < 512 - sector_offset {
            length - copied
        } else {
            512 - sector_offset
        };
        let ghost before = buffer@;
        copy_bytes(buffer, copied, sector.as_slice(), sector_offset, take);
        assert forall|i: int| 0 <= i < copied + take implies buffer@[i] == medium[base + i] by {
            if i >= copied {
                assert(buffer@[i] == sector@[sector_offset + (i - copied)]);
            } else {
                assert(buffer@[i] == before[i]);
            }
        }
        copied += take;
    }
    assert(buffer@ =~= window(medium, base, length as int));
    Ok(())
}

/// Mounted read-only ext4 volume backed by a block device.
pub struct Ext4Volume<'a, D: BlockDevice> {
    /// Underlying sector-addressable block device.
    device: &'a mut D,
    /// Where the parts of the volume are.
    layout: Ext4Layout,
}

impl<'a, D: BlockDevice> Ext4Volume<'a, D> {
    /// The device under the volume.
    pub closed spec fn device(&self) -> &'a mut D {
        self.device
    }

    /// Where the parts of the volume are.
    pub closed spec fn layout(&self) -> Ext4Layout {
        self.layout
    }

    /// Whether the volume can be read from.
    pub open spec fn well_formed(&self) -> bool {
        self.layout().well_formed()
    }

    /// A volume that is not used any more leaves the device as it then is.
    pub proof fn device_released(volume: Self)
        requires
            has_resolved(volume),
        ensures
            *final(volume.device()) == *volume.device(),
    {
    }

    /// Mounts one ext4 filesystem from a partition start sector. A partition
    /// whose superblock would lie past the last sector number has none.
    pub fn new(device: &'a mut D, partition_start_lba: u64) -> (volume: Result<Self, Ext4Error>)
        ensures
            ({
                let described = superblock_layout(
                    window(old(device).medium(), partition_start_lba * 512 + 1024, 1024),
                    partition_start_lba,
                );
                match volume {
                    Ok(mounted) => mounted.well_formed() && described == Ok::<
                        Ext4Layout,
                        Ext4Error,
                    >(mounted.layout()) && same_medium(*old(device), *mounted.device())
                        && mounted.device().faults() == old(device).faults() && *final(
                        mounted.device()
                    ) == *final(device),
                    Err(Ext4Error::Device(fault)) => same_medium(*old(device), *final(device))
                        && final(device).faults() == old(device).faults().push(fault),
                    Err(error) => same_medium(*old(device), *final(device))
                        && final(device).faults() == old(device).faults()
                        && if partition_start_lba + 2 > u64::MAX {
                        error == Ext4Error::InvalidSuperblock
                    } else {
                        described == Err::<Ext4Layout, Ext4Error>(error)
                    },
                }
            }),
    {
        if partition_start_lba > u64::MAX - 2 {
            return Err(Ext4Error::InvalidSuperblock);
        }
        let mut superblock: [u8; 1024] = [0u8; 1024];
        match read_device_bytes(device, partition_start_lba, 1024, &mut superblock) {
            Ok(()) => {},
            Err(error) => return Err(error),
        }
        let layout = match decode_superblock(superblock.as_slice(), partition_start_lba) {
            Ok(layout) => layout,
            Err(error) => return Err(error),
        };
        Ok(Ext4Volume { device, layout })
    }

    /// Converts one filesystem block number into the underlying device LBA.
    fn block_to_lba(&self, block_number: u64) -> (lba: u64)
        requires
            self.well_formed(),
            block_number <= 0x2_0000_0000_0000,
        ensures
            lba * 512 == self.layout().partition_start_lba * 512 + block_number
                * self.layout().block_size,
    {
        let sectors_per_block: u64 = self.layout.block_size as u64 / 512;
        assert(sectors_per_block == 2 || sectors_per_block == 4 || sectors_per_block == 8);
        assert(block_number * sectors_per_block <= 0x10_0000_0000_0000) by (nonlinear_arith)
            requires
                block_number <= 0x2_0000_0000_0000,
                sectors_per_block <= 8,
        ;
        assert(block_number * sectors_per_block * 512 == block_number * self.layout.block_size)
            by (nonlinear_arith)
            requires
                sectors_per_block * 512 == self.layout.block_size,
        ;
        self.layout.partition_start_lba + block_number * sectors_per_block
    }

    /// Reads one filesystem block.
    fn read_block(&mut self, block_number: u64) -> (block: Result<Vec<u8>, Ext4Error>)
        requires
            old(self).well_formed(),
            block_number <= 0x2_0000_0000_0000,
        ensures
            final(self).layout() == old(self).layout(),
            same_medium(*old(self).device(), *final(self).device()),
            *final(final(self).device()) == *final(old(self).device()),
            match block {
                Ok(bytes) => final(self).device().faults() == old(self).device().faults() && bytes@
                    == block_bytes(
                    old(self).device().medium(),
                    old(self).layout(),
                    block_number as int,
                ),
                Err(error) => reports_fault(*old(self).device(), *final(self).device(), error),
            },
    {
        let ghost medium = self.device.medium();
        let lba: u64 = self.block_to_lba(block_number);
        let mut block: Vec<u8> = vec![0u8; self.layout.block_size as usize];
        match self.device.read_blocks(lba, block.as_mut_slice()) {
            Ok(()) => {
                assert(block@ =~= block_bytes(medium, self.layout, block_number as int));
                Ok(block)
            },
            Err(error) => Err(Ext4Error::Device(error)),
        }
    }

    /// Returns the block number of one block group's inode table.
    fn inode_table_block(&mut self, group: u32) -> (table: Result<u64, Ext4Error>)
        requires
            old(self).well_formed(),
        ensures
            final(self).layout() == old(self).layout(),
            same_medium(*old(self).device(), *final(self).device()),
            *final(final(self).device()) == *final(old(self).device()),
            match table {
                Ok(block) => final(self).device().faults() == old(self).device().faults() && block
                    == inode_table(old(self).device().medium(), old(self).layout(), group as int),
                Err(error) => reports_fault(*old(self).device(), *final(self).device(), error),
            },
    {
        let ghost medium = self.device.medium();
        let table_block: u64 = if self.layout.block_size == 1024 {
            2
        } else {
            1
        };
        let descriptor_size: u64 = self.layout.group_descriptor_size as u64;
        assert(group * descriptor_size <= 0xffff_ffff * 64) by (nonlinear_arith)
            requires
                group <= 0xffff_ffff,
                descriptor_size <= 64,
        ;
        let descriptor_offset: u64 = table_block * self.layout.block_size as u64 + group as u64
            * descriptor_size;
        let mut descriptor: [u8; 64] = [0u8; 64];
        let start: u64 = self.layout.partition_start_lba;
        let size = self.layout.group_descriptor_size as usize;
        let (part, _rest) = descriptor.split_at_mut(size);
        match read_device_bytes(self.device, start, descriptor_offset, part) {
            Ok(()) => {},
            Err(error) => return Err(error),
        }
        assert(descriptor@ =~= group_descriptor(medium, self.layout, group as int));
        let table_low: u64 = read_le_u32(descriptor.as_slice(), 8) as u64;
        let table_high: u64 = if size >= 44 {
            read_le_u32(descriptor.as_slice(), 0x28) as u64
        } else {
            0
        };
        Ok(table_high * 0x1_0000_0000 + table_low)
    }

    /// Reads one inode record by inode number.
    fn read_inode(&mut self, inode_number: u32) -> (inode: Result<Ext4Inode, Ext4Error>)
        requires
            old(self).well_formed(),
        ensures
            final(self).layout() == old(self).layout(),
            same_medium(*old(self).device(), *final(self).device()),
            *final(final(self).device()) == *final(old(self).device()),
            match inode {
                Ok(read) => final(self).device().faults() == old(self).device().faults()
                    && inode_of(old(self).device().medium(), old(self).layout(), inode_number)
                    == Ok::<InodeRecord, Ext4Error>(read@),
                Err(Ext4Error::Device(fault)) => final(self).device().faults() == old(
                    self,
                ).device().faults().push(fault),
                Err(error) => final(self).device().faults() == old(self).device().faults()
                    && inode_of(old(self).device().medium(), old(self).layout(), inode_number)
                    == Err::<InodeRecord, Ext4Error>(error),
            },
    {
        if inode_number == 0 {
            return Err(Ext4Error::InvalidInode(inode_number));
        }
        let ghost medium = self.device.medium();
        let group: u32 = (inode_number - 1) / self.layout.inodes_per_group;
        let index: u32 = (inode_number - 1) % self.layout.inodes_per_group;
        let table_block: u64 = match self.inode_table_block(group) {
            Ok(block) => block,
            Err(error) => return Err(error),
        };
        let inode_size: u64 = self.layout.inode_size as u64;
        assert(index * inode_size <= 0xffff_ffff * 512) by (nonlinear_arith)
            requires
                index <= 0xffff_ffff,
                inode_size <= 512,
        ;
        let ghost position = inode_position(medium, self.layout, inode_number);
        let within: u64 = index as u64 * inode_size;
        let inode_offset: u64 = match table_block.checked_mul(self.layout.block_size as u64) {
            Some(start) => match start.checked_add(within) {
                Some(offset) => offset,
                None => return Err(Ext4Error::InvalidInode(inode_number)),
            },
            None => return Err(Ext4Error::InvalidInode(inode_number)),
        };
        assert(inode_offset == position);
        let mut raw: [u8; 512] = [0u8; 512];
        let start: u64 = self.layout.partition_start_lba;
        let (part, _rest) = raw.split_at_mut(inode_size as usize);
        match read_device_bytes(self.device, start, inode_offset, part) {
            Ok(()) => {},
            Err(error) => return Err(error),
        }
        assert(raw@ =~= zero_padded(
            volume_bytes(medium, self.layout, position, inode_size as int),
            512,
        ));
        let bytes = raw.as_slice();
        let mode: u16 = read_le_u16(bytes, 0);
        let size_low: u64 = read_le_u32(bytes, 4) as u64;
        let flags: u32 = read_le_u32(bytes, 0x20);
        let size_high: u64 = read_le_u32(bytes, 0x6c) as u64;
        let mut block_data: [u8; 60] = [0u8; 60];
        copy_bytes(&mut block_data, 0, bytes, 0x28, 60);
        assert(block_data@ =~= raw@.subrange(40, 100));
        Ok(
            Ext4Inode {
                inode_number,
                mode,
                size_bytes: size_low + size_high * 0x1_0000_0000,
                flags,
                block_data,
            },
        )
    }

    /// Collects one extent node into `extents`, with at most `levels` levels of
    /// nodes below it.
    fn collect_extent_node(&mut self, node: &[u8], extents: &mut Vec<Ext4Extent>, levels: usize) -> (
    outcome: Result<(), Ext4Error>)
        requires
            old(self).well_formed(),
            node@.len() >= 12,
            extents_fit(old(extents)@),
        ensures
            final(self).layout() == old(self).layout(),
            same_medium(*old(self).device(), *final(self).device()),
            *final(final(self).device()) == *final(old(self).device()),
            ({
                let collected = node_extents(
                    old(self).device().medium(),
                    old(self).layout(),
                    node@,
                    old(extents)@,
                    levels as nat,
                );
                match outcome {
                    Ok(()) => final(self).device().faults() == old(self).device().faults()
                        && collected == Ok::<Seq<Ext4Extent>, Ext4Error>(final(extents)@)
                        && extents_fit(final(extents)@),
                    Err(Ext4Error::Device(fault)) => final(self).device().faults() == old(
                        self,
                    ).device().faults().push(fault),
                    Err(error) => final(self).device().faults() == old(self).device().faults()
                        && collected == Err::<Seq<Ext4Extent>, Ext4Error>(error),
                }
            }),
        decreases levels,
    {
        let ghost medium = self.device.medium();
        let ghost layout = self.layout;
        let ghost before = extents@;
        let magic: u16 = read_le_u16(node, 0);
        let entry_count: usize = read_le_u16(node, 2) as usize;
        let depth: u16 = read_le_u16(node, 6);
        if magic != 0xf30a || depth > 5 || 12 + entry_count * 12 > node.len() {
            return Err(Ext4Error::InvalidExtentTree);
        }
        let mut index: usize = 0;
        if depth == 0 {
            while index < entry_count
                invariant
                    index <= entry_count,
                    entry_count == le16(node@, 2),
                    12 + entry_count * 12 <= node@.len(),
                    self.device().medium() == medium,
                    self.layout == layout,
                    medium == old(self).device().medium(),
                    layout == old(self).layout(),
                    self.device().sectors() == old(self).device().sectors(),
                    self.device().faults() == old(self).device().faults(),
                    *final(self.device()) == *final(old(self).device()),
                    before == old(extents)@,
                    extents_fit(extents@),
                    node_extents(medium, layout, node@, before, levels as nat) == leaf_extents(
                        node@,
                        before,
                        0,
                    ),
                    leaf_extents(node@, before, 0) == leaf_extents(
                        node@,
                        extents@,
                        index as int,
                    ),
                decreases entry_count - index,
            {
                let offset: usize = 12 + index * 12;
                let logical_block: u32 = read_le_u32(node, offset);
                let raw_length: u16 = read_le_u16(node, offset + 4);
                let physical_high: u64 = read_le_u16(node, offset + 6) as u64;
                let physical_low: u64 = read_le_u32(node, offset + 8) as u64;
                if raw_length >= 0x8000 || extents.len() >= 128 {
                    return Err(Ext4Error::InvalidExtentTree);
                }
                extents.push(
                    Ext4Extent {
                        logical_block,
                        block_count: raw_length,
                        physical_block: physical_high * 0x1_0000_0000 + physical_low,
                    },
                );
                index += 1;
            }
            return Ok(());
        }
        while index < entry_count
            invariant
                index <= entry_count,
                entry_count == le16(node@, 2),
                12 + entry_count * 12 <= node@.len(),
                self.well_formed(),
                self.device().medium() == medium,
                self.layout == layout,
                medium == old(self).device().medium(),
                layout == old(self).layout(),
                self.device().sectors() == old(self).device().sectors(),
                self.device().faults() == old(self).device().faults(),
                *final(self.device()) == *final(old(self).device()),
                before == old(extents)@,
                extents_fit(extents@),
                node_extents(medium, layout, node@, before, levels as nat) == index_extents(
                    medium,
                    layout,
                    node@,
                    before,
                    0,
                    levels as nat,
                ),
                index_extents(medium, layout, node@, before, 0, levels as nat) == index_extents(
                    medium,
                    layout,
                    node@,
                    extents@,
                    index as int,
                    levels as nat,
                ),
            decreases entry_count - index,
        {
            if levels == 0 {
                return Err(Ext4Error::InvalidExtentTree);
            }
            let offset: usize = 12 + index * 12;
            let child_low: u64 = read_le_u32(node, offset + 4) as u64;
            let child_high: u64 = read_le_u16(node, offset + 8) as u64;
            let child = match self.read_block(child_high * 0x1_0000_0000 + child_low) {
                Ok(block) => block,
                Err(error) => return Err(error),
            };
            match self.collect_extent_node(child.as_slice(), extents, levels - 1) {
                Ok(()) => {},
                Err(error) => return Err(error),
            }
            index += 1;
        }
        Ok(())
    }

    /// Collects each extent stored by `inode`.
    fn collect_inode_extents(&mut self, inode: &Ext4Inode) -> (extents: Result<
        Vec<Ext4Extent>,
        Ext4Error,
    >)
        requires
            old(self).well_formed(),
        ensures
            final(self).layout() == old(self).layout(),
            same_medium(*old(self).device(), *final(self).device()),
            *final(final(self).device()) == *final(old(self).device()),
            ({
                let stored = inode_extents(
                    old(self).device().medium(),
                    old(self).layout(),
                    inode@,
                );
                match extents {
                    Ok(collected) => final(self).device().faults() == old(self).device().faults()
                        && stored == Ok::<Seq<Ext4Extent>, Ext4Error>(collected@) && extents_fit(
                        collected@,
                    ),
                    Err(Ext4Error::Device(fault)) => final(self).device().faults() == old(
                        self,
                    ).device().faults().push(fault),
                    Err(error) => final(self).device().faults() == old(self).device().faults()
                        && stored == Err::<Seq<Ext4Extent>, Ext4Error>(error),
                }
            }),
    {
        if !inode.uses_extents() {
            return Err(Ext4Error::UnsupportedMapping);
        }
        let mut extents: Vec<Ext4Extent> = Vec::new();
        assert(extents@ =~= Seq::empty());
        match self.collect_extent_node(inode.block_data.as_slice(), &mut extents, 5) {
            Ok(()) => Ok(extents),
            Err(error) => Err(error),
        }
    }

    /// Reads contiguous sectors into the `length` bytes of `buffer` that start at
    /// `from`.
    fn read_into(&mut self, lba: u64, buffer: &mut [u8], from: usize, length: usize) -> (outcome:
        Result<(), Ext4Error>)
        requires
            old(self).well_formed(),
            from + length <= old(buffer)@.len(),
        ensures
            final(self).layout() == old(self).layout(),
            same_medium(*old(self).device(), *final(self).device()),
            *final(final(self).device()) == *final(old(self).device()),
            final(buffer)@.len() == old(buffer)@.len(),
            match outcome {
                Ok(()) => final(self).device().faults() == old(self).device().faults()
                    && final(buffer)@ == overwritten(
                    old(buffer)@,
                    from as int,
                    window(old(self).device().medium(), lba * 512, length as int),
                ),
                Err(error) => reports_fault(*old(self).device(), *final(self).device(), error),
            },
    {
        let ghost medium = self.device.medium();
        let ghost before = buffer@;
        let (head, rest) = buffer.split_at_mut(from);
        let (part, tail) = rest.split_at_mut(length);
        match self.device.read_blocks(lba, part) {
            Ok(()) => {
                assert(part@ =~= window(medium, lba * 512, length as int));
                assert(head@ =~= before.take(from as int));
                assert(tail@ =~= before.skip(from + length));
                assert(head@ + (part@ + tail@) =~= head@ + part@ + tail@);
                Ok(())
            },
            Err(error) => Err(Ext4Error::Device(error)),
        }
    }

    /// Lays one extent over the first `size_bytes` bytes of `buffer`.
    #[verifier::spinoff_prover]
    #[verifier::rlimit(40)]
    fn lay_extent(&mut self, extent: Ext4Extent, buffer: &mut [u8], size_bytes: usize) -> (outcome:
        Result<(), Ext4Error>)
        requires
            old(self).well_formed(),
            extent.physical_block <= 0xffff_ffff_ffff,
            extent.block_count < 0x8000,
            extent.logical_block * old(self).layout().block_size < size_bytes,
            size_bytes <= old(buffer)@.len(),
        ensures
            final(self).layout() == old(self).layout(),
            same_medium(*old(self).device(), *final(self).device()),
            *final(final(self).device()) == *final(old(self).device()),
            final(buffer)@.len() == old(buffer)@.len(),
            match outcome {
                Ok(()) => final(self).device().faults() == old(self).device().faults()
                    && final(buffer)@.take(size_bytes as int) == extent_laid(
                    old(self).device().medium(),
                    old(self).layout(),
                    extent,
                    old(buffer)@.take(size_bytes as int),
                ) && final(buffer)@.skip(size_bytes as int) == old(buffer)@.skip(
                    size_bytes as int,
                ),
                Err(error) => reports_fault(*old(self).device(), *final(self).device(), error),
            },
    {
        let ghost medium = self.device.medium();
        let ghost layout = self.layout;
        let ghost before = buffer@;
        let block_size = self.layout.block_size as usize;
        assert(0 <= extent.logical_block * block_size) by (nonlinear_arith);
        let file_offset: usize = (extent.logical_block as u64 * self.layout.block_size as u64) as usize;
        assert(0 <= extent.block_count * block_size <= 0x8000 * 4096) by (nonlinear_arith)
            requires
                extent.block_count < 0x8000,
                block_size <= 4096,
        ;
        let capacity: u64 = extent.block_count as u64 * self.layout.block_size as u64;
        let extent_bytes: usize = if ((size_bytes - file_offset) as u64) < capacity {
            size_bytes - file_offset
        } else {
            capacity as usize
        };
        let full_blocks: usize = extent_bytes / block_size;
        let tail_bytes: usize = extent_bytes % block_size;
        assert(tail_bytes <= extent_bytes) by (nonlinear_arith)
            requires
                tail_bytes == extent_bytes % block_size,
                block_size >= 1024,
        ;
        let full_bytes: usize = extent_bytes - tail_bytes;
        let ghost base = layout.partition_start_lba * 512 + extent.physical_block
            * layout.block_size;
        assert(full_bytes == full_blocks * block_size && full_blocks <= 0x8000) by (nonlinear_arith)
            requires
                full_blocks == extent_bytes / block_size,
                tail_bytes == extent_bytes % block_size,
                full_bytes == extent_bytes - tail_bytes,
                block_size >= 1024,
                extent_bytes <= capacity,
                capacity == extent.block_count * block_size,
                extent.block_count < 0x8000,
        ;
        if full_blocks != 0 {
            let lba: u64 = self.block_to_lba(extent.physical_block);
            assert(lba * 512 == base);
            match self.read_into(lba, buffer, file_offset, full_bytes) {
                Ok(()) => {},
                Err(error) => return Err(error),
            }
            assert(buffer@ == overwritten(
                before,
                file_offset as int,
                window(medium, base, full_bytes as int),
            ));
        } else {
            assert(full_bytes == 0);
        }
        let ghost first = window(medium, base, full_bytes as int);
        let ghost second = window(medium, base + full_bytes, tail_bytes as int);
        assert(full_bytes == 0 ==> overwritten(before, file_offset as int, first) =~= before);
        assert(buffer@ == overwritten(before, file_offset as int, first));
        proof {
            overwrite_within(before, file_offset as int, first, size_bytes as int);
        }
        if tail_bytes != 0 {
            let block = match self.read_block(extent.physical_block + full_blocks as u64) {
                Ok(block) => block,
                Err(error) => return Err(error),
            };
            assert((extent.physical_block + full_blocks) * block_size == extent.physical_block
                * block_size + full_blocks * block_size) by (nonlinear_arith);
            copy_bytes(buffer, file_offset + full_bytes, block.as_slice(), 0, tail_bytes);
            assert(block@.subrange(0, tail_bytes as int) =~= second);
            proof {
                overwrites_join(before, file_offset as int, first, second);
            }
        } else {
            assert(first + second =~= first);
        }
        proof {
            windows_join(medium, base, full_bytes as int, tail_bytes as int);
            overwrite_within(before, file_offset as int, first + second, size_bytes as int);
        }
        Ok(())
    }

    /// Reads one inode that is no directory into `buffer` and returns the number
    /// of bytes.
    fn read_inode_contents(&mut self, inode: &Ext4Inode, buffer: &mut [u8]) -> (size: Result<
        usize,
        Ext4Error,
    >)
        requires
            old(self).well_formed(),
        ensures
            final(self).layout() == old(self).layout(),
            same_medium(*old(self).device(), *final(self).device()),
            *final(final(self).device()) == *final(old(self).device()),
            final(buffer)@.len() == old(buffer)@.len(),
            ({
                let data = inode_contents(
                    old(self).device().medium(),
                    old(self).layout(),
                    inode@,
                );
                match size {
                    Ok(written) => final(self).device().faults() == old(self).device().faults()
                        && written == inode.size_bytes && written <= old(buffer)@.len() && data
                        == Ok::<Seq<u8>, Ext4Error>(final(buffer)@.take(written as int))
                        && final(buffer)@.skip(written as int) == old(buffer)@.skip(written as int),
                    Err(Ext4Error::Device(fault)) => final(self).device().faults() == old(
                        self,
                    ).device().faults().push(fault),
                    Err(error) => final(self).device().faults() == old(self).device().faults()
                        && (inode@.directory() || old(buffer)@.len() < inode.size_bytes
                        ==> final(buffer)@ == old(buffer)@) && if !inode@.directory() && old(buffer)@.len()
                        < inode.size_bytes {
                        error == Ext4Error::BufferTooSmall
                    } else {
                        data == Err::<Seq<u8>, Ext4Error>(error)
                    },
                }
            }),
    {
        if inode.is_directory() {
            return Err(Ext4Error::IsDirectory);
        }
        if (buffer.len() as u64) < inode.size_bytes {
            return Err(Ext4Error::BufferTooSmall);
        }
        let size_bytes = inode.size_bytes as usize;
        let ghost medium = self.device.medium();
        let ghost layout = self.layout;
        let ghost original = buffer@;
        if size_bytes == 0 {
            assert(buffer@.take(0) =~= Seq::empty());
            return Ok(0);
        }
        let ghost zeros = Seq::new(size_bytes as nat, |i: int| 0u8);
        let mut cleared: usize = 0;
        while cleared < size_bytes
            invariant
                cleared <= size_bytes <= buffer@.len(),
                buffer@.len() == original.len(),
                forall|i: int| 0 <= i < cleared ==> buffer@[i] == 0,
                forall|i: int| cleared <= i < buffer@.len() ==> buffer@[i] == original[i],
            decreases size_bytes - cleared,
        {
            buffer[cleared] = 0;
            cleared += 1;
        }
        assert(buffer@.take(size_bytes as int) =~= zeros);
        assert(buffer@.skip(size_bytes as int) =~= original.skip(size_bytes as int));
        let extents = match self.collect_inode_extents(inode) {
            Ok(extents) => extents,
            Err(error) => return Err(error),
        };
        let ghost whole = extents_laid(medium, layout, extents@, zeros, 0);
        let block_size: u64 = self.layout.block_size as u64;
        let mut extent_index: usize = 0;
        while extent_index < extents.len()
            invariant
                self.well_formed(),
                self.layout == layout,
                layout == old(self).layout(),
                medium == old(self).device().medium(),
                self.device().medium() == medium,
                self.device().sectors() == old(self).device().sectors(),
                self.device().faults() == old(self).device().faults(),
                *final(self.device()) == *final(old(self).device()),
                block_size == layout.block_size,
                size_bytes == inode.size_bytes,
                size_bytes <= original.len(),
                original == old(buffer)@,
                buffer@.len() == original.len(),
                extent_index <= extents@.len(),
                whole == extents_laid(medium, layout, extents@, zeros, 0),
                inode_contents(medium, layout, inode@) == Ok::<Seq<u8>, Ext4Error>(whole),
                buffer@.skip(size_bytes as int) == original.skip(size_bytes as int),
                whole == extents_laid(
                    medium,
                    layout,
                    extents@,
                    buffer@.take(size_bytes as int),
                    extent_index as int,
                ),
                extents_fit(extents@),
            ensures
                whole == buffer@.take(size_bytes as int),
            decreases extents@.len() - extent_index,
        {
            let extent = extents[extent_index];
            assert(extent.logical_block * block_size <= 0xffff_ffff * 4096) by (nonlinear_arith)
                requires
                    extent.logical_block <= 0xffff_ffff,
                    block_size <= 4096,
            ;
            let file_offset: u64 = extent.logical_block as u64 * block_size;
            if file_offset >= size_bytes as u64 {
                break;
            }
            match self.lay_extent(extent, buffer, size_bytes) {
                Ok(()) => {},
                Err(error) => return Err(error),
            }
            extent_index += 1;
            assert(extents_laid(
                medium,
                layout,
                extents@,
                buffer@.take(size_bytes as int),
                extents@.len() as int,
            ) == buffer@.take(size_bytes as int));
        }
        Ok(size_bytes)
    }

    /// Reads one symlink target.
    fn read_symlink_target(&mut self, inode: &Ext4Inode) -> (target: Result<Vec<u8>, Ext4Error>)
        requires
            old(self).well_formed(),
        ensures
            final(self).layout() == old(self).layout(),
            same_medium(*old(self).device(), *final(self).device()),
            *final(final(self).device()) == *final(old(self).device()),
            ({
                let stored = symlink_target(
                    old(self).device().medium(),
                    old(self).layout(),
                    inode@,
                );
                match target {
                    Err(Ext4Error::Device(fault)) => final(self).device().faults() == old(
                        self,
                    ).device().faults().push(fault),
                    Ok(text) => final(self).device().faults() == old(self).device().faults()
                        && stored == Ok::<Seq<u8>, Ext4Error>(text@),
                    Err(error) => final(self).device().faults() == old(self).device().faults()
                        && stored == Err::<Seq<u8>, Ext4Error>(error),
                }
            }),
            target matches Ok(text) ==> text@.len() <= 1024,
    {
        if inode.size_bytes > 1024 {
            return Err(Ext4Error::NameTooLong);
        }
        let size = inode.size_bytes as usize;
        if !inode.uses_extents() && size <= 60 {
            assert(inode.block_data@.subrange(0, size as int) =~= inode.block_data@.take(
                size as int,
            ));
            return Ok(copy_range(inode.block_data.as_slice(), 0, size));
        }
        let mut buffer: Vec<u8> = vec![0u8; size];
        match self.read_inode_contents(inode, buffer.as_mut_slice()) {
            Ok(_) => {
                assert(buffer@.take(size as int) =~= buffer@);
                Ok(buffer)
            },
            Err(error) => Err(error),
        }
    }

    /// Reads one symlink target and appends any unresolved tail path, which does
    /// not start with a separator.
    fn read_symlink_path(&mut self, inode: &Ext4Inode, tail: &[u8]) -> (path: Result<
        Vec<u8>,
        Ext4Error,
    >)
        requires
            old(self).well_formed(),
        ensures
            final(self).layout() == old(self).layout(),
            same_medium(*old(self).device(), *final(self).device()),
            *final(final(self).device()) == *final(old(self).device()),
            ({
                let expanded = symlink_path(
                    old(self).device().medium(),
                    old(self).layout(),
                    inode@,
                    tail@,
                );
                match path {
                    Err(Ext4Error::Device(fault)) => final(self).device().faults() == old(
                        self,
                    ).device().faults().push(fault),
                    Ok(text) => final(self).device().faults() == old(self).device().faults()
                        && expanded == Ok::<Seq<u8>, Ext4Error>(text@),
                    Err(error) => final(self).device().faults() == old(self).device().faults()
                        && expanded == Err::<Seq<u8>, Ext4Error>(error),
                }
            }),
    {
        let mut path = match self.read_symlink_target(inode) {
            Ok(target) => target,
            Err(error) => return Err(error),
        };
        let ghost target = path@;
        if tail.len() == 0 {
            return Ok(path);
        }
        if path.len() != 0 && path[path.len() - 1] != 0x2f {
            path.push(0x2f);
        }
        if path.len() > 1024 || tail.len() > 1024 - path.len() {
            return Err(Ext4Error::NameTooLong);
        }
        let ghost separated = path@;
        let mut index: usize = 0;
        while index < tail.len()
            invariant
                index <= tail@.len(),
                path@ == separated + tail@.take(index as int),
            decreases tail@.len() - index,
        {
            path.push(tail[index]);
            index += 1;
            assert(path@ =~= separated + tail@.take(index as int));
        }
        assert(path@ =~= separated + tail@);
        Ok(path)
    }

    /// Reads on in a directory by one block or to the next extent. Returns
    /// whether there may be more.
    fn read_more(
        &mut self,
        extents: &Vec<Ext4Extent>,
        index: &mut usize,
        offset: &mut u16,
        found: &mut Vec<NamedInode>,
    ) -> (more: Result<bool, Ext4Error>)
        requires
            old(self).well_formed(),
            extents_fit(extents@),
            *old(index) < extents@.len() ==> *old(offset) <= extents@[*old(index) as int].block_count,
        ensures
            final(self).layout() == old(self).layout(),
            same_medium(*old(self).device(), *final(self).device()),
            *final(final(self).device()) == *final(old(self).device()),
            ({
                let whole = listing_completed(
                    old(self).device().medium(),
                    old(self).layout(),
                    extents@,
                    (Ext4Listing { entries: entries_in(old(found)@), malformed: false }),
                    *old(index) as int,
                    *old(offset) as int,
                );
                match more {
                    Err(Ext4Error::Device(fault)) => final(self).device().faults() == old(
                        self,
                    ).device().faults().push(fault),
                    Err(error) => final(self).device().faults() == old(self).device().faults()
                        && error == Ext4Error::InvalidDirectoryEntry && whole.malformed
                        && whole.entries == entries_in(final(found)@),
                    Ok(false) => final(self).device().faults() == old(self).device().faults()
                        && !whole.malformed && whole.entries == entries_in(final(found)@),
                    Ok(true) => final(self).device().faults() == old(self).device().faults()
                        && whole == listing_completed(
                        old(self).device().medium(),
                        old(self).layout(),
                        extents@,
                        (Ext4Listing { entries: entries_in(final(found)@), malformed: false }),
                        *final(index) as int,
                        *final(offset) as int,
                    ) && begins_listing(entries_in(old(found)@), entries_in(final(found)@))
                        && *old(index) <= *final(index) <= extents@.len() && (*final(index)
                        < extents@.len() ==> *final(offset)
                        <= extents@[*final(index) as int].block_count) && (*final(index) > *old(
                        index,
                    ) || *final(index) == *old(index) && *final(offset) == *old(offset) + 1
                        && *old(index) < extents@.len()),
                }
            }),
    {
        let ghost medium = self.device.medium();
        let ghost layout = self.layout;
        let ghost before = Ext4Listing { entries: entries_in(found@), malformed: false };
        assert(before.entries.take(before.entries.len() as int) =~= before.entries);
        if *index >= extents.len() {
            return Ok(false);
        }
        let extent = extents[*index];
        if *offset >= extent.block_count {
            *index = *index + 1;
            *offset = 0;
            return Ok(true);
        }
        let block = match self.read_block(extent.physical_block + *offset as u64) {
            Ok(block) => block,
            Err(error) => return Err(error),
        };
        let ghost scanned = block_listed(before, block@, 0);
        proof {
            block_listing_appends(before, block@, 0);
            assert(listing_completed(
                medium,
                layout,
                extents@,
                before,
                *index as int,
                *offset as int,
            ) == listing_completed(
                medium,
                layout,
                extents@,
                scanned,
                *index as int,
                *offset + 1,
            ));
        }
        match list_block(block.as_slice(), found) {
            Ok(()) => {
                *offset = *offset + 1;
                assert(scanned == (Ext4Listing { entries: entries_in(found@), malformed: false }));
                Ok(true)
            },
            Err(error) => Err(error),
        }
    }

    /// Searches one directory inode for one path component.
    fn find_directory_entry(&mut self, directory_inode: &Ext4Inode, component: &[u8]) -> (number:
        Result<u32, Ext4Error>)
        requires
            old(self).well_formed(),
        ensures
            final(self).layout() == old(self).layout(),
            same_medium(*old(self).device(), *final(self).device()),
            *final(final(self).device()) == *final(old(self).device()),
            match number {
                Err(Ext4Error::Device(fault)) => final(self).device().faults() == old(
                    self,
                ).device().faults().push(fault),
                _ => final(self).device().faults() == old(self).device().faults() && number
                    == number_in_directory(
                    old(self).device().medium(),
                    old(self).layout(),
                    directory_inode@,
                    component@,
                ),
            },
    {
        let ghost medium = self.device.medium();
        let ghost layout = self.layout;
        let extents = match self.collect_inode_extents(directory_inode) {
            Ok(extents) => extents,
            Err(error) => return Err(error),
        };
        let mut found: Vec<NamedInode> = Vec::new();
        let mut index: usize = 0;
        let mut offset: u16 = 0;
        let mut checked: usize = 0;
        let ghost whole = listing_completed(
            medium,
            layout,
            extents@,
            Ext4Listing { entries: Seq::empty(), malformed: false },
            0,
            0,
        );
        assert(entries_in(found@) =~= Seq::empty());
        loop
            invariant
                self.well_formed(),
                self.layout == layout,
                layout == old(self).layout(),
                medium == old(self).device().medium(),
                self.device().medium() == medium,
                self.device().sectors() == old(self).device().sectors(),
                self.device().faults() == old(self).device().faults(),
                *final(self.device()) == *final(old(self).device()),
                extents_fit(extents@),
                directory_listing(medium, layout, directory_inode@) == Ok::<
                    Ext4Listing,
                    Ext4Error,
                >(whole),
                whole == listing_completed(
                    medium,
                    layout,
                    extents@,
                    (Ext4Listing { entries: entries_in(found@), malformed: false }),
                    index as int,
                    offset as int,
                ),
                index <= extents@.len(),
                index < extents@.len() ==> offset <= extents@[index as int].block_count,
                checked == found@.len(),
                number_from(entries_in(found@), component@, 0) is None,
            decreases
                    extents@.len() - index,
                    (if index < extents@.len() {
                        extents@[index as int].block_count - offset
                    } else {
                        0
                    }),
        {
            let ghost seen_before = entries_in(found@);
            proof {
                completing_appends(
                    medium,
                    layout,
                    extents@,
                    Ext4Listing { entries: entries_in(found@), malformed: false },
                    index as int,
                    offset as int,
                );
            }
            let more = self.read_more(&extents, &mut index, &mut offset, &mut found);
            if let Err(Ext4Error::Device(fault)) = more {
                return Err(Ext4Error::Device(fault));
            }
            let ghost seen = entries_in(found@);
            proof {
                completing_appends(
                    medium,
                    layout,
                    extents@,
                    Ext4Listing { entries: entries_in(found@), malformed: false },
                    index as int,
                    offset as int,
                );
                assert(whole.entries.take(whole.entries.len() as int) =~= whole.entries);
                assert(begins_listing(seen, whole.entries));
                assert(begins_listing(seen_before, seen));
                number_survives(seen_before, seen, component@, 0);
            }
            while checked < found.len()
                invariant
                    self.well_formed(),
                    self.layout == layout,
                    layout == old(self).layout(),
                    medium == old(self).device().medium(),
                    self.device().medium() == medium,
                    self.device().sectors() == old(self).device().sectors(),
                    self.device().faults() == old(self).device().faults(),
                    *final(self.device()) == *final(old(self).device()),
                    directory_listing(medium, layout, directory_inode@) == Ok::<
                        Ext4Listing,
                        Ext4Error,
                    >(whole),
                    seen == entries_in(found@),
                    begins_listing(seen, whole.entries),
                    checked <= found@.len(),
                    number_from(seen, component@, 0) == number_from(
                        seen,
                        component@,
                        checked as int,
                    ),
                decreases found@.len() - checked,
            {
                if bytes_equal(found[checked].name.as_slice(), component) {
                    proof {
                        number_survives(seen, whole.entries, component@, 0);
                    }
                    return Ok(found[checked].inode_number);
                }
                checked += 1;
            }
            match more {
                Ok(true) => {},
                Ok(false) => return Err(Ext4Error::NotFound),
                Err(error) => return Err(error),
            }
        }
    }

    /// Resolves one path relative to `start_inode_number`, after `symlink_depth`
    /// symlinks have been followed. Parent-directory components (`..`) are
    /// rejected.
    fn resolve_path_from(&mut self, start_inode_number: u32, path: &[u8], symlink_depth: usize) -> (
    inode: Result<Ext4Inode, Ext4Error>)
        requires
            old(self).well_formed(),
            symlink_depth <= 8,
        ensures
            final(self).layout() == old(self).layout(),
            same_medium(*old(self).device(), *final(self).device()),
            *final(final(self).device()) == *final(old(self).device()),
            ({
                let resolved = path_inode(
                    old(self).device().medium(),
                    old(self).layout(),
                    start_inode_number,
                    path@,
                    symlink_depth as nat,
                );
                match inode {
                    Err(Ext4Error::Device(fault)) => final(self).device().faults() == old(
                        self,
                    ).device().faults().push(fault),
                    Ok(found) => final(self).device().faults() == old(self).device().faults()
                        && resolved == Ok::<InodeRecord, Ext4Error>(found@),
                    Err(error) => final(self).device().faults() == old(self).device().faults()
                        && resolved == Err::<InodeRecord, Ext4Error>(error),
                }
            }),
        decreases 8 - symlink_depth,
    {
        let ghost medium = self.device.medium();
        let ghost layout = self.layout;
        let mut current: u32 = if path.len() > 0 && path[0] == 0x2f {
            2
        } else {
            start_inode_number
        };
        let mut remaining = trim_leading_separators(path);
        let ghost whole = path_inode(
            medium,
            layout,
            start_inode_number,
            path@,
            symlink_depth as nat,
        );
        proof {
            trimming_shortens(path@);
        }
        while remaining.len() != 0
            invariant
                self.well_formed(),
                self.layout == layout,
                layout == old(self).layout(),
                medium == old(self).device().medium(),
                self.device().medium() == medium,
                self.device().sectors() == old(self).device().sectors(),
                self.device().faults() == old(self).device().faults(),
                *final(self.device()) == *final(old(self).device()),
                symlink_depth <= 8,
                whole == path_inode(
                    medium,
                    layout,
                    start_inode_number,
                    path@,
                    symlink_depth as nat,
                ),
                whole == rest_inode(
                    medium,
                    layout,
                    current,
                    remaining@,
                    symlink_depth as nat,
                ),
                remaining@.len() > 0 ==> remaining@[0] != 0x2f,
            decreases remaining@.len(),
        {
            let current_inode = match self.read_inode(current) {
                Ok(inode) => inode,
                Err(error) => return Err(error),
            };
            if !current_inode.is_directory() {
                return Err(Ext4Error::NotDirectory);
            }
            let (component, rest) = split_path_component(remaining);
            if bytes_equal(component, ".".as_bytes()) {
                remaining = rest;
            } else if bytes_equal(component, "..".as_bytes()) {
                return Err(Ext4Error::InvalidPath);
            } else {
                let number: u32 = match self.find_directory_entry(&current_inode, component) {
                    Ok(number) => number,
                    Err(error) => return Err(error),
                };
                let child_inode = match self.read_inode(number) {
                    Ok(inode) => inode,
                    Err(error) => return Err(error),
                };
                if child_inode.is_symlink() {
                    if symlink_depth >= 8 {
                        return Err(Ext4Error::SymlinkLoop);
                    }
                    let expanded = match self.read_symlink_path(&child_inode, rest) {
                        Ok(expanded) => expanded,
                        Err(error) => return Err(error),
                    };
                    if utf8_text(expanded.as_slice()).is_none() {
                        return Err(Ext4Error::InvalidPath);
                    }
                    return self.resolve_path_from(
                        current,
                        expanded.as_slice(),
                        symlink_depth + 1,
                    );
                }
                current = number;
                remaining = rest;
            }
        }
        self.read_inode(current)
    }

    /// Resolves one absolute or relative path to its final inode.
    fn resolve_path(&mut self, path: &str) -> (inode: Result<Ext4Inode, Ext4Error>)
        requires
            old(self).well_formed(),
        ensures
            final(self).layout() == old(self).layout(),
            same_medium(*old(self).device(), *final(self).device()),
            *final(final(self).device()) == *final(old(self).device()),
            ({
                let resolved = requested_inode(
                    old(self).device().medium(),
                    old(self).layout(),
                    path.spec_bytes(),
                );
                match inode {
                    Err(Ext4Error::Device(fault)) => final(self).device().faults() == old(
                        self,
                    ).device().faults().push(fault),
                    Ok(found) => final(self).device().faults() == old(self).device().faults()
                        && resolved == Ok::<InodeRecord, Ext4Error>(found@),
                    Err(error) => final(self).device().faults() == old(self).device().faults()
                        && resolved == Err::<InodeRecord, Ext4Error>(error),
                }
            }),
    {
        let bytes = path.as_bytes();
        if bytes.len() == 0 {
            return Err(Ext4Error::InvalidPath);
        }
        self.resolve_path_from(2, bytes, 0)
    }

    /// Reads one file from the mounted volume into `buffer`. The buffer stays as it
    /// was when the path leads to no file, or to one that does not fit.
    pub fn read_file(&mut self, path: &str, buffer: &mut [u8]) -> (size: Result<usize, Ext4Error>)
        requires
            old(self).well_formed(),
        ensures
            final(self).well_formed(),
            final(self).layout() == old(self).layout(),
            same_medium(*old(self).device(), *final(self).device()),
            *final(final(self).device()) == *final(old(self).device()),
            final(buffer)@.len() == old(buffer)@.len(),
            ({
                let inode = requested_inode(
                    old(self).device().medium(),
                    old(self).layout(),
                    path.spec_bytes(),
                );
                let too_small = inode matches Ok(found) && !found.directory() && old(buffer)@.len()
                    < found.size_bytes;
                let data = ext4_file_at(
                    old(self).device().medium(),
                    old(self).layout(),
                    path.spec_bytes(),
                );
                match size {
                    Err(Ext4Error::Device(fault)) => final(self).device().faults() == old(
                        self,
                    ).device().faults().push(fault),
                    Ok(written) => final(self).device().faults() == old(self).device().faults()
                        && !too_small && written <= old(buffer)@.len() && data == Ok::<
                        Seq<u8>,
                        Ext4Error,
                    >(final(buffer)@.take(written as int)) && final(buffer)@.skip(written as int)
                        == old(buffer)@.skip(written as int),
                    Err(error) => final(self).device().faults() == old(self).device().faults()
                        && (inode is Err || inode->Ok_0.directory() || too_small
                        ==> final(buffer)@ == old(buffer)@) && if too_small {
                        error == Ext4Error::BufferTooSmall
                    } else {
                        data == Err::<Seq<u8>, Ext4Error>(error)
                    },
                }
            }),
    {
        let inode = match self.resolve_path(path) {
            Ok(inode) => inode,
            Err(error) => return Err(error),
        };
        self.read_inode_contents(&inode, buffer)
    }

    /// Lists all files contained below one directory path, in the order in which
    /// the directories hold them. The files met before an error stay in `files`.
    ///
    /// Symlinks are listed just like regular files. The size is the inode byte
    /// size, which for symlinks is the target-path length. Parent-directory path
    /// components (`..`) are not supported while resolving `path`.
    pub fn walk_files_in_directory(&mut self, path: &str, files: &mut Vec<ListedFile>) -> (outcome:
        Result<(), Ext4Error>)
        requires
            old(self).well_formed(),
        ensures
            final(self).well_formed(),
            final(self).layout() == old(self).layout(),
            same_medium(*old(self).device(), *final(self).device()),
            *final(final(self).device()) == *final(old(self).device()),
            ({
                let walk = path_visited(
                    old(self).device().medium(),
                    old(self).layout(),
                    path.spec_bytes(),
                );
                match outcome {
                    Err(Ext4Error::Device(fault)) => final(self).device().faults() == old(
                        self,
                    ).device().faults().push(fault) && partly_listed(
                        files_in(old(files)@),
                        files_in(final(files)@),
                        walk.files,
                    ),
                    _ => final(self).device().faults() == old(self).device().faults() && outcome
                        == walk.outcome && files_in(final(files)@) == files_in(old(files)@)
                        + walk.files,
                }
            }),
    {
        let ghost files_before = files_in(files@);
        assert(files_before + Seq::empty() =~= files_before);
        proof {
            let walk = path_visited(
                self.device.medium(),
                self.layout,
                path.spec_bytes(),
            );
            assert(walk.files.take(0) =~= Seq::empty());
            beginning_is_partly_listed(files_before, Seq::empty(), walk.files);
        }
        let inode = match self.resolve_path(path) {
            Ok(inode) => inode,
            Err(error) => return Err(error),
        };
        if !inode.is_directory() {
            return Err(Ext4Error::NotDirectory);
        }
        let trimmed_path = trim_leading_separators(path.as_bytes());
        let empty: Vec<u8> = Vec::new();
        if trimmed_path.len() == 0 {
            assert(empty@ =~= Seq::empty());
            return self.walk_directory(&inode, &empty, files);
        }
        if trimmed_path.len() > 1023 {
            return Err(Ext4Error::NameTooLong);
        }
        let top = append_path_component(&empty, trimmed_path);
        assert(top@ =~= seq![0x2fu8] + trimmed_path@);
        self.walk_directory(&inode, &top, files)
    }

    /// Recursively walks all files contained below one directory inode, which is
    /// at `path`.
    fn walk_directory(
        &mut self,
        directory_inode: &Ext4Inode,
        path: &Vec<u8>,
        files: &mut Vec<ListedFile>,
    ) -> (outcome: Result<(), Ext4Error>)
        requires
            old(self).well_formed(),
            path@.len() <= 1024,
        ensures
            final(self).layout() == old(self).layout(),
            same_medium(*old(self).device(), *final(self).device()),
            *final(final(self).device()) == *final(old(self).device()),
            ({
                let walk = directory_visited(
                    old(self).device().medium(),
                    old(self).layout(),
                    directory_inode@,
                    path@,
                );
                match outcome {
                    Err(Ext4Error::Device(fault)) => final(self).device().faults() == old(
                        self,
                    ).device().faults().push(fault) && partly_listed(
                        files_in(old(files)@),
                        files_in(final(files)@),
                        walk.files,
                    ),
                    _ => final(self).device().faults() == old(self).device().faults() && outcome
                        == walk.outcome && files_in(final(files)@) == files_in(old(files)@)
                        + walk.files,
                }
            }),
        decreases 1024 - path@.len(),
    {
        let ghost medium = self.device.medium();
        let ghost layout = self.layout;
        let ghost files_before = files_in(files@);
        assert(files_before + Seq::empty() =~= files_before);
        proof {
            let walk = directory_visited(medium, layout, directory_inode@, path@);
            assert(walk.files.take(0) =~= Seq::empty());
            beginning_is_partly_listed(files_before, Seq::empty(), walk.files);
        }
        let extents = match self.collect_inode_extents(directory_inode) {
            Ok(extents) => extents,
            Err(error) => return Err(error),
        };
        let mut found: Vec<NamedInode> = Vec::new();
        let mut index: usize = 0;
        let mut offset: u16 = 0;
        let mut visited: usize = 0;
        let ghost whole = listing_completed(
            medium,
            layout,
            extents@,
            Ext4Listing { entries: Seq::empty(), malformed: false },
            0,
            0,
        );
        assert(entries_in(found@) =~= Seq::empty());
        loop
            invariant
                self.well_formed(),
                self.layout == layout,
                layout == old(self).layout(),
                medium == old(self).device().medium(),
                self.device().medium() == medium,
                self.device().sectors() == old(self).device().sectors(),
                self.device().faults() == old(self).device().faults(),
                *final(self.device()) == *final(old(self).device()),
                path@.len() <= 1024,
                extents_fit(extents@),
                directory_listing(medium, layout, directory_inode@) == Ok::<
                    Ext4Listing,
                    Ext4Error,
                >(whole),
                whole == listing_completed(
                    medium,
                    layout,
                    extents@,
                    (Ext4Listing { entries: entries_in(found@), malformed: false }),
                    index as int,
                    offset as int,
                ),
                index <= extents@.len(),
                index < extents@.len() ==> offset <= extents@[index as int].block_count,
                files_before == files_in(old(files)@),
                visited == found@.len(),
                ({
                    let walk = entries_visited(medium, layout, entries_in(found@), path@);
                    walk.outcome == Ok::<(), Ext4Error>(()) && files_in(files@) == files_before
                        + walk.files
                }),
            decreases
                    extents@.len() - index,
                    (if index < extents@.len() {
                        extents@[index as int].block_count - offset
                    } else {
                        0
                    }),
        {
            let ghost seen_before = entries_in(found@);
            proof {
                completing_appends(
                    medium,
                    layout,
                    extents@,
                    Ext4Listing { entries: entries_in(found@), malformed: false },
                    index as int,
                    offset as int,
                );
            }
            let more = self.read_more(&extents, &mut index, &mut offset, &mut found);
            if let Err(Ext4Error::Device(fault)) = more {
                proof {
                    visit_begins(medium, layout, seen_before, whole.entries, path@);
                    beginning_is_partly_listed(
                        files_before,
                        entries_visited(medium, layout, seen_before, path@).files,
                        directory_visited(medium, layout, directory_inode@, path@).files,
                    );
                }
                return Err(Ext4Error::Device(fault));
            }
            let ghost seen = entries_in(found@);
            proof {
                completing_appends(
                    medium,
                    layout,
                    extents@,
                    Ext4Listing { entries: entries_in(found@), malformed: false },
                    index as int,
                    offset as int,
                );
                assert(whole.entries.take(whole.entries.len() as int) =~= whole.entries);
                assert(begins_listing(seen, whole.entries));
                assert(begins_listing(seen_before, seen));
                assert(seen.take(visited as int) == seen_before);
            }
            while visited < found.len()
                invariant
                    self.well_formed(),
                    self.layout == layout,
                    layout == old(self).layout(),
                    medium == old(self).device().medium(),
                    self.device().medium() == medium,
                    self.device().sectors() == old(self).device().sectors(),
                    self.device().faults() == old(self).device().faults(),
                    *final(self.device()) == *final(old(self).device()),
                    path@.len() <= 1024,
                    directory_listing(medium, layout, directory_inode@) == Ok::<
                        Ext4Listing,
                        Ext4Error,
                    >(whole),
                    seen == entries_in(found@),
                    begins_listing(seen, whole.entries),
                    files_before == files_in(old(files)@),
                    visited <= found@.len(),
                    ({
                        let walk = entries_visited(
                            medium,
                            layout,
                            seen.take(visited as int),
                            path@,
                        );
                        walk.outcome == Ok::<(), Ext4Error>(()) && files_in(files@) == files_before
                            + walk.files
                    }),
                decreases found@.len() - visited,
            {
                let ghost so_far = seen.take(visited as int);
                let ghost longer = seen.take(visited + 1);
                let ghost walk = entries_visited(medium, layout, so_far, path@);
                proof {
                    assert(longer.drop_last() =~= so_far);
                    assert(longer.last() == seen[visited as int]);
                    assert(whole.entries.take(longer.len() as int) =~= longer);
                    assert(begins_listing(longer, whole.entries));
                    if entries_visited(medium, layout, longer, path@).outcome is Err {
                        visit_stops_at_error(medium, layout, longer, whole.entries, path@);
                    }
                    visit_begins(medium, layout, longer, whole.entries, path@);
                    assert(whole.entries.take(so_far.len() as int) =~= so_far);
                    assert(begins_listing(so_far, whole.entries));
                    visit_begins(medium, layout, so_far, whole.entries, path@);
                    beginning_is_partly_listed(
                        files_before,
                        walk.files,
                        directory_visited(medium, layout, directory_inode@, path@).files,
                    );
                }
                let name = found[visited].name.as_slice();
                let inode_number: u32 = found[visited].inode_number;
                if !bytes_equal(name, ".".as_bytes()) && !bytes_equal(name, "..".as_bytes()) {
                    if name.len() > 1023 || path.len() + 1 + name.len() > 1024 {
                        return Err(Ext4Error::NameTooLong);
                    }
                    let full_path = append_path_component(path, name);
                    let child_inode = match self.read_inode(inode_number) {
                        Ok(inode) => inode,
                        Err(error) => return Err(error),
                    };
                    if child_inode.is_directory() {
                        let inner = self.walk_directory(&child_inode, &full_path, files);
                        proof {
                            let deeper = directory_visited(
                                medium,
                                layout,
                                child_inode@,
                                full_path@,
                            );
                            assert(files_before + walk.files + deeper.files =~= files_before + (
                            walk.files + deeper.files));
                            if inner matches Err(Ext4Error::Device(_)) {
                                deeper_is_partly_listed(
                                    files_before,
                                    walk.files,
                                    deeper.files,
                                    files_in(files@),
                                    directory_visited(
                                        medium,
                                        layout,
                                        directory_inode@,
                                        path@,
                                    ).files,
                                );
                            }
                        }
                        match inner {
                            Ok(done) => {
                                assert(done == ());
                            },
                            Err(error) => return Err(error),
                        }
                    } else {
                        if utf8_text(full_path.as_slice()).is_none() {
                            return Err(Ext4Error::InvalidDirectoryEntry);
                        }
                        let ghost listed_before = files_in(files@);
                        let ghost record = Ext4Walked {
                            path: full_path@,
                            size: child_inode.size_bytes,
                        };
                        files.push(ListedFile { path: full_path, size: child_inode.size_bytes });
                        assert(files_in(files@) =~= listed_before.push(record));
                        assert(files_before + walk.files.push(record) =~= (files_before
                            + walk.files).push(record));
                    }
                }
                visited += 1;
            }
            assert(seen.take(visited as int) =~= seen);
            match more {
                Ok(true) => {},
                Ok(false) => return Ok(()),
                Err(error) => return Err(error),
            }
        }
    }
}

/// One file found by a walk.
pub struct ListedFile {
    /// Path from the root directory, with a leading slash, in UTF-8.
    pub path: Vec<u8>,
    /// Size in bytes.
    pub size: u64,
}

/// The paths and sizes that a vector holds.
pub open spec fn files_in(files: Seq<ListedFile>) -> Seq<Ext4Walked> {
    Seq::new(files.len(), |i: int| Ext4Walked { path: files[i].path@, size: files[i].size })
}

/// Returns `path` with one directory-entry name appended.
fn append_path_component(path: &Vec<u8>, component: &[u8]) -> (joined: Vec<u8>)
    ensures
        joined@ == joined_path(path@, component@),
{
    let mut joined = copy_range(path.as_slice(), 0, path.len());
    joined.push(0x2f);
    let ghost head = joined@;
    let mut place: usize = 0;
    while place < component.len()
        invariant
            place <= component@.len(),
            joined@ == head + component@.take(place as int),
        decreases component@.len() - place,
    {
        joined.push(component[place]);
        place += 1;
        assert(joined@ =~= head + component@.take(place as int));
    }
    assert(joined@ =~= joined_path(path@, component@));
    joined
}

/// Directory entry with its name.
pub struct NamedInode {
    pub name: Vec<u8>,
    pub inode_number: u32,
}

/// The entries that a vector holds.
pub open spec fn entries_in(entries: Seq<NamedInode>) -> Seq<Ext4Named> {
    Seq::new(
        entries.len(),
        |i: int| Ext4Named { name: entries[i].name@, inode_number: entries[i].inode_number },
    )
}

/// Appends the entries of one directory block to `found`.
fn list_block(block: &[u8], found: &mut Vec<NamedInode>) -> (outcome: Result<(), Ext4Error>)
    ensures
        ({
            let scanned = block_listed(
                (Ext4Listing { entries: entries_in(old(found)@), malformed: false }),
                block@,
                0,
            );
            &&& entries_in(final(found)@) == scanned.entries
            &&& match outcome {
                Ok(()) => !scanned.malformed,
                Err(error) => scanned.malformed && error == Ext4Error::InvalidDirectoryEntry,
            }
        }),
{
    let ghost whole = block_listed(
        Ext4Listing { entries: entries_in(found@), malformed: false },
        block@,
        0,
    );
    let size = block.len();
    let mut offset: usize = 0;
    while size >= 8 && offset <= size - 8
        invariant
            size == block@.len(),
            offset <= size,
            whole == block_listed(
                (Ext4Listing { entries: entries_in(old(found)@), malformed: false }),
                block@,
                0,
            ),
            whole == block_listed(
                (Ext4Listing { entries: entries_in(found@), malformed: false }),
                block@,
                offset as int,
            ),
        decreases size - offset,
    {
        let inode_number: u32 = read_le_u32(block, offset);
        let record_length: usize = read_le_u16(block, offset + 4) as usize;
        let name_length: usize = block[offset + 6] as usize;
        if record_length < 8 || record_length % 4 != 0 || record_length > size - offset
            || name_length > record_length - 8 {
            return Err(Ext4Error::InvalidDirectoryEntry);
        }
        assert(record_sound(block@, offset as int));
        if inode_number != 0 {
            let name = copy_range(block, offset + 8, offset + 8 + name_length);
            let ghost before = entries_in(found@);
            let ghost entry = Ext4Named { name: name@, inode_number };
            found.push(NamedInode { name, inode_number });
            assert(entries_in(found@) =~= before.push(entry));
        }
        offset += record_length;
    }
    Ok(())
}

/// Trims leading `/` separators from `path`.
fn trim_leading_separators(path: &[u8]) -> (rest: &[u8])
    ensures
        rest@ == trimmed(path@),
{
    let mut start: usize = 0;
    assert(path@.skip(0) =~= path@);
    while start < path.len() && path[start] == 0x2f
        invariant
            start <= path@.len(),
            leading_slashes(path@) == start + leading_slashes(path@.skip(start as int)),
        decreases path@.len() - start,
    {
        assert(path@.skip(start as int).drop_first() =~= path@.skip(start + 1));
        start += 1;
    }
    let rest = &path[start..path.len()];
    assert(rest@ =~= trimmed(path@));
    rest
}

/// Splits a trimmed path into its first component and the remaining suffix.
fn split_path_component(path: &[u8]) -> (parts: (&[u8], &[u8]))
    requires
        path@.len() > 0,
        path@[0] != 0x2f,
    ensures
        parts.0@ == first_component(path@),
        parts.1@ == after_component(path@),
        parts.1@.len() < path@.len(),
        parts.1@.len() > 0 ==> parts.1@[0] != 0x2f,
{
    let mut end: usize = 0;
    assert(path@.skip(0) =~= path@);
    while end < path.len() && path[end] != 0x2f
        invariant
            end <= path@.len(),
            component_length(path@) == end + component_length(path@.skip(end as int)),
        decreases path@.len() - end,
    {
        assert(path@.skip(end as int).drop_first() =~= path@.skip(end + 1));
        end += 1;
    }
    proof {
        component_fits(path@);
        trimming_shortens(path@.skip(end as int));
    }
    let component = &path[0..end];
    let suffix = &path[end..path.len()];
    assert(component@ =~= first_component(path@));
    assert(suffix@ =~= path@.skip(end as int));
    (component, trim_leading_separators(suffix))
}

/// Decodes a superblock.
fn decode_superblock(superblock: &[u8], partition_start_lba: u64) -> (layout: Result<
    Ext4Layout,
    Ext4Error,
>)
    requires
        superblock@.len() == 1024,
        partition_start_lba <= 0x80_0000_0000_0000,
    ensures
        layout == superblock_layout(superblock@, partition_start_lba),
        layout matches Ok(decoded) ==> decoded.well_formed(),
{
    if read_le_u16(superblock, 0x38) != 0xef53 {
        return Err(Ext4Error::InvalidSuperblock);
    }
    let exponent: u32 = read_le_u32(superblock, 0x18);
    if exponent >= 32 {
        return Err(Ext4Error::InvalidSuperblock);
    }
    let block_size: u32 = 1024u32 << exponent;
    if block_size > 4096 || block_size < 512 || block_size % 512 != 0 {
        return Err(Ext4Error::UnsupportedBlockSize(block_size));
    }
    assert(block_size == 1024 || block_size == 2048 || block_size == 4096) by (bit_vector)
        requires
            exponent < 32,
            block_size == 1024u32 << exponent,
            512 <= block_size <= 4096,
    ;
    let inode_size: u16 = read_le_u16(superblock, 0x58);
    if inode_size == 0 || inode_size > 512 {
        return Err(Ext4Error::UnsupportedInodeSize(inode_size));
    }
    let unsupported: u32 = read_le_u32(superblock, 0x60) & !0x02c6u32;
    if unsupported != 0 {
        return Err(Ext4Error::UnsupportedIncompatibleFeatures(unsupported));
    }
    let blocks_per_group: u32 = read_le_u32(superblock, 0x20);
    let inodes_per_group: u32 = read_le_u32(superblock, 0x28);
    if blocks_per_group == 0 || inodes_per_group == 0 {
        return Err(Ext4Error::InvalidSuperblock);
    }
    let announced: u16 = read_le_u16(superblock, 0xfe);
    let group_descriptor_size: u16 = if announced == 0 {
        32
    } else {
        announced
    };
    if group_descriptor_size != 32 && group_descriptor_size != 64 {
        return Err(Ext4Error::InvalidSuperblock);
    }
    Ok(
        Ext4Layout {
            partition_start_lba,
            block_size,
            inodes_per_group,
            inode_size,
            group_descriptor_size,
        },
    )
}

/// What an inode is to a caller: everything but a directory counts as a file, and a
/// size that does not fit is the largest one.
pub open spec fn inode_metadata(inode: InodeRecord) -> FileInfo {
    FileInfo {
        file_type: if inode.directory() {
            FileType::Directory
        } else {
            FileType::File
        },
        size_bytes: if inode.size_bytes > usize::MAX {
            usize::MAX
        } else {
            inode.size_bytes as usize
        },
    }
}

/// What an inode leads to. Directories and files without a page count are not
/// loaded.
pub open spec fn inode_state(medium: Seq<u8>, layout: Ext4Layout, inode: InodeRecord) -> FileState {
    FileState {
        metadata: inode_metadata(inode),
        refused: inode.directory() || inode.size_bytes + 4095 > usize::MAX,
        data: match inode_contents(medium, layout, inode) {
            Ok(data) => Some(data),
            Err(_) => None,
        },
    }
}

impl<'a, D: BlockDevice> MountedVolume<'a> for Ext4Volume<'a, D> {
    type Error = Ext4Error;

    type Holding = (Seq<u8>, Ext4Layout, u64);

    type Source = D;

    open spec fn source(&self) -> &'a mut D {
        self.device()
    }

    open spec fn readable(&self) -> bool {
        self.well_formed()
    }

    open spec fn holding(&self) -> (Seq<u8>, Ext4Layout, u64) {
        (self.device().medium(), self.layout(), self.device().sectors())
    }

    open spec fn device_faults(&self) -> Seq<VirtioError> {
        self.device().faults()
    }

    open spec fn state_at(holding: (Seq<u8>, Ext4Layout, u64), path: Seq<u8>) -> Option<FileState> {
        match requested_inode(holding.0, holding.1, path) {
            Ok(inode) => Some(inode_state(holding.0, holding.1, inode)),
            Err(_) => None,
        }
    }

    open spec fn load_type() -> EFI_MEMORY_TYPE {
        EFI_MEMORY_TYPE::EfiBootServicesData
    }
}

impl<'a, D: BlockDevice> Ext4Volume<'a, D> {
    /// Reads a file into pages that were allocated at `physical_start`.
    fn load_into_pages(&mut self, inode: &Ext4Inode, physical_start: u64) -> (outcome: Result<
        LoadedFile,
        Ext4Error,
    >)
        requires
            old(self).well_formed(),
            !inode@.directory(),
            inode.size_bytes + 4095 <= usize::MAX,
        ensures
            final(self).layout() == old(self).layout(),
            same_medium(*old(self).device(), *final(self).device()),
            *final(final(self).device()) == *final(old(self).device()),
            ({
                let state = inode_state(
                    old(self).device().medium(),
                    old(self).layout(),
                    inode@,
                );
                match outcome {
                    Ok(file) => final(self).device().faults() == old(self).device().faults()
                        && loads_as(state, physical_start, file),
                    Err(Ext4Error::Device(fault)) => final(self).device().faults() == old(
                        self,
                    ).device().faults().push(fault),
                    Err(error) => final(self).device().faults() == old(self).device().faults()
                        && inode_contents(
                        old(self).device().medium(),
                        old(self).layout(),
                        inode@,
                    ) == Err::<Seq<u8>, Ext4Error>(error),
                }
            }),
    {
        let size_bytes = inode.size_bytes as usize;
        let page_count: usize = file_size_to_page_count(size_bytes);
        let mut contents: Vec<u8> = vec![0u8; page_count * 4096];
        let ghost zeros = contents@;
        match self.read_inode_contents(inode, contents.as_mut_slice()) {
            Ok(_) => {
                assert(contents@ =~= in_pages(
                    contents@.take(size_bytes as int),
                    page_count as int,
                )) by {
                    assert forall|i: int| size_bytes <= i < contents@.len() implies contents@[i]
                        == 0 by {
                        assert(contents@.skip(size_bytes as int)[i - size_bytes] == zeros.skip(
                            size_bytes as int,
                        )[i - size_bytes]);
                    }
                }
                Ok(LoadedFile::new(physical_start, page_count, size_bytes, contents))
            },
            Err(error) => Err(error),
        }
    }
}

/// Converts one file size in bytes into the corresponding number of 4 KiB pages,
/// at least one.
fn file_size_to_page_count(size_bytes: usize) -> (count: usize)
    requires
        size_bytes + 4095 <= usize::MAX,
    ensures
        count == pages_needed(size_bytes as int),
        count * 4096 <= usize::MAX,
{
    if size_bytes == 0 {
        1
    } else {
        (size_bytes + 4095) / 4096
    }
}

/// Open ext4 path handle used to inspect metadata and load contents.
pub struct Ext4File {
    /// Resolved inode metadata for the opened path.
    pub inode: Ext4Inode,
}

impl FileInfoView for Ext4File {
    open spec fn metadata(&self) -> FileInfo {
        inode_metadata(self.inode@)
    }

    /// Returns whether the opened path is a file or a directory.
    fn file_type(&self) -> (kind: FileType) {
        match self.inode.file_type() {
            Ok(kind) => kind,
            Err(_) => FileType::File,
        }
    }

    /// Returns the size in bytes associated with the opened path.
    fn size_bytes(&self) -> (size: usize) {
        if self.inode.size_bytes > usize::MAX as u64 {
            usize::MAX
        } else {
            self.inode.size_bytes as usize
        }
    }
}

impl<'a, D: BlockDevice> FileHandle<'a, Ext4Volume<'a, D>> for Ext4File {
    open spec fn state_in(&self, holding: (Seq<u8>, Ext4Layout, u64)) -> FileState {
        inode_state(holding.0, holding.1, self.inode@)
    }

    /// Loads the file into page-aligned EFI-style memory.
    fn load(&self, volume: &mut Ext4Volume<'a, D>, allocator: &mut PageAllocator<'_>) -> (outcome:
        Result<LoadedFile, Ext4Error>)
        ensures
            *final(final(volume).device()) == *final(old(volume).device()),
            final(volume).device().sectors() == old(volume).device().sectors(),
            outcome matches Err(error) ==> load_error_kept(
                self.inode@,
                size_allocation(
                    old(allocator).map(),
                    EFI_MEMORY_TYPE::EfiBootServicesData,
                    inode_metadata(self.inode@).size_bytes,
                    old(allocator).capacity(),
                ),
                inode_contents(old(volume).device().medium(), old(volume).layout(), self.inode@),
                error,
            ),
            outcome matches Err(Ext4Error::Device(fault)) ==> final(volume).device().faults()
                == old(volume).device().faults().push(fault),
            !(outcome matches Err(Ext4Error::Device(_))) ==> final(volume).device().faults() == old(
                volume,
            ).device().faults(),
    {
        if self.inode.is_directory() {
            return Err(Ext4Error::IsDirectory);
        }
        if self.inode.size_bytes > usize::MAX as u64 || self.inode.size_bytes as usize > usize::MAX
            - 4095 {
            return Err(Ext4Error::BufferTooSmall);
        }
        let size_bytes = self.inode.size_bytes as usize;
        let physical_start: u64 = match allocator.allocate_pages_for_size(
            EFI_MEMORY_TYPE::EfiBootServicesData,
            size_bytes,
        ) {
            Ok(start) => start,
            Err(error) => return Err(Ext4Error::Memory(error)),
        };
        volume.load_into_pages(&self.inode, physical_start)
    }

    /// Loads the file into page-aligned EFI-style memory at one fixed address.
    fn load_at(
        &self,
        volume: &mut Ext4Volume<'a, D>,
        allocator: &mut PageAllocator<'_>,
        physical_start: u64,
    ) -> (outcome: Result<LoadedFile, Ext4Error>)
        ensures
            *final(final(volume).device()) == *final(old(volume).device()),
            final(volume).device().sectors() == old(volume).device().sectors(),
            outcome matches Err(error) ==> load_error_kept(
                self.inode@,
                allocation(
                    old(allocator).map(),
                    EFI_ALLOCATE_TYPE::AllocateAddress,
                    EFI_MEMORY_TYPE::EfiBootServicesData,
                    pages_needed(inode_metadata(self.inode@).size_bytes as int) as usize,
                    physical_start,
                    old(allocator).capacity(),
                ),
                inode_contents(old(volume).device().medium(), old(volume).layout(), self.inode@),
                error,
            ),
            outcome matches Err(Ext4Error::Device(fault)) ==> final(volume).device().faults()
                == old(volume).device().faults().push(fault),
            !(outcome matches Err(Ext4Error::Device(_))) ==> final(volume).device().faults() == old(
                volume,
            ).device().faults(),
    {
        if self.inode.is_directory() {
            return Err(Ext4Error::IsDirectory);
        }
        if self.inode.size_bytes > usize::MAX as u64 || self.inode.size_bytes as usize > usize::MAX
            - 4095 {
            return Err(Ext4Error::BufferTooSmall);
        }
        let page_count: usize = file_size_to_page_count(self.inode.size_bytes as usize);
        let mut start: u64 = physical_start;
        match allocator.AllocatePages(
            EFI_ALLOCATE_TYPE::AllocateAddress,
            EFI_MEMORY_TYPE::EfiBootServicesData,
            page_count,
            &mut start,
        ) {
            Ok(()) => {},
            Err(error) => return Err(Ext4Error::Memory(error)),
        }
        volume.load_into_pages(&self.inode, start)
    }
}

/// Whether an error tells why a file was not loaded: a directory, a size without a
/// page count, memory that was not granted, or else what came up while reading: an
/// error of the device, or why there are no contents.
pub open spec fn load_error_kept(
    inode: InodeRecord,
    granted: Result<(u64, Seq<EFI_MEMORY_DESCRIPTOR>), MemoryError>,
    contents: Result<Seq<u8>, Ext4Error>,
    error: Ext4Error,
) -> bool {
    if inode.directory() {
        error == Ext4Error::IsDirectory
    } else if inode.size_bytes + 4095 > usize::MAX {
        error == Ext4Error::BufferTooSmall
    } else {
        match granted {
            Err(reason) => error == Ext4Error::Memory(reason),
            Ok(_) => error is Device || contents == Err::<Seq<u8>, Ext4Error>(error),
        }
    }
}

impl<'a, D: BlockDevice> FileSystem<'a> for Ext4Volume<'a, D> {
    type File = Ext4File;

    /// Opens one path as a filesystem file handle.
    fn open(&mut self, path: &str) -> (file: Result<Ext4File, Ext4Error>)
        ensures
            *final(final(self).device()) == *final(old(self).device()),
            final(self).device().sectors() == old(self).device().sectors(),
            file matches Err(error) ==> (error is Device || requested_inode(
                old(self).device().medium(),
                old(self).layout(),
                path.spec_bytes(),
            ) == Err::<InodeRecord, Ext4Error>(error)),
    {
        let inode = match self.resolve_path(path) {
            Ok(inode) => inode,
            Err(error) => return Err(error),
        };
        Ok(Ext4File { inode })
    }
}

} // verus!
