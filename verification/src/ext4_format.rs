//! What an ext4 filesystem holds, as read off its medium.
//!
//! Everything here is stated over the bytes of the medium: the superblock, the
//! inodes, the extents of an inode, the entries of a directory, and the inode
//! that a path leads to.

use vstd::prelude::*;
use vstd::string::*;
use vstd::utf8::*;
use crate::bytes::{le16, le32, overwritten, window};
use crate::memory::MemoryError;
use crate::virtio::VirtioError;

verus! {

/// Errors returned by the ext4 filesystem reader.
#[derive(Clone, Copy, Debug, PartialEq, Eq, Structural)]
pub enum Ext4Error {
    /// The underlying block device reported an I/O failure.
    Device(VirtioError),
    /// The EFI-style page allocator reported an allocation failure.
    Memory(MemoryError),
    /// The superblock did not describe a supported ext filesystem.
    InvalidSuperblock,
    /// The ext volume uses a block size larger than this implementation supports.
    UnsupportedBlockSize(u32),
    /// The ext volume uses an inode size larger than this implementation supports.
    UnsupportedInodeSize(u16),
    /// The ext volume advertises incompatible features this reader does not understand.
    UnsupportedIncompatibleFeatures(u32),
    /// The inode uses one mapping mode this implementation does not support.
    UnsupportedMapping,
    /// The requested path was empty or otherwise malformed.
    InvalidPath,
    /// A required path component or file was not found.
    NotFound,
    /// A path component that should have been a directory was not one.
    NotDirectory,
    /// The resolved path points at a directory instead of a regular file.
    IsDirectory,
    /// The caller-supplied output buffer is too small for the file.
    BufferTooSmall,
    /// The filesystem referenced an invalid inode number or layout.
    InvalidInode(u32),
    /// The filesystem contained one invalid extent tree.
    InvalidExtentTree,
    /// The filesystem contained one malformed directory entry stream.
    InvalidDirectoryEntry,
    /// One symlink target exceeded the supported in-memory path limit.
    NameTooLong,
    /// Too many symlink expansions were required while resolving one path.
    SymlinkLoop,
    /// The resolved inode type is unsupported by this implementation.
    UnsupportedFileType(u16),
}

/// Where the parts of a mounted ext4 volume are.
#[derive(Clone, Copy, Debug, PartialEq, Eq, Structural)]
pub struct Ext4Layout {
    /// First sector of the mounted volume on the device.
    pub partition_start_lba: u64,
    /// Logical ext4 block size in bytes.
    pub block_size: u32,
    /// Number of inodes stored in one block group.
    pub inodes_per_group: u32,
    /// Size in bytes of one on-disk inode record.
    pub inode_size: u16,
    /// Size in bytes of one group-descriptor record.
    pub group_descriptor_size: u16,
}

impl Ext4Layout {
    /// Whether the layout is one that a superblock can describe.
    pub open spec fn well_formed(self) -> bool {
        &&& self.partition_start_lba <= 0x80_0000_0000_0000
        &&& self.block_size == 1024 || self.block_size == 2048 || self.block_size == 4096
        &&& self.inodes_per_group > 0
        &&& 1 <= self.inode_size <= 512
        &&& self.group_descriptor_size == 32 || self.group_descriptor_size == 64
    }

    /// Block number containing the first group descriptor.
    pub open spec fn group_descriptor_table_block(self) -> int {
        if self.block_size == 1024 {
            2
        } else {
            1
        }
    }
}

/// Block size that a superblock announces, or nothing where the exponent is no
/// shift of a 32-bit number.
pub open spec fn announced_block_size(exponent: u32) -> Option<u32> {
    if exponent >= 32 {
        None
    } else {
        Some(1024u32 << exponent)
    }
}

/// The incompatible features that a superblock announces and this reader does
/// not know.
pub open spec fn unknown_features(features: u32) -> u32 {
    features & !0x02c6u32
}

/// Size of the group descriptors that a superblock announces.
pub open spec fn announced_descriptor_size(superblock: Seq<u8>) -> u16 {
    if le16(superblock, 0xfe) == 0 {
        32
    } else {
        le16(superblock, 0xfe)
    }
}

/// The layout that a superblock describes, or why it is not accepted.
pub open spec fn superblock_layout(superblock: Seq<u8>, start: u64) -> Result<
    Ext4Layout,
    Ext4Error,
> {
    let block_size = announced_block_size(le32(superblock, 0x18));
    let inode_size = le16(superblock, 0x58);
    let unknown = unknown_features(le32(superblock, 0x60));
    let descriptor_size = announced_descriptor_size(superblock);
    if le16(superblock, 0x38) != 0xef53 || block_size is None {
        Err(Ext4Error::InvalidSuperblock)
    } else if !(512 <= block_size->0 <= 4096 && block_size->0 % 512 == 0) {
        Err(Ext4Error::UnsupportedBlockSize(block_size->0))
    } else if inode_size == 0 || inode_size > 512 {
        Err(Ext4Error::UnsupportedInodeSize(inode_size))
    } else if unknown != 0 {
        Err(Ext4Error::UnsupportedIncompatibleFeatures(unknown))
    } else if le32(superblock, 0x20) == 0 || le32(superblock, 0x28) == 0 || (descriptor_size != 32
        && descriptor_size != 64) {
        Err(Ext4Error::InvalidSuperblock)
    } else {
        Ok(
            Ext4Layout {
                partition_start_lba: start,
                block_size: block_size->0,
                inodes_per_group: le32(superblock, 0x28),
                inode_size,
                group_descriptor_size: descriptor_size,
            },
        )
    }
}

/// `length` bytes of the volume from `offset` on.
pub open spec fn volume_bytes(medium: Seq<u8>, layout: Ext4Layout, offset: int, length: int) -> Seq<
    u8,
> {
    window(medium, layout.partition_start_lba * 512 + offset, length)
}

/// One block of the volume.
pub open spec fn block_bytes(medium: Seq<u8>, layout: Ext4Layout, block: int) -> Seq<u8> {
    volume_bytes(medium, layout, block * layout.block_size, layout.block_size as int)
}

/// A byte string followed by zeros up to `length` bytes.
pub open spec fn zero_padded(bytes: Seq<u8>, length: int) -> Seq<u8> {
    Seq::new(length as nat, |i: int| if i < bytes.len() { bytes[i] } else { 0u8 })
}

/// What the record of an inode says.
pub struct InodeRecord {
    pub inode_number: u32,
    pub mode: u16,
    pub size_bytes: u64,
    pub flags: u32,
    pub block_data: Seq<u8>,
}

impl InodeRecord {
    /// Whether the inode describes a directory.
    pub open spec fn directory(self) -> bool {
        (self.mode & 0xf000) == 0x4000
    }

    /// Whether the inode describes a regular file.
    pub open spec fn regular_file(self) -> bool {
        (self.mode & 0xf000) == 0x8000
    }

    /// Whether the inode describes a symlink.
    pub open spec fn symlink(self) -> bool {
        (self.mode & 0xf000) == 0xa000
    }

    /// Whether the inode stores its data in extents.
    pub open spec fn extent_mapped(self) -> bool {
        (self.flags & 0x0008_0000) != 0
    }
}

/// The descriptor of a block group.
pub open spec fn group_descriptor(medium: Seq<u8>, layout: Ext4Layout, group: int) -> Seq<u8> {
    zero_padded(
        volume_bytes(
            medium,
            layout,
            layout.group_descriptor_table_block() * layout.block_size + group
                * layout.group_descriptor_size,
            layout.group_descriptor_size as int,
        ),
        64,
    )
}

/// First block of the inode table of a block group.
pub open spec fn inode_table(medium: Seq<u8>, layout: Ext4Layout, group: int) -> int {
    let descriptor = group_descriptor(medium, layout, group);
    let high: u32 = if layout.group_descriptor_size >= 44 {
        le32(descriptor, 0x28)
    } else {
        0
    };
    high * 0x1_0000_0000 + le32(descriptor, 8)
}

/// Byte position of an inode record on the volume.
pub open spec fn inode_position(medium: Seq<u8>, layout: Ext4Layout, inode_number: u32) -> int {
    let place = inode_number - 1;
    inode_table(medium, layout, place / layout.inodes_per_group as int) * layout.block_size + (place
        % layout.inodes_per_group as int) * layout.inode_size
}

/// The inode with a given number. Inode zero does not exist, and a record past
/// the last 64-bit position cannot be read.
pub open spec fn inode_of(medium: Seq<u8>, layout: Ext4Layout, inode_number: u32) -> Result<
    InodeRecord,
    Ext4Error,
> {
    let position = inode_position(medium, layout, inode_number);
    let raw = zero_padded(
        volume_bytes(medium, layout, position, layout.inode_size as int),
        512,
    );
    if inode_number == 0 || position > u64::MAX {
        Err(Ext4Error::InvalidInode(inode_number))
    } else {
        Ok(
            InodeRecord {
                inode_number,
                mode: le16(raw, 0),
                size_bytes: (le32(raw, 4) + le32(raw, 0x6c) * 0x1_0000_0000) as u64,
                flags: le32(raw, 0x20),
                block_data: raw.subrange(40, 100),
            },
        )
    }
}

/// One mapping from logical file blocks to physical disk blocks.
#[derive(Clone, Copy, Debug, PartialEq, Eq, Structural)]
pub struct Ext4Extent {
    /// First logical file block covered by this extent.
    pub logical_block: u32,
    /// Number of initialized blocks covered by this extent.
    pub block_count: u16,
    /// First physical filesystem block backing this extent.
    pub physical_block: u64,
}

/// The extent at `offset` of a leaf node.
pub open spec fn extent_at(node: Seq<u8>, offset: int) -> Ext4Extent {
    Ext4Extent {
        logical_block: le32(node, offset),
        block_count: le16(node, offset + 4),
        physical_block: (le16(node, offset + 6) * 0x1_0000_0000 + le32(node, offset + 8)) as u64,
    }
}

/// The extents of a leaf node from entry `index` on, behind those in `before`.
/// An extent whose blocks are not initialized is an error, and so is a 129th.
pub open spec fn leaf_extents(node: Seq<u8>, before: Seq<Ext4Extent>, index: int) -> Result<
    Seq<Ext4Extent>,
    Ext4Error,
>
    decreases le16(node, 2) - index,
{
    if index >= le16(node, 2) {
        Ok(before)
    } else {
        let extent = extent_at(node, 12 + index * 12);
        if extent.block_count >= 0x8000 || before.len() >= 128 {
            Err(Ext4Error::InvalidExtentTree)
        } else {
            leaf_extents(node, before.push(extent), index + 1)
        }
    }
}

/// The child block that entry `index` of an index node names.
pub open spec fn child_block(node: Seq<u8>, index: int) -> int {
    le16(node, 12 + index * 12 + 8) * 0x1_0000_0000 + le32(node, 12 + index * 12 + 4)
}

/// The extents below the entries of an index node from `index` on, behind those
/// in `before`.
pub open spec fn index_extents(
    medium: Seq<u8>,
    layout: Ext4Layout,
    node: Seq<u8>,
    before: Seq<Ext4Extent>,
    index: int,
    levels: nat,
) -> Result<Seq<Ext4Extent>, Ext4Error>
    decreases levels, 0int, le16(node, 2) - index,
{
    if index >= le16(node, 2) {
        Ok(before)
    } else if levels == 0 {
        Err(Ext4Error::InvalidExtentTree)
    } else {
        let child = block_bytes(medium, layout, child_block(node, index));
        match node_extents(medium, layout, child, before, (levels - 1) as nat) {
            Ok(more) => index_extents(medium, layout, node, more, index + 1, levels),
            Err(error) => Err(error),
        }
    }
}

/// The extents of a tree node, behind those in `before`. A tree has at most
/// `levels` levels below the node.
pub open spec fn node_extents(
    medium: Seq<u8>,
    layout: Ext4Layout,
    node: Seq<u8>,
    before: Seq<Ext4Extent>,
    levels: nat,
) -> Result<Seq<Ext4Extent>, Ext4Error>
    decreases levels, 1int, 0int,
{
    if le16(node, 0) != 0xf30a || le16(node, 6) > 5 || 12 + le16(node, 2) * 12 > node.len() {
        Err(Ext4Error::InvalidExtentTree)
    } else if le16(node, 6) == 0 {
        leaf_extents(node, before, 0)
    } else {
        index_extents(medium, layout, node, before, 0, levels)
    }
}

/// The extents of an inode. Extent trees have at most five levels below their
/// root.
pub open spec fn inode_extents(medium: Seq<u8>, layout: Ext4Layout, inode: InodeRecord) -> Result<
    Seq<Ext4Extent>,
    Ext4Error,
> {
    if !inode.extent_mapped() {
        Err(Ext4Error::UnsupportedMapping)
    } else {
        node_extents(medium, layout, inode.block_data, Seq::empty(), 5)
    }
}

/// File contents with the extents from `index` on laid over `data`, in order.
/// The first extent that starts past the end of the file ends them.
pub open spec fn extents_laid(
    medium: Seq<u8>,
    layout: Ext4Layout,
    extents: Seq<Ext4Extent>,
    data: Seq<u8>,
    index: int,
) -> Seq<u8>
    decreases extents.len() - index,
{
    if index < 0 || index >= extents.len() {
        data
    } else {
        let offset = extents[index].logical_block * layout.block_size;
        if offset >= data.len() {
            data
        } else {
            extents_laid(
                medium,
                layout,
                extents,
                extent_laid(medium, layout, extents[index], data),
                index + 1,
            )
        }
    }
}

/// Number of bytes that an extent gives to a file of `size` bytes.
pub open spec fn extent_share(layout: Ext4Layout, extent: Ext4Extent, size: int) -> int {
    let offset = extent.logical_block * layout.block_size;
    let capacity = extent.block_count * layout.block_size;
    if size - offset < capacity {
        size - offset
    } else {
        capacity
    }
}

/// File contents with one extent laid over `data`.
pub open spec fn extent_laid(
    medium: Seq<u8>,
    layout: Ext4Layout,
    extent: Ext4Extent,
    data: Seq<u8>,
) -> Seq<u8> {
    let offset = extent.logical_block * layout.block_size;
    let share = extent_share(layout, extent, data.len() as int);
    overwritten(
        data,
        offset,
        volume_bytes(medium, layout, extent.physical_block * layout.block_size, share),
    )
}

/// The contents of an inode that is no directory. Parts without an extent are
/// zeros.
pub open spec fn inode_contents(medium: Seq<u8>, layout: Ext4Layout, inode: InodeRecord) -> Result<
    Seq<u8>,
    Ext4Error,
> {
    if inode.directory() {
        Err(Ext4Error::IsDirectory)
    } else if inode.size_bytes == 0 {
        Ok(Seq::empty())
    } else {
        match inode_extents(medium, layout, inode) {
            Ok(extents) => Ok(
                extents_laid(
                    medium,
                    layout,
                    extents,
                    Seq::new(inode.size_bytes as nat, |i: int| 0u8),
                    0,
                ),
            ),
            Err(error) => Err(error),
        }
    }
}

/// One entry of a directory.
pub struct Ext4Named {
    pub name: Seq<u8>,
    pub inode_number: u32,
}

/// A directory as far as it has been read: its entries in order, and whether
/// the entry stream turned out malformed.
pub struct Ext4Listing {
    pub entries: Seq<Ext4Named>,
    pub malformed: bool,
}

/// Whether the record at `offset` of a directory block is sound: a length that
/// is a multiple of four, holds the record's name and stays in the block.
pub open spec fn record_sound(block: Seq<u8>, offset: int) -> bool {
    let length = le16(block, offset + 4);
    &&& length >= 8
    &&& length % 4 == 0
    &&& offset + length <= block.len()
    &&& block[offset + 6] <= length - 8
}

/// The listing after the records of one directory block from `offset` on.
/// Records without an inode are not entries.
pub open spec fn block_listed(listing: Ext4Listing, block: Seq<u8>, offset: int) -> Ext4Listing
    decreases block.len() - offset,
{
    if listing.malformed || offset < 0 || offset + 8 > block.len() {
        listing
    } else if !record_sound(block, offset) {
        Ext4Listing { malformed: true, ..listing }
    } else {
        let number = le32(block, offset);
        let name = block.subrange(offset + 8, offset + 8 + block[offset + 6]);
        let next = if number != 0 {
            Ext4Listing {
                entries: listing.entries.push(Ext4Named { name, inode_number: number }),
                ..listing
            }
        } else {
            listing
        };
        block_listed(next, block, offset + le16(block, offset + 4))
    }
}

/// The listing when reading goes on from block `offset` of extent `index`.
pub open spec fn listing_completed(
    medium: Seq<u8>,
    layout: Ext4Layout,
    extents: Seq<Ext4Extent>,
    listing: Ext4Listing,
    index: int,
    offset: int,
) -> Ext4Listing
    decreases
            extents.len() - index,
            (if 0 <= index < extents.len() {
                extents[index].block_count - offset
            } else {
                0
            }),
{
    if listing.malformed || index < 0 || index >= extents.len() {
        listing
    } else if offset >= extents[index].block_count {
        listing_completed(medium, layout, extents, listing, index + 1, 0)
    } else {
        let block = block_bytes(medium, layout, extents[index].physical_block + offset);
        listing_completed(
            medium,
            layout,
            extents,
            block_listed(listing, block, 0),
            index,
            offset + 1,
        )
    }
}

/// Everything that a directory holds, or why its blocks cannot be located.
pub open spec fn directory_listing(medium: Seq<u8>, layout: Ext4Layout, inode: InodeRecord) -> Result<
    Ext4Listing,
    Ext4Error,
> {
    match inode_extents(medium, layout, inode) {
        Ok(extents) => Ok(
            listing_completed(
                medium,
                layout,
                extents,
                (Ext4Listing { entries: Seq::empty(), malformed: false }),
                0,
                0,
            ),
        ),
        Err(error) => Err(error),
    }
}

/// The inode number of the first entry from place `from` on that has a given
/// name.
pub open spec fn number_from(entries: Seq<Ext4Named>, component: Seq<u8>, from: int) -> Option<u32>
    decreases entries.len() - from,
{
    if from < 0 || from >= entries.len() {
        None
    } else if entries[from].name == component {
        Some(entries[from].inode_number)
    } else {
        number_from(entries, component, from + 1)
    }
}

/// The inode number that a directory gives to a name.
pub open spec fn number_in_directory(
    medium: Seq<u8>,
    layout: Ext4Layout,
    directory: InodeRecord,
    component: Seq<u8>,
) -> Result<u32, Ext4Error> {
    match directory_listing(medium, layout, directory) {
        Err(error) => Err(error),
        Ok(listing) => match number_from(listing.entries, component, 0) {
            Some(number) => Ok(number),
            None => if listing.malformed {
                Err(Ext4Error::InvalidDirectoryEntry)
            } else {
                Err(Ext4Error::NotFound)
            },
        },
    }
}

/// Number of slashes at the start of a path.
pub open spec fn leading_slashes(path: Seq<u8>) -> nat
    decreases path.len(),
{
    if path.len() == 0 || path[0] != 0x2f {
        0
    } else {
        1 + leading_slashes(path.drop_first())
    }
}

/// A path without the slashes at its start.
pub open spec fn trimmed(path: Seq<u8>) -> Seq<u8> {
    path.skip(leading_slashes(path) as int)
}

/// Length of the first component of a trimmed path.
pub open spec fn component_length(path: Seq<u8>) -> nat
    decreases path.len(),
{
    if path.len() == 0 || path[0] == 0x2f {
        0
    } else {
        1 + component_length(path.drop_first())
    }
}

/// The first component of a trimmed path.
pub open spec fn first_component(path: Seq<u8>) -> Seq<u8> {
    path.take(component_length(path) as int)
}

/// What follows the first component of a trimmed path.
pub open spec fn after_component(path: Seq<u8>) -> Seq<u8> {
    trimmed(path.skip(component_length(path) as int))
}

/// The target of a symlink: short ones stand in the inode, long ones are stored
/// like file contents. A target takes at most 1024 bytes.
pub open spec fn symlink_target(medium: Seq<u8>, layout: Ext4Layout, inode: InodeRecord) -> Result<
    Seq<u8>,
    Ext4Error,
> {
    if inode.size_bytes > 1024 {
        Err(Ext4Error::NameTooLong)
    } else if !inode.extent_mapped() && inode.size_bytes <= 60 {
        Ok(inode.block_data.take(inode.size_bytes as int))
    } else {
        inode_contents(medium, layout, inode)
    }
}

/// A symlink target followed by the part of a path that is still to be resolved.
/// The result takes at most 1024 bytes.
pub open spec fn target_with_tail(target: Seq<u8>, tail: Seq<u8>) -> Result<Seq<u8>, Ext4Error> {
    let separated = if target.len() != 0 && target.last() != 0x2f {
        target.push(0x2fu8)
    } else {
        target
    };
    if tail.len() == 0 {
        Ok(target)
    } else if separated.len() + tail.len() > 1024 {
        Err(Ext4Error::NameTooLong)
    } else {
        Ok(separated + tail)
    }
}

/// The path that stands for a symlink in the middle of a path: its target and
/// what followed it.
pub open spec fn symlink_path(
    medium: Seq<u8>,
    layout: Ext4Layout,
    inode: InodeRecord,
    tail: Seq<u8>,
) -> Result<Seq<u8>, Ext4Error> {
    match symlink_target(medium, layout, inode) {
        Ok(target) => target_with_tail(target, tail),
        Err(error) => Err(error),
    }
}

/// The inode that a path leads to from a directory, when `expansions` symlinks
/// have been followed already.
pub open spec fn path_inode(
    medium: Seq<u8>,
    layout: Ext4Layout,
    start: u32,
    path: Seq<u8>,
    expansions: nat,
) -> Result<InodeRecord, Ext4Error>
    decreases 8 - expansions, path.len() + 1, 1int,
    via path_inode_decreases
{
    rest_inode(
        medium,
        layout,
        if path.len() > 0 && path[0] == 0x2f {
            2
        } else {
            start
        },
        trimmed(path),
        expansions,
    )
}

/// The inode that a trimmed path leads to from a directory. Every component but
/// the last must be a directory or a symlink; `.` stays in place, `..` is not
/// supported, and at most eight symlinks are followed.
pub open spec fn rest_inode(
    medium: Seq<u8>,
    layout: Ext4Layout,
    current: u32,
    remaining: Seq<u8>,
    expansions: nat,
) -> Result<InodeRecord, Ext4Error>
    decreases 8 - expansions, remaining.len() + 1, 0int,
    via rest_inode_decreases
{
    match inode_of(medium, layout, current) {
        Err(error) => Err(error),
        Ok(inode) => {
            let component = first_component(remaining);
            let rest = after_component(remaining);
            if remaining.len() == 0 {
                Ok(inode)
            } else if !inode.directory() {
                Err(Ext4Error::NotDirectory)
            } else if component == ".".spec_bytes() {
                rest_inode(medium, layout, current, rest, expansions)
            } else if component == "..".spec_bytes() {
                Err(Ext4Error::InvalidPath)
            } else {
                match number_in_directory(medium, layout, inode, component) {
                    Err(error) => Err(error),
                    Ok(number) => match inode_of(medium, layout, number) {
                        Err(error) => Err(error),
                        Ok(child) => if !child.symlink() {
                            rest_inode(medium, layout, number, rest, expansions)
                        } else if expansions >= 8 {
                            Err(Ext4Error::SymlinkLoop)
                        } else {
                            match symlink_path(medium, layout, child, rest) {
                                Err(error) => Err(error),
                                Ok(expanded) => if !valid_utf8(expanded) {
                                    Err(Ext4Error::InvalidPath)
                                } else {
                                    path_inode(medium, layout, current, expanded, expansions + 1)
                                },
                            }
                        },
                    },
                }
            }
        },
    }
}

/// A trimmed path is no longer than the path and does not start with a slash.
pub proof fn trimming_shortens(path: Seq<u8>)
    ensures
        leading_slashes(path) <= path.len(),
        trimmed(path).len() <= path.len(),
        trimmed(path).len() > 0 ==> trimmed(path)[0] != 0x2f,
        path.len() > 0 && path[0] == 0x2f ==> trimmed(path).len() < path.len(),
    decreases path.len(),
{
    if path.len() > 0 && path[0] == 0x2f {
        trimming_shortens(path.drop_first());
        assert(trimmed(path) =~= trimmed(path.drop_first()));
    }
}

/// A component lies within its path.
pub proof fn component_fits(path: Seq<u8>)
    ensures
        component_length(path) <= path.len(),
        path.len() > 0 && path[0] != 0x2f ==> component_length(path) > 0,
    decreases path.len(),
{
    if path.len() > 0 && path[0] != 0x2f {
        component_fits(path.drop_first());
    }
}

#[via_fn]
proof fn path_inode_decreases(
    medium: Seq<u8>,
    layout: Ext4Layout,
    start: u32,
    path: Seq<u8>,
    expansions: nat,
) {
    trimming_shortens(path);
}

#[via_fn]
proof fn rest_inode_decreases(
    medium: Seq<u8>,
    layout: Ext4Layout,
    current: u32,
    remaining: Seq<u8>,
    expansions: nat,
) {
    component_fits(remaining);
    trimming_shortens(remaining.skip(component_length(remaining) as int));
}

/// One file met by a walk.
pub struct Ext4Walked {
    pub path: Seq<u8>,
    pub size: u64,
}

/// What a walk met and how it ended.
pub struct Ext4Walk {
    pub files: Seq<Ext4Walked>,
    pub outcome: Result<(), Ext4Error>,
}

/// A path with one more component.
pub open spec fn joined_path(path: Seq<u8>, name: Seq<u8>) -> Seq<u8> {
    path + seq![0x2fu8] + name
}

/// The walk over the entries of the directory at `path`, in order, up to the
/// first error. The entries `.` and `..` are left out, directories are walked in
/// turn, and everything else is listed with the size of its inode. A path takes
/// at most 1024 bytes.
pub open spec fn entries_visited(
    medium: Seq<u8>,
    layout: Ext4Layout,
    entries: Seq<Ext4Named>,
    path: Seq<u8>,
) -> Ext4Walk
    decreases 1024 - path.len(), 0int, entries.len(),
{
    if entries.len() == 0 {
        Ext4Walk { files: Seq::empty(), outcome: Ok(()) }
    } else {
        let before = entries_visited(medium, layout, entries.drop_last(), path);
        let name = entries.last().name;
        let full_path = joined_path(path, name);
        if before.outcome is Err || name == ".".spec_bytes() || name == "..".spec_bytes() {
            before
        } else if path.len() + 1 + name.len() > 1024 {
            Ext4Walk { outcome: Err(Ext4Error::NameTooLong), ..before }
        } else {
            match inode_of(medium, layout, entries.last().inode_number) {
                Err(error) => Ext4Walk { outcome: Err(error), ..before },
                Ok(child) => if child.directory() {
                    let inner = directory_visited(medium, layout, child, full_path);
                    Ext4Walk { files: before.files + inner.files, outcome: inner.outcome }
                } else if !valid_utf8(full_path) {
                    Ext4Walk { outcome: Err(Ext4Error::InvalidDirectoryEntry), ..before }
                } else {
                    Ext4Walk {
                        files: before.files.push(
                            Ext4Walked { path: full_path, size: child.size_bytes },
                        ),
                        ..before
                    }
                },
            }
        }
    }
}

/// The walk over everything below the directory at `path`.
pub open spec fn directory_visited(
    medium: Seq<u8>,
    layout: Ext4Layout,
    directory: InodeRecord,
    path: Seq<u8>,
) -> Ext4Walk
    decreases 1024 - path.len(), 1int, 0int,
{
    match directory_listing(medium, layout, directory) {
        Err(error) => Ext4Walk { files: Seq::empty(), outcome: Err(error) },
        Ok(listing) => {
            let walk = entries_visited(medium, layout, listing.entries, path);
            if walk.outcome is Ok && listing.malformed {
                Ext4Walk { outcome: Err(Ext4Error::InvalidDirectoryEntry), ..walk }
            } else {
                walk
            }
        },
    }
}

/// The inode that a requested path leads to. The path must not be empty.
pub open spec fn requested_inode(medium: Seq<u8>, layout: Ext4Layout, path: Seq<u8>) -> Result<
    InodeRecord,
    Ext4Error,
> {
    if path.len() == 0 {
        Err(Ext4Error::InvalidPath)
    } else {
        path_inode(medium, layout, 2, path, 0)
    }
}

/// The walk over everything below the directory that `path` names.
pub open spec fn path_visited(medium: Seq<u8>, layout: Ext4Layout, path: Seq<u8>) -> Ext4Walk {
    match requested_inode(medium, layout, path) {
        Err(error) => Ext4Walk { files: Seq::empty(), outcome: Err(error) },
        Ok(inode) => {
            let top = if trimmed(path).len() == 0 {
                Seq::empty()
            } else {
                seq![0x2fu8] + trimmed(path)
            };
            if !inode.directory() {
                Ext4Walk { files: Seq::empty(), outcome: Err(Ext4Error::NotDirectory) }
            } else if top.len() > 1024 {
                Ext4Walk { files: Seq::empty(), outcome: Err(Ext4Error::NameTooLong) }
            } else {
                directory_visited(medium, layout, inode, top)
            }
        },
    }
}

/// The contents of the file at `path`, or why it cannot be read.
pub open spec fn ext4_file_at(medium: Seq<u8>, layout: Ext4Layout, path: Seq<u8>) -> Result<
    Seq<u8>,
    Ext4Error,
> {
    match requested_inode(medium, layout, path) {
        Err(error) => Err(error),
        Ok(inode) => inode_contents(medium, layout, inode),
    }
}

/// Laying extents over data keeps its size.
pub proof fn laying_keeps_size(
    medium: Seq<u8>,
    layout: Ext4Layout,
    extents: Seq<Ext4Extent>,
    data: Seq<u8>,
    index: int,
)
    ensures
        extents_laid(medium, layout, extents, data, index).len() == data.len(),
    decreases extents.len() - index,
{
    if 0 <= index < extents.len() {
        let offset = extents[index].logical_block * layout.block_size;
        assert(offset >= 0) by (nonlinear_arith)
            requires
                offset == extents[index].logical_block * layout.block_size,
        ;
        assert(extents[index].block_count * layout.block_size >= 0) by (nonlinear_arith);
        if offset < data.len() {
            let next = extent_laid(medium, layout, extents[index], data);
            assert(next.len() == data.len());
            laying_keeps_size(medium, layout, extents, next, index + 1);
        }
    }
}

/// A file that can be read has as many bytes as its inode says.
pub proof fn contents_have_size(medium: Seq<u8>, layout: Ext4Layout, inode: InodeRecord)
    ensures
        inode_contents(medium, layout, inode) matches Ok(data) ==> data.len() == inode.size_bytes,
{
    if let Ok(extents) = inode_extents(medium, layout, inode) {
        laying_keeps_size(
            medium,
            layout,
            extents,
            Seq::new(inode.size_bytes as nat, |i: int| 0u8),
            0,
        );
    }
}

/// An inode never has more than 128 extents.
pub proof fn extents_are_bounded(
    medium: Seq<u8>,
    layout: Ext4Layout,
    node: Seq<u8>,
    before: Seq<Ext4Extent>,
    levels: nat,
)
    requires
        before.len() <= 128,
    ensures
        node_extents(medium, layout, node, before, levels) matches Ok(extents) ==> extents.len()
            <= 128,
    decreases levels, 1int, 0int,
{
    if le16(node, 6) == 0 {
        leaf_is_bounded(node, before, 0);
    } else {
        index_is_bounded(medium, layout, node, before, 0, levels);
    }
}

proof fn leaf_is_bounded(node: Seq<u8>, before: Seq<Ext4Extent>, index: int)
    requires
        before.len() <= 128,
    ensures
        leaf_extents(node, before, index) matches Ok(extents) ==> extents.len() <= 128,
    decreases le16(node, 2) - index,
{
    if index < le16(node, 2) {
        let extent = extent_at(node, 12 + index * 12);
        if before.len() < 128 {
            leaf_is_bounded(node, before.push(extent), index + 1);
        }
    }
}

proof fn index_is_bounded(
    medium: Seq<u8>,
    layout: Ext4Layout,
    node: Seq<u8>,
    before: Seq<Ext4Extent>,
    index: int,
    levels: nat,
)
    requires
        before.len() <= 128,
    ensures
        index_extents(medium, layout, node, before, index, levels) matches Ok(extents)
            ==> extents.len() <= 128,
    decreases levels, 0int, le16(node, 2) - index,
{
    if index < le16(node, 2) && levels > 0 {
        let child = block_bytes(medium, layout, child_block(node, index));
        extents_are_bounded(medium, layout, child, before, (levels - 1) as nat);
        if let Ok(more) = node_extents(medium, layout, child, before, (levels - 1) as nat) {
            index_is_bounded(medium, layout, node, more, index + 1, levels);
        }
    }
}

/// Whether `shorter` is the beginning of `longer`.
pub open spec fn begins_listing(shorter: Seq<Ext4Named>, longer: Seq<Ext4Named>) -> bool {
    shorter.len() <= longer.len() && longer.take(shorter.len() as int) == shorter
}

proof fn beginnings_chain(a: Seq<Ext4Named>, b: Seq<Ext4Named>, c: Seq<Ext4Named>)
    requires
        begins_listing(a, b),
        begins_listing(b, c),
    ensures
        begins_listing(a, c),
{
    assert(c.take(a.len() as int) =~= b.take(a.len() as int));
}

/// Reading on in a directory block only appends entries.
pub proof fn block_listing_appends(listing: Ext4Listing, block: Seq<u8>, offset: int)
    ensures
        begins_listing(listing.entries, block_listed(listing, block, offset).entries),
    decreases block.len() - offset,
{
    assert(listing.entries.take(listing.entries.len() as int) =~= listing.entries);
    if listing.malformed || offset < 0 || offset + 8 > block.len() {
    } else if record_sound(block, offset) {
        let number = le32(block, offset);
        let name = block.subrange(offset + 8, offset + 8 + block[offset + 6]);
        let next = if number != 0 {
            Ext4Listing {
                entries: listing.entries.push(Ext4Named { name, inode_number: number }),
                ..listing
            }
        } else {
            listing
        };
        assert(next.entries.take(listing.entries.len() as int) =~= listing.entries);
        block_listing_appends(next, block, offset + le16(block, offset + 4));
        beginnings_chain(
            listing.entries,
            next.entries,
            block_listed(listing, block, offset).entries,
        );
    }
}

/// Reading on in a directory only appends entries.
pub proof fn completing_appends(
    medium: Seq<u8>,
    layout: Ext4Layout,
    extents: Seq<Ext4Extent>,
    listing: Ext4Listing,
    index: int,
    offset: int,
)
    ensures
        begins_listing(
            listing.entries,
            listing_completed(medium, layout, extents, listing, index, offset).entries,
        ),
    decreases
            extents.len() - index,
            (if 0 <= index < extents.len() {
                extents[index].block_count - offset
            } else {
                0
            }),
{
    assert(listing.entries.take(listing.entries.len() as int) =~= listing.entries);
    if listing.malformed || index < 0 || index >= extents.len() {
    } else if offset >= extents[index].block_count {
        completing_appends(medium, layout, extents, listing, index + 1, 0);
    } else {
        let block = block_bytes(medium, layout, extents[index].physical_block + offset);
        let next = block_listed(listing, block, 0);
        block_listing_appends(listing, block, 0);
        completing_appends(medium, layout, extents, next, index, offset + 1);
        beginnings_chain(
            listing.entries,
            next.entries,
            listing_completed(medium, layout, extents, listing, index, offset).entries,
        );
    }
}

/// A name found among the first entries is found among all, and one that is not
/// can only be found behind them.
pub proof fn number_survives(
    shorter: Seq<Ext4Named>,
    longer: Seq<Ext4Named>,
    component: Seq<u8>,
    from: int,
)
    requires
        begins_listing(shorter, longer),
        0 <= from <= shorter.len(),
    ensures
        number_from(shorter, component, from) is Some ==> number_from(longer, component, from)
            == number_from(shorter, component, from),
        number_from(shorter, component, from) is None ==> number_from(longer, component, from)
            == number_from(longer, component, shorter.len() as int),
    decreases shorter.len() - from,
{
    if from < shorter.len() {
        assert(longer[from] == longer.take(shorter.len() as int)[from]);
        number_survives(shorter, longer, component, from + 1);
    }
}

/// A walk that met an error does not go on.
pub proof fn visit_stops_at_error(
    medium: Seq<u8>,
    layout: Ext4Layout,
    shorter: Seq<Ext4Named>,
    longer: Seq<Ext4Named>,
    path: Seq<u8>,
)
    requires
        begins_listing(shorter, longer),
        entries_visited(medium, layout, shorter, path).outcome is Err,
    ensures
        entries_visited(medium, layout, longer, path) == entries_visited(
            medium,
            layout,
            shorter,
            path,
        ),
    decreases longer.len(),
{
    if longer.len() == shorter.len() {
        assert(longer.take(shorter.len() as int) =~= longer);
    } else {
        assert(longer.drop_last().take(shorter.len() as int) =~= longer.take(shorter.len() as int));
        visit_stops_at_error(medium, layout, shorter, longer.drop_last(), path);
    }
}

/// A walk over more entries begins with the walk over the first ones.
pub proof fn visit_begins(
    medium: Seq<u8>,
    layout: Ext4Layout,
    shorter: Seq<Ext4Named>,
    longer: Seq<Ext4Named>,
    path: Seq<u8>,
)
    requires
        begins_listing(shorter, longer),
    ensures
        ({
            let part = entries_visited(medium, layout, shorter, path).files;
            let walked = entries_visited(medium, layout, longer, path).files;
            part.len() <= walked.len() && part == walked.take(part.len() as int)
        }),
    decreases longer.len(),
{
    let part = entries_visited(medium, layout, shorter, path).files;
    let walked = entries_visited(medium, layout, longer, path).files;
    if longer.len() == shorter.len() {
        assert(longer.take(shorter.len() as int) =~= longer);
        assert(walked.take(part.len() as int) =~= walked);
    } else {
        assert(longer.drop_last().take(shorter.len() as int) =~= longer.take(shorter.len() as int));
        visit_begins(medium, layout, shorter, longer.drop_last(), path);
        assert(walked.take(part.len() as int) =~= entries_visited(
            medium,
            layout,
            longer.drop_last(),
            path,
        ).files.take(part.len() as int));
    }
}

} // verus!
