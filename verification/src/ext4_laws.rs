//! What is written to an ext4 volume is what is read from it.

use vstd::prelude::*;
use crate::bytes::{le16, le32};
use crate::ext4_format::{
    block_bytes, block_listed, child_block, extent_at, extent_laid, extent_share, extents_laid,
    group_descriptor, index_extents, inode_contents, inode_extents, inode_of, inode_position,
    inode_table, laying_keeps_size, leaf_extents, listing_completed, node_extents, record_sound,
    superblock_layout, symlink_target, volume_bytes, zero_padded, Ext4Error, Ext4Extent, Ext4Layout,
    Ext4Listing, Ext4Named, InodeRecord,
};
use crate::fat_laws::{all_sized, joined, joined_part_stored};
use crate::records::{
    le16_stored, le32_stored, stored, stored_is_there, stored_parts, window_is_part,
};
use crate::virtqueue_memory::{le16_bytes, le32_bytes};

verus! {

/// What a superblock tells, and the bytes between.
pub struct SuperblockFields {
    pub front: Seq<u8>,
    pub block_exponent: u32,
    pub cluster_exponent: u32,
    pub blocks_per_group: u32,
    pub clusters_per_group: u32,
    pub inodes_per_group: u32,
    pub times: Seq<u8>,
    pub magic: u16,
    pub states: Seq<u8>,
    pub inode_size: u16,
    pub group: Seq<u8>,
    pub features: u32,
    pub names: Seq<u8>,
    pub descriptor_size: u16,
}

/// Whether the bytes between the fields take the places that they have.
pub open spec fn superblock_shape(fields: SuperblockFields) -> bool {
    &&& fields.front.len() == 24
    &&& fields.times.len() == 12
    &&& fields.states.len() == 30
    &&& fields.group.len() == 6
    &&& fields.names.len() == 154
}

/// The first 256 bytes of a superblock.
#[verifier::opaque]
pub open spec fn superblock_image(fields: SuperblockFields) -> Seq<u8> {
    fields.front + le32_bytes(fields.block_exponent) + le32_bytes(fields.cluster_exponent)
        + le32_bytes(fields.blocks_per_group) + le32_bytes(fields.clusters_per_group) + le32_bytes(
        fields.inodes_per_group,
    ) + fields.times + le16_bytes(fields.magic) + fields.states + le16_bytes(fields.inode_size)
        + fields.group + le32_bytes(fields.features) + fields.names + le16_bytes(
        fields.descriptor_size,
    )
}

#[verifier::spinoff_prover]
#[verifier::rlimit(40)]
proof fn superblock_fields_stored(superblock: Seq<u8>, fields: SuperblockFields)
    requires
        superblock_shape(fields),
        stored(superblock, 0, superblock_image(fields)),
    ensures
        le32(superblock, 0x18) == fields.block_exponent,
        le32(superblock, 0x20) == fields.blocks_per_group,
        le32(superblock, 0x28) == fields.inodes_per_group,
        le16(superblock, 0x38) == fields.magic,
        le16(superblock, 0x58) == fields.inode_size,
        le32(superblock, 0x60) == fields.features,
        le16(superblock, 0xfe) == fields.descriptor_size,
{
    reveal(superblock_image);
    let p0 = fields.front;
    let p1 = p0 + le32_bytes(fields.block_exponent);
    let p2 = p1 + le32_bytes(fields.cluster_exponent);
    let p3 = p2 + le32_bytes(fields.blocks_per_group);
    let p4 = p3 + le32_bytes(fields.clusters_per_group);
    let p5 = p4 + le32_bytes(fields.inodes_per_group);
    let p6 = p5 + fields.times;
    let p7 = p6 + le16_bytes(fields.magic);
    let p8 = p7 + fields.states;
    let p9 = p8 + le16_bytes(fields.inode_size);
    let p10 = p9 + fields.group;
    let p11 = p10 + le32_bytes(fields.features);
    let p12 = p11 + fields.names;
    stored_parts(superblock, 0, p12, le16_bytes(fields.descriptor_size));
    stored_parts(superblock, 0, p11, fields.names);
    stored_parts(superblock, 0, p10, le32_bytes(fields.features));
    stored_parts(superblock, 0, p9, fields.group);
    stored_parts(superblock, 0, p8, le16_bytes(fields.inode_size));
    stored_parts(superblock, 0, p7, fields.states);
    stored_parts(superblock, 0, p6, le16_bytes(fields.magic));
    stored_parts(superblock, 0, p5, fields.times);
    stored_parts(superblock, 0, p4, le32_bytes(fields.inodes_per_group));
    stored_parts(superblock, 0, p3, le32_bytes(fields.clusters_per_group));
    stored_parts(superblock, 0, p2, le32_bytes(fields.blocks_per_group));
    stored_parts(superblock, 0, p1, le32_bytes(fields.cluster_exponent));
    stored_parts(superblock, 0, p0, le32_bytes(fields.block_exponent));
    le32_stored(superblock, 0x18, fields.block_exponent);
    le32_stored(superblock, 0x20, fields.blocks_per_group);
    le32_stored(superblock, 0x28, fields.inodes_per_group);
    le16_stored(superblock, 0x38, fields.magic);
    le16_stored(superblock, 0x58, fields.inode_size);
    le32_stored(superblock, 0x60, fields.features);
    le16_stored(superblock, 0xfe, fields.descriptor_size);
}

/// Whether incompatible features are those that can be read: file types in directories, a
/// journal to be replayed, extents, 64-bit block numbers and flexible groups.
pub open spec fn features_known(features: u32) -> bool {
    features == (features & 2) | (features & 4) | (features & 0x40) | (features & 0x80) | (features
        & 0x200)
}

/// A superblock is accepted exactly when it is one of ext4, blocks have 1024, 2048 or 4096
/// bytes, inodes fit into 512 bytes, its features are known, its groups are not empty and its
/// descriptors have 32 or 64 bytes. The volume then has what it tells.
#[verifier::spinoff_prover]
#[verifier::rlimit(40)]
pub proof fn written_superblock_is_read(superblock: Seq<u8>, fields: SuperblockFields, start: u64)
    requires
        superblock_shape(fields),
        stored(superblock, 0, superblock_image(fields)),
    ensures
        match superblock_layout(superblock, start) {
            Ok(layout) => fields.magic == 0xef53 && fields.block_exponent <= 2 && 1
                <= fields.inode_size <= 512 && features_known(fields.features)
                && fields.blocks_per_group > 0 && fields.inodes_per_group > 0 && (
            fields.descriptor_size == 0 || fields.descriptor_size == 32 || fields.descriptor_size
                == 64) && layout.partition_start_lba == start && layout.block_size == (
            if fields.block_exponent == 0 {
                1024int
            } else if fields.block_exponent == 1 {
                2048
            } else {
                4096
            }) && layout.inodes_per_group == fields.inodes_per_group && layout.inode_size
                == fields.inode_size && layout.group_descriptor_size == (
            if fields.descriptor_size == 64 {
                64int
            } else {
                32
            }),
            Err(error) => if fields.magic != 0xef53 || fields.block_exponent >= 32 {
                error == Ext4Error::InvalidSuperblock
            } else if fields.block_exponent > 2 {
                error is UnsupportedBlockSize
            } else if fields.inode_size == 0 || fields.inode_size > 512 {
                error == Ext4Error::UnsupportedInodeSize(fields.inode_size)
            } else if !features_known(fields.features) {
                error is UnsupportedIncompatibleFeatures
            } else {
                error == Ext4Error::InvalidSuperblock && (fields.blocks_per_group == 0
                    || fields.inodes_per_group == 0 || !(fields.descriptor_size == 0
                    || fields.descriptor_size == 32 || fields.descriptor_size == 64))
            },
        },
{
    superblock_fields_stored(superblock, fields);
    let exponent = fields.block_exponent;
    let features = fields.features;
    assert(1024u32 << 0u32 == 1024 && 1024u32 << 1u32 == 2048 && 1024u32 << 2u32 == 4096)
        by (bit_vector);
    assert(3 <= exponent && exponent < 32 ==> (1024u32 << exponent) == 0 || (1024u32 << exponent)
        > 4096) by (bit_vector);
    assert((features & !0x02c6u32 == 0) <==> (features == (features & 2) | (features & 4) | (features
        & 0x40) | (features & 0x80) | (features & 0x200))) by (bit_vector);
}

/// The group descriptors start at the first block boundary behind the superblock, which takes
/// the bytes from 1024 to 2048 of the volume.
pub proof fn descriptors_follow_superblock(layout: Ext4Layout)
    requires
        layout.well_formed(),
    ensures
        ({
            let block = layout.group_descriptor_table_block();
            &&& block * layout.block_size >= 2048
            &&& (block - 1) * layout.block_size < 2048
            &&& block == 1024int / layout.block_size as int + 1
        }),
{
    let size = layout.block_size as int;
    assert(1024int / 1024 == 1 && 1024int / 2048 == 0 && 1024int / 4096 == 0);
    assert(size == 1024 || size == 2048 || size == 4096);
}

/// A byte string on a volume.
pub open spec fn on_volume(medium: Seq<u8>, layout: Ext4Layout, at: int, part: Seq<u8>) -> bool {
    stored(medium, layout.partition_start_lba * 512 + at, part)
}

/// What stands on a volume is what is read of it.
proof fn on_volume_is_read(medium: Seq<u8>, layout: Ext4Layout, at: int, part: Seq<u8>)
    requires
        on_volume(medium, layout, at, part),
    ensures
        volume_bytes(medium, layout, at, part.len() as int) == part,
{
    let start = layout.partition_start_lba * 512 + at;
    stored_is_there(medium, start, part);
    window_is_part(medium, start, part.len() as int);
}

/// A group descriptor with the block of its inode table. The high half stands in descriptors
/// of 64 bytes only.
#[verifier::opaque]
pub open spec fn descriptor_image(table: u64, front: Seq<u8>, middle: Seq<u8>, back: Seq<u8>, wide: bool) -> Seq<
    u8,
> {
    let narrow = front + le32_bytes((table % 0x1_0000_0000) as u32) + middle;
    if wide {
        narrow + le32_bytes((table / 0x1_0000_0000) as u32) + back
    } else {
        narrow
    }
}

/// Whether the bytes between the fields of a descriptor take the places that they have.
pub open spec fn descriptor_shape(front: Seq<u8>, middle: Seq<u8>, back: Seq<u8>, wide: bool) -> bool {
    &&& front.len() == 8
    &&& wide ==> middle.len() == 28 && back.len() == 20
    &&& !wide ==> middle.len() == 20
}

#[verifier::spinoff_prover]
#[verifier::rlimit(30)]
proof fn descriptor_fields(table: u64, front: Seq<u8>, middle: Seq<u8>, back: Seq<u8>, wide: bool)
    requires
        descriptor_shape(front, middle, back, wide),
    ensures
        ({
            let image = descriptor_image(table, front, middle, back, wide);
            &&& image.len() == if wide {
                64int
            } else {
                32
            }
            &&& le32(image, 8) == table % 0x1_0000_0000
            &&& wide ==> le32(image, 40) == table / 0x1_0000_0000
        }),
{
    reveal(descriptor_image);
    let low = (table % 0x1_0000_0000) as u32;
    let high = (table / 0x1_0000_0000) as u32;
    let image = descriptor_image(table, front, middle, back, wide);
    let narrow = front + le32_bytes(low) + middle;
    crate::records::stored_whole(image);
    if wide {
        stored_parts(image, 0, narrow + le32_bytes(high), back);
        stored_parts(image, 0, narrow, le32_bytes(high));
        le32_stored(image, 40, high);
    }
    stored_parts(image, 0, front + le32_bytes(low), middle);
    stored_parts(image, 0, front, le32_bytes(low));
    le32_stored(image, 8, low);
}

/// The inode table of a group is where its descriptor says, of the descriptors that stand one
/// behind the other from the first block boundary behind the superblock on.
#[verifier::spinoff_prover]
#[verifier::rlimit(30)]
pub proof fn written_descriptor_is_read(
    medium: Seq<u8>,
    layout: Ext4Layout,
    descriptors: Seq<Seq<u8>>,
    group: int,
    table: u64,
    front: Seq<u8>,
    middle: Seq<u8>,
    back: Seq<u8>,
)
    requires
        layout.well_formed(),
        all_sized(descriptors, layout.group_descriptor_size as nat),
        on_volume(
            medium,
            layout,
            (1024int / layout.block_size as int + 1) * layout.block_size,
            joined(descriptors),
        ),
        0 <= group < descriptors.len(),
        descriptor_shape(front, middle, back, layout.group_descriptor_size == 64),
        descriptors[group] == descriptor_image(
            table,
            front,
            middle,
            back,
            layout.group_descriptor_size == 64,
        ),
        layout.group_descriptor_size == 32 ==> table <= u32::MAX,
    ensures
        inode_table(medium, layout, group) == table,
{
    let size = layout.group_descriptor_size as nat;
    let wide = layout.group_descriptor_size == 64;
    let at = (1024int / layout.block_size as int + 1) * layout.block_size;
    let start = layout.partition_start_lba * 512 + at;
    let image = descriptors[group];
    descriptors_follow_superblock(layout);
    joined_part_stored(medium, start, descriptors, size, group);
    descriptor_fields(table, front, middle, back, wide);
    assert(on_volume(medium, layout, at + group * size, image));
    on_volume_is_read(medium, layout, at + group * size, image);
    let read = group_descriptor(medium, layout, group);
    assert(volume_bytes(medium, layout, at + group * size, image.len() as int) == image);
    assert(forall|i: int| 0 <= i < image.len() ==> read[i] == image[i]);
    assert(le32(read, 8) == le32(image, 8));
    if wide {
        assert(le32(read, 40) == le32(image, 40));
    }
    assert(table == table / 0x1_0000_0000 * 0x1_0000_0000 + table % 0x1_0000_0000);
}

/// What an inode record tells, and the bytes between.
pub struct InodeFields {
    pub mode: u16,
    pub owner: Seq<u8>,
    pub size: u64,
    pub times: Seq<u8>,
    pub flags: u32,
    pub version: Seq<u8>,
    pub block_data: Seq<u8>,
    pub generation: Seq<u8>,
    pub rest: Seq<u8>,
}

/// Whether the bytes between the fields take the places that they have.
pub open spec fn inode_shape(fields: InodeFields, inode_size: int) -> bool {
    &&& fields.owner.len() == 2
    &&& fields.times.len() == 24
    &&& fields.version.len() == 4
    &&& fields.block_data.len() == 60
    &&& fields.generation.len() == 8
    &&& fields.rest.len() == inode_size - 112
}

/// The record of an inode.
#[verifier::opaque]
pub open spec fn inode_image(fields: InodeFields) -> Seq<u8> {
    le16_bytes(fields.mode) + fields.owner + le32_bytes((fields.size % 0x1_0000_0000) as u32)
        + fields.times + le32_bytes(fields.flags) + fields.version + fields.block_data
        + fields.generation + le32_bytes((fields.size / 0x1_0000_0000) as u32) + fields.rest
}

#[verifier::spinoff_prover]
#[verifier::rlimit(40)]
proof fn inode_image_fields(fields: InodeFields, inode_size: int)
    requires
        inode_shape(fields, inode_size),
    ensures
        ({
            let image = inode_image(fields);
            &&& image.len() == inode_size
            &&& le16(image, 0) == fields.mode
            &&& le32(image, 4) == fields.size % 0x1_0000_0000
            &&& le32(image, 0x20) == fields.flags
            &&& image.subrange(40, 100) == fields.block_data
            &&& le32(image, 0x6c) == fields.size / 0x1_0000_0000
        }),
{
    reveal(inode_image);
    let image = inode_image(fields);
    let low = (fields.size % 0x1_0000_0000) as u32;
    let high = (fields.size / 0x1_0000_0000) as u32;
    let p0 = le16_bytes(fields.mode);
    let p1 = p0 + fields.owner;
    let p2 = p1 + le32_bytes(low);
    let p3 = p2 + fields.times;
    let p4 = p3 + le32_bytes(fields.flags);
    let p5 = p4 + fields.version;
    let p6 = p5 + fields.block_data;
    let p7 = p6 + fields.generation;
    let p8 = p7 + le32_bytes(high);
    crate::records::stored_whole(image);
    stored_parts(image, 0, p8, fields.rest);
    stored_parts(image, 0, p7, le32_bytes(high));
    stored_parts(image, 0, p6, fields.generation);
    stored_parts(image, 0, p5, fields.block_data);
    stored_parts(image, 0, p4, fields.version);
    stored_parts(image, 0, p3, le32_bytes(fields.flags));
    stored_parts(image, 0, p2, fields.times);
    stored_parts(image, 0, p1, le32_bytes(low));
    stored_parts(image, 0, p0, fields.owner);
    le16_stored(image, 0, fields.mode);
    le32_stored(image, 4, low);
    le32_stored(image, 0x20, fields.flags);
    le32_stored(image, 0x6c, high);
    stored_is_there(image, 40, fields.block_data);
}

/// An inode is what its record says, of the records that stand one behind the other in the
/// table of its group. Inodes are counted from one, through the groups.
#[verifier::spinoff_prover]
#[verifier::rlimit(30)]
pub proof fn written_inode_is_read(
    medium: Seq<u8>,
    layout: Ext4Layout,
    group: int,
    records: Seq<Seq<u8>>,
    index: int,
    inode_number: u32,
    fields: InodeFields,
)
    requires
        layout.well_formed(),
        inode_shape(fields, layout.inode_size as int),
        all_sized(records, layout.inode_size as nat),
        0 <= index < records.len() <= layout.inodes_per_group,
        0 <= group,
        inode_number == group * layout.inodes_per_group + index + 1,
        inode_table(medium, layout, group) * layout.block_size + records.len() * layout.inode_size
            <= u64::MAX,
        on_volume(
            medium,
            layout,
            inode_table(medium, layout, group) * layout.block_size,
            joined(records),
        ),
        records[index] == inode_image(fields),
    ensures
        inode_of(medium, layout, inode_number) == Ok::<InodeRecord, Ext4Error>(
            InodeRecord {
                inode_number,
                mode: fields.mode,
                size_bytes: fields.size,
                flags: fields.flags,
                block_data: fields.block_data,
            },
        ),
{
    let size = layout.inode_size as nat;
    let per_group = layout.inodes_per_group as int;
    let at = inode_table(medium, layout, group) * layout.block_size;
    let image = records[index];
    vstd::arithmetic::div_mod::lemma_fundamental_div_mod_converse(
        inode_number - 1,
        per_group,
        group,
        index,
    );
    joined_part_stored(
        medium,
        layout.partition_start_lba * 512 + at,
        records,
        size,
        index,
    );
    inode_image_fields(fields, layout.inode_size as int);
    assert(index * size <= records.len() * size && 0 <= index * size) by (nonlinear_arith)
        requires
            0 <= index < records.len(),
    ;
    let position = at + index * size;
    assert(inode_position(medium, layout, inode_number) == position);
    assert(on_volume(medium, layout, position, image));
    on_volume_is_read(medium, layout, position, image);
    let raw = zero_padded(
        volume_bytes(medium, layout, position, layout.inode_size as int),
        512,
    );
    assert(forall|i: int| 0 <= i < image.len() ==> raw[i] == image[i]);
    assert(le16(raw, 0) == le16(image, 0));
    assert(le32(raw, 4) == le32(image, 4));
    assert(le32(raw, 0x20) == le32(image, 0x20));
    assert(le32(raw, 0x6c) == le32(image, 0x6c));
    assert(raw.subrange(40, 100) =~= image.subrange(40, 100));
    assert(fields.size == fields.size / 0x1_0000_0000 * 0x1_0000_0000 + fields.size
        % 0x1_0000_0000);
}

/// The kind of an inode is told by the highest digit of its mode, and whether its data is in
/// extents by one of its flags.
pub proof fn mode_tells_kind(inode: InodeRecord)
    ensures
        inode.directory() <==> inode.mode as int / 0x1000 == 4,
        inode.regular_file() <==> inode.mode as int / 0x1000 == 8,
        inode.symlink() <==> inode.mode as int / 0x1000 == 10,
        inode.extent_mapped() <==> inode.flags as int / 0x8_0000 % 2 == 1,
{
    let mode = inode.mode;
    let flags = inode.flags;
    assert(mode & 0xf000 == 0x1000 * (mode / 0x1000)) by (bit_vector);
    assert((flags & 0x0008_0000 != 0) <==> (flags / 0x8_0000) % 2 == 1) by (bit_vector);
}

/// The header of a node of an extent tree.
pub open spec fn node_header(entries: nat, most: u16, depth: u16, generation: u32) -> Seq<u8> {
    le16_bytes(0xf30a) + le16_bytes(entries as u16) + le16_bytes(most) + le16_bytes(depth)
        + le32_bytes(generation)
}

/// The entry of an extent in a leaf.
pub open spec fn extent_image(extent: Ext4Extent) -> Seq<u8> {
    le32_bytes(extent.logical_block) + le16_bytes(extent.block_count) + le16_bytes(
        (extent.physical_block / 0x1_0000_0000) as u16,
    ) + le32_bytes((extent.physical_block % 0x1_0000_0000) as u32)
}

/// The entries of extents, one behind the other.
pub open spec fn extents_image(extents: Seq<Ext4Extent>) -> Seq<u8>
    decreases extents.len(),
{
    if extents.len() == 0 {
        Seq::empty()
    } else {
        extents_image(extents.drop_last()) + extent_image(extents.last())
    }
}

/// An entry of an index node: the first block below it and the block of its child.
pub open spec fn index_image(first: u32, child: u64) -> Seq<u8> {
    le32_bytes(first) + le32_bytes((child % 0x1_0000_0000) as u32) + le16_bytes(
        (child / 0x1_0000_0000) as u16,
    ) + le16_bytes(0)
}

/// The entries of an index node, one behind the other.
pub open spec fn indexes_image(children: Seq<(u32, u64)>) -> Seq<u8>
    decreases children.len(),
{
    if children.len() == 0 {
        Seq::empty()
    } else {
        indexes_image(children.drop_last()) + index_image(children.last().0, children.last().1)
    }
}

#[verifier::spinoff_prover]
#[verifier::rlimit(30)]
proof fn node_header_stored(
    node: Seq<u8>,
    entries: nat,
    most: u16,
    depth: u16,
    generation: u32,
    rest: Seq<u8>,
)
    requires
        entries <= u16::MAX,
        stored(node, 0, node_header(entries, most, depth, generation) + rest),
    ensures
        le16(node, 0) == 0xf30a,
        le16(node, 2) == entries,
        le16(node, 6) == depth,
        stored(node, 12, rest),
        12 + rest.len() <= node.len(),
{
    let p0 = le16_bytes(0xf30a);
    let p1 = p0 + le16_bytes(entries as u16);
    let p2 = p1 + le16_bytes(most);
    let p3 = p2 + le16_bytes(depth);
    stored_parts(node, 0, p3 + le32_bytes(generation), rest);
    stored_parts(node, 0, p3, le32_bytes(generation));
    stored_parts(node, 0, p2, le16_bytes(depth));
    stored_parts(node, 0, p1, le16_bytes(most));
    stored_parts(node, 0, p0, le16_bytes(entries as u16));
    le16_stored(node, 0, 0xf30a);
    le16_stored(node, 2, entries as u16);
    le16_stored(node, 6, depth);
    stored_is_there(node, 12, rest);
}

/// Whether an extent can be written, and its blocks are initialised.
pub open spec fn extent_fits(extent: Ext4Extent) -> bool {
    extent.physical_block < 0x1_0000_0000_0000 && extent.block_count < 0x8000
}

#[verifier::spinoff_prover]
#[verifier::rlimit(30)]
proof fn extent_entry_stored(node: Seq<u8>, at: int, extents: Seq<Ext4Extent>, index: int)
    requires
        stored(node, at, extents_image(extents)),
        forall|i: int| 0 <= i < extents.len() ==> extent_fits(#[trigger] extents[i]),
    ensures
        extents_image(extents).len() == 12 * extents.len(),
        0 <= index < extents.len() ==> extent_at(node, at + 12 * index) == extents[index],
    decreases extents.len(),
{
    if extents.len() > 0 {
        let earlier = extents.drop_last();
        let last = extents.last();
        let front = extents_image(earlier);
        stored_parts(node, at, front, extent_image(last));
        assert forall|i: int| 0 <= i < earlier.len() implies extent_fits(#[trigger] earlier[i]) by {
            assert(earlier[i] == extents[i]);
        }
        extent_entry_stored(node, at, earlier, index);
        if index == earlier.len() {
            let place = at + front.len();
            let high = (last.physical_block / 0x1_0000_0000) as u16;
            let low = (last.physical_block % 0x1_0000_0000) as u32;
            let p0 = le32_bytes(last.logical_block);
            let p1 = p0 + le16_bytes(last.block_count);
            let p2 = p1 + le16_bytes(high);
            stored_parts(node, place, p2, le32_bytes(low));
            stored_parts(node, place, p1, le16_bytes(high));
            stored_parts(node, place, p0, le16_bytes(last.block_count));
            le32_stored(node, place, last.logical_block);
            le16_stored(node, place + 4, last.block_count);
            le16_stored(node, place + 6, high);
            le32_stored(node, place + 8, low);
            assert(extents[index] == last);
            assert(extent_fits(extents[extents.len() - 1]));
            assert(last.physical_block == high * 0x1_0000_0000 + low);
        } else if 0 <= index < earlier.len() {
            assert(earlier[index] == extents[index]);
        }
    }
}

proof fn leaf_is_read(node: Seq<u8>, before: Seq<Ext4Extent>, extents: Seq<Ext4Extent>, index: int)
    requires
        le16(node, 2) == extents.len(),
        stored(node, 12, extents_image(extents)),
        forall|i: int| 0 <= i < extents.len() ==> extent_fits(#[trigger] extents[i]),
        0 <= index <= extents.len(),
        before.len() + extents.len() - index <= 128,
    ensures
        leaf_extents(node, before, index) == Ok::<Seq<Ext4Extent>, Ext4Error>(
            before + extents.skip(index),
        ),
    decreases extents.len() - index,
{
    if index < extents.len() {
        extent_entry_stored(node, 12, extents, index);
        assert(extent_fits(extents[index]));
        leaf_is_read(node, before.push(extents[index]), extents, index + 1);
        assert(before.push(extents[index]) + extents.skip(index + 1) =~= before + extents.skip(
            index,
        ));
    } else {
        assert(before + extents.skip(index) =~= before);
    }
}

/// A tree of extents: a leaf with extents, or a node with the blocks of its children.
pub enum ExtentTree {
    Leaf { extents: Seq<Ext4Extent> },
    Index { firsts: Seq<u32>, blocks: Seq<u64>, children: Seq<ExtentTree> },
}

/// The extents of a tree, from left to right.
pub open spec fn tree_extents(tree: ExtentTree) -> Seq<Ext4Extent>
    decreases tree,
{
    match tree {
        ExtentTree::Leaf { extents } => extents,
        ExtentTree::Index { firsts, blocks, children } => trees_extents(children),
    }
}

/// The extents of trees, one behind the other.
pub open spec fn trees_extents(trees: Seq<ExtentTree>) -> Seq<Ext4Extent>
    decreases trees,
{
    if trees.len() == 0 {
        Seq::empty()
    } else {
        tree_extents(trees[0]) + trees_extents(trees.drop_first())
    }
}

/// Whether a node of an extent tree is written: its header, its entries, and below it the
/// blocks of its children, of which there are at most `levels` levels.
pub open spec fn tree_written(
    medium: Seq<u8>,
    layout: Ext4Layout,
    node: Seq<u8>,
    tree: ExtentTree,
    most: u16,
    generation: u32,
    levels: nat,
) -> bool
    decreases tree,
{
    match tree {
        ExtentTree::Leaf { extents } => {
            &&& extents.len() <= u16::MAX
            &&& forall|i: int| 0 <= i < extents.len() ==> extent_fits(#[trigger] extents[i])
            &&& stored(
                node,
                0,
                node_header(extents.len(), most, 0, generation) + extents_image(extents),
            )
        },
        ExtentTree::Index { firsts, blocks, children } => {
            &&& 0 < levels <= 5
            &&& children.len() <= u16::MAX
            &&& blocks.len() == children.len()
            &&& firsts.len() == children.len()
            &&& forall|i: int| 0 <= i < blocks.len() ==> #[trigger] blocks[i] < 0x1_0000_0000_0000
            &&& stored(
                node,
                0,
                node_header(children.len(), most, levels as u16, generation) + indexes_image(
                    Seq::new(children.len(), |i: int| (firsts[i], blocks[i])),
                ),
            )
            &&& forall|i: int|
                0 <= i < children.len() ==> tree_written(
                    medium,
                    layout,
                    block_bytes(medium, layout, blocks[i] as int),
                    #[trigger] children[i],
                    most,
                    generation,
                    (levels - 1) as nat,
                )
        },
    }
}

#[verifier::spinoff_prover]
#[verifier::rlimit(30)]
proof fn index_entry_stored(node: Seq<u8>, at: int, children: Seq<(u32, u64)>, index: int)
    requires
        stored(node, at, indexes_image(children)),
        forall|i: int| 0 <= i < children.len() ==> (#[trigger] children[i]).1 < 0x1_0000_0000_0000,
    ensures
        indexes_image(children).len() == 12 * children.len(),
        0 <= index < children.len() ==> le16(node, at + 12 * index + 8) * 0x1_0000_0000 + le32(
            node,
            at + 12 * index + 4,
        ) == children[index].1,
    decreases children.len(),
{
    if children.len() > 0 {
        let earlier = children.drop_last();
        let (first, child) = children.last();
        let front = indexes_image(earlier);
        stored_parts(node, at, front, index_image(first, child));
        assert forall|i: int| 0 <= i < earlier.len() implies (#[trigger] earlier[i]).1
            < 0x1_0000_0000_0000 by {
            assert(earlier[i] == children[i]);
        }
        index_entry_stored(node, at, earlier, index);
        if index == earlier.len() {
            let place = at + front.len();
            let high = (child / 0x1_0000_0000) as u16;
            let low = (child % 0x1_0000_0000) as u32;
            let p0 = le32_bytes(first);
            let p1 = p0 + le32_bytes(low);
            let p2 = p1 + le16_bytes(high);
            stored_parts(node, place, p2, le16_bytes(0));
            stored_parts(node, place, p1, le16_bytes(high));
            stored_parts(node, place, p0, le32_bytes(low));
            le32_stored(node, place + 4, low);
            le16_stored(node, place + 8, high);
            assert(children[children.len() - 1].1 == child);
            assert(child == high * 0x1_0000_0000 + low);
        } else if 0 <= index < earlier.len() {
            assert(earlier[index] == children[index]);
        }
    }
}

/// A tree of extents that is written is read from left to right.
#[verifier::spinoff_prover]
#[verifier::rlimit(30)]
pub proof fn written_extents_are_read(
    medium: Seq<u8>,
    layout: Ext4Layout,
    node: Seq<u8>,
    tree: ExtentTree,
    most: u16,
    generation: u32,
    levels: nat,
    before: Seq<Ext4Extent>,
)
    requires
        levels <= 5,
        tree_written(medium, layout, node, tree, most, generation, levels),
        before.len() + tree_extents(tree).len() <= 128,
    ensures
        node_extents(medium, layout, node, before, levels) == Ok::<Seq<Ext4Extent>, Ext4Error>(
            before + tree_extents(tree),
        ),
    decreases tree, 1int,
{
    match tree {
        ExtentTree::Leaf { extents } => {
            node_header_stored(node, extents.len(), most, 0, generation, extents_image(extents));
            extent_entry_stored(node, 12, extents, 0);
            leaf_is_read(node, before, extents, 0);
            assert(extents.skip(0) =~= extents);
        },
        ExtentTree::Index { firsts, blocks, children } => {
            let entries = Seq::new(children.len(), |i: int| (firsts[i], blocks[i]));
            assert forall|i: int| 0 <= i < entries.len() implies (#[trigger] entries[i]).1
                < 0x1_0000_0000_0000 by {
                assert(blocks[i] < 0x1_0000_0000_0000);
            }
            node_header_stored(
                node,
                children.len(),
                most,
                levels as u16,
                generation,
                indexes_image(entries),
            );
            index_entry_stored(node, 12, entries, 0);
            assert(children.skip(0) =~= children);
            children_are_read(
                medium,
                layout,
                node,
                tree,
                most,
                generation,
                levels,
                before,
                0,
            );
        },
    }
}

#[verifier::spinoff_prover]
#[verifier::rlimit(30)]
proof fn children_are_read(
    medium: Seq<u8>,
    layout: Ext4Layout,
    node: Seq<u8>,
    tree: ExtentTree,
    most: u16,
    generation: u32,
    levels: nat,
    before: Seq<Ext4Extent>,
    index: int,
)
    requires
        levels <= 5,
        tree is Index,
        tree_written(medium, layout, node, tree, most, generation, levels),
        le16(node, 2) == tree->children.len(),
        0 <= index <= tree->children.len(),
        before.len() + trees_extents(tree->children.skip(index)).len() <= 128,
    ensures
        index_extents(medium, layout, node, before, index, levels) == Ok::<
            Seq<Ext4Extent>,
            Ext4Error,
        >(before + trees_extents(tree->children.skip(index))),
    decreases tree, 0int, tree->children.len() - index,
{
    let children = tree->children;
    let blocks = tree->blocks;
    let rest = children.skip(index);
    if index < children.len() {
        let entries = Seq::new(children.len(), |i: int| (tree->firsts[i], blocks[i]));
        assert forall|i: int| 0 <= i < entries.len() implies (#[trigger] entries[i]).1
            < 0x1_0000_0000_0000 by {
            assert(blocks[i] < 0x1_0000_0000_0000);
        }
        node_header_stored(
            node,
            children.len(),
            most,
            levels as u16,
            generation,
            indexes_image(entries),
        );
        index_entry_stored(node, 12, entries, index);
        assert(child_block(node, index) == blocks[index]);
        assert(rest[0] == children[index]);
        assert(rest.drop_first() =~= children.skip(index + 1));
        let child = block_bytes(medium, layout, blocks[index] as int);
        let lower = (levels - 1) as nat;
        assert(tree_written(medium, layout, child, children[index], most, generation, lower));
        written_extents_are_read(
            medium,
            layout,
            child,
            children[index],
            most,
            generation,
            lower,
            before,
        );
        let more = before + tree_extents(children[index]);
        children_are_read(
            medium,
            layout,
            node,
            tree,
            most,
            generation,
            levels,
            more,
            index + 1,
        );
        assert(more + trees_extents(children.skip(index + 1)) =~= before + trees_extents(rest));
    } else {
        assert(before + trees_extents(rest) =~= before);
    }
}

/// Whether an extent covers a byte of a file.
pub open spec fn covers_byte(layout: Ext4Layout, extent: Ext4Extent, place: int) -> bool {
    extent.logical_block * layout.block_size <= place < (extent.logical_block + extent.block_count)
        * layout.block_size
}

/// Whether extents come in the order of the file and do not overlap.
pub open spec fn extents_in_order(extents: Seq<Ext4Extent>) -> bool {
    forall|i: int, j: int|
        0 <= i < j < extents.len() ==> (#[trigger] extents[i]).logical_block
            + extents[i].block_count <= (#[trigger] extents[j]).logical_block
}

/// A byte of a file is the byte of the block that the extent which covers it maps there, and
/// zero where no extent does.
pub open spec fn byte_of_file(
    medium: Seq<u8>,
    layout: Ext4Layout,
    extents: Seq<Ext4Extent>,
    place: int,
    byte: u8,
) -> bool {
    &&& forall|i: int|
        0 <= i < extents.len() && covers_byte(layout, #[trigger] extents[i], place) ==> byte
            == medium[layout.partition_start_lba * 512 + extents[i].physical_block
            * layout.block_size + (place - extents[i].logical_block * layout.block_size)]
    &&& (forall|i: int|
        0 <= i < extents.len() ==> !covers_byte(layout, #[trigger] extents[i], place)) ==> byte == 0
}

/// The contents of a file that is no directory are what its extents map, byte by byte.
pub proof fn file_is_what_extents_map(medium: Seq<u8>, layout: Ext4Layout, inode: InodeRecord)
    requires
        layout.well_formed(),
        !inode.directory(),
        inode.size_bytes > 0,
        inode_extents(medium, layout, inode) matches Ok(extents) && extents_in_order(extents),
    ensures
        inode_contents(medium, layout, inode) matches Ok(data) && data.len() == inode.size_bytes
            && forall|place: int|
            0 <= place < data.len() ==> byte_of_file(
                medium,
                layout,
                inode_extents(medium, layout, inode)->Ok_0,
                place,
                #[trigger] data[place],
            ),
{
    let extents = inode_extents(medium, layout, inode)->Ok_0;
    let blank = Seq::new(inode.size_bytes as nat, |i: int| 0u8);
    laying_keeps_size(medium, layout, extents, blank, 0);
    let data = extents_laid(medium, layout, extents, blank, 0);
    assert forall|place: int| 0 <= place < data.len() implies byte_of_file(
        medium,
        layout,
        extents,
        place,
        #[trigger] data[place],
    ) by {
        laid_byte(medium, layout, extents, blank, 0, place);
    }
}

/// What laying the extents from `index` on does to one byte.
#[verifier::spinoff_prover]
#[verifier::rlimit(30)]
proof fn laid_byte(
    medium: Seq<u8>,
    layout: Ext4Layout,
    extents: Seq<Ext4Extent>,
    data: Seq<u8>,
    index: int,
    place: int,
)
    requires
        layout.well_formed(),
        extents_in_order(extents),
        0 <= index <= extents.len(),
        0 <= place < data.len(),
    ensures
        ({
            let byte = extents_laid(medium, layout, extents, data, index)[place];
            &&& forall|i: int|
                index <= i < extents.len() && covers_byte(layout, #[trigger] extents[i], place)
                    ==> byte == medium[layout.partition_start_lba * 512 + extents[i].physical_block
                    * layout.block_size + (place - extents[i].logical_block * layout.block_size)]
            &&& (forall|i: int|
                index <= i < extents.len() ==> !covers_byte(layout, #[trigger] extents[i], place))
                ==> byte == data[place]
        }),
    decreases extents.len() - index,
{
    let size = layout.block_size as int;
    if index < extents.len() {
        let extent = extents[index];
        let offset = extent.logical_block * size;
        let capacity = extent.block_count * size;
        assert(offset >= 0 && capacity >= 0 && offset + capacity == (extent.logical_block
            + extent.block_count) * size) by (nonlinear_arith)
            requires
                offset == extent.logical_block * size,
                capacity == extent.block_count * size,
                size > 0,
        ;
        assert forall|i: int| index < i < extents.len() implies offset + capacity
            <= #[trigger] extents[i].logical_block * size && offset <= extents[i].logical_block
            * size by {
            let later = extents[i];
            assert(extents[index].logical_block + extents[index].block_count
                <= extents[i].logical_block);
            assert((extent.logical_block + extent.block_count) * size <= later.logical_block * size
                && extent.logical_block * size <= later.logical_block * size) by (nonlinear_arith)
                requires
                    extent.logical_block + extent.block_count <= later.logical_block,
                    size > 0,
            ;
        }
        if offset < data.len() {
            let share = extent_share(layout, extent, data.len() as int);
            let next = extent_laid(medium, layout, extent, data);
            assert(0 <= share && offset + share <= data.len());
            assert(next.len() == data.len());
            laid_byte(medium, layout, extents, next, index + 1, place);
            if covers_byte(layout, extent, place) {
                assert(offset <= place < offset + share);
                let part = volume_bytes(
                    medium,
                    layout,
                    extent.physical_block * layout.block_size,
                    share,
                );
                assert(next[place] == part[place - offset]);
                assert forall|i: int| index + 1 <= i < extents.len() implies !covers_byte(
                    layout,
                    #[trigger] extents[i],
                    place,
                ) by {
                    assert(offset + capacity <= extents[i].logical_block * size);
                }
            } else {
                assert(next[place] == data[place]);
            }
        } else {
            assert forall|i: int| index <= i < extents.len() implies !covers_byte(
                layout,
                #[trigger] extents[i],
                place,
            ) by {
                if i > index {
                    assert(offset <= extents[i].logical_block * size);
                }
            }
        }
    }
}

/// A record of a directory.
pub struct DirectoryRecord {
    pub inode_number: u32,
    pub kind: u8,
    pub name: Seq<u8>,
    pub rest: Seq<u8>,
}

/// Whether a record can be written: the name fits, and the record ends on a word.
pub open spec fn record_fits(record: DirectoryRecord) -> bool {
    let length = 8 + record.name.len() + record.rest.len();
    &&& record.name.len() <= 255
    &&& length <= u16::MAX
    &&& length % 4 == 0
}

/// The bytes of a record: the inode, the length of the record, the length of the name, the
/// kind of the inode, the name, and what fills it up.
#[verifier::opaque]
pub open spec fn record_image(record: DirectoryRecord) -> Seq<u8> {
    le32_bytes(record.inode_number) + le16_bytes(
        (8 + record.name.len() + record.rest.len()) as u16,
    ) + seq![record.name.len() as u8, record.kind] + record.name + record.rest
}

/// The records of a directory block, one behind the other.
pub open spec fn records_image(records: Seq<DirectoryRecord>) -> Seq<u8>
    decreases records.len(),
{
    if records.len() == 0 {
        Seq::empty()
    } else {
        record_image(records[0]) + records_image(records.drop_first())
    }
}

/// The entries of records, in order. A record without an inode is none.
pub open spec fn named_by(records: Seq<DirectoryRecord>) -> Seq<Ext4Named>
    decreases records.len(),
{
    if records.len() == 0 {
        Seq::empty()
    } else {
        let first = records[0];
        let rest = named_by(records.drop_first());
        if first.inode_number == 0 {
            rest
        } else {
            seq![Ext4Named { name: first.name, inode_number: first.inode_number }] + rest
        }
    }
}

#[verifier::spinoff_prover]
#[verifier::rlimit(40)]
proof fn record_stored(block: Seq<u8>, at: int, record: DirectoryRecord)
    requires
        record_fits(record),
        stored(block, at, record_image(record)),
    ensures
        record_image(record).len() == 8 + record.name.len() + record.rest.len(),
        0 <= at,
        at + record_image(record).len() <= block.len(),
        le32(block, at) == record.inode_number,
        le16(block, at + 4) == 8 + record.name.len() + record.rest.len(),
        block[at + 6] == record.name.len(),
        block.subrange(at + 8, at + 8 + record.name.len()) == record.name,
{
    reveal(record_image);
    let length = (8 + record.name.len() + record.rest.len()) as u16;
    let pair = seq![record.name.len() as u8, record.kind];
    let p0 = le32_bytes(record.inode_number);
    let p1 = p0 + le16_bytes(length);
    let p2 = p1 + pair;
    let p3 = p2 + record.name;
    stored_is_there(block, at, record_image(record));
    stored_parts(block, at, p3, record.rest);
    stored_parts(block, at, p2, record.name);
    stored_parts(block, at, p1, pair);
    stored_parts(block, at, p0, le16_bytes(length));
    le32_stored(block, at, record.inode_number);
    le16_stored(block, at + 4, length);
    stored_is_there(block, at + 6, pair);
    assert(block[at + 6 + 0] == pair[0]);
    stored_is_there(block, at + 8, record.name);
}

/// The records of a directory block that is written are listed in order.
#[verifier::spinoff_prover]
#[verifier::rlimit(30)]
pub proof fn written_block_is_listed(
    listing: Ext4Listing,
    block: Seq<u8>,
    at: int,
    records: Seq<DirectoryRecord>,
)
    requires
        !listing.malformed,
        forall|i: int| 0 <= i < records.len() ==> record_fits(#[trigger] records[i]),
        stored(block, at, records_image(records)),
        block.len() < at + records_image(records).len() + 8,
    ensures
        block_listed(listing, block, at) == (Ext4Listing {
            entries: listing.entries + named_by(records),
            malformed: false,
        }),
    decreases records.len(),
{
    stored_is_there(block, at, records_image(records));
    if records.len() == 0 {
        assert(listing.entries + named_by(records) =~= listing.entries);
    } else {
        let first = records[0];
        let rest = records.drop_first();
        assert forall|i: int| 0 <= i < rest.len() implies record_fits(#[trigger] rest[i]) by {
            assert(rest[i] == records[i + 1]);
        }
        assert(record_fits(records[0]));
        stored_parts(block, at, record_image(first), records_image(rest));
        record_stored(block, at, first);
        let next = if first.inode_number != 0 {
            Ext4Listing {
                entries: listing.entries.push(
                    Ext4Named { name: first.name, inode_number: first.inode_number },
                ),
                ..listing
            }
        } else {
            listing
        };
        assert(record_sound(block, at));
        let behind = at + record_image(first).len();
        written_block_is_listed(next, block, behind, rest);
        assert(next.entries + named_by(rest) =~= listing.entries + named_by(records));
    }
}

/// The blocks that extents map, in order.
pub open spec fn mapped_blocks(extents: Seq<Ext4Extent>) -> Seq<int>
    decreases extents.len(),
{
    if extents.len() == 0 {
        Seq::empty()
    } else {
        Seq::new(
            extents[0].block_count as nat,
            |i: int| extents[0].physical_block + i,
        ) + mapped_blocks(extents.drop_first())
    }
}

/// The listing after blocks of a directory, in order.
pub open spec fn blocks_listed(
    medium: Seq<u8>,
    layout: Ext4Layout,
    listing: Ext4Listing,
    blocks: Seq<int>,
) -> Ext4Listing
    decreases blocks.len(),
{
    if blocks.len() == 0 || listing.malformed {
        listing
    } else {
        blocks_listed(
            medium,
            layout,
            block_listed(listing, block_bytes(medium, layout, blocks[0]), 0),
            blocks.drop_first(),
        )
    }
}

/// A directory is listed block by block, through all blocks that its extents map.
pub proof fn directory_is_listed_by_blocks(
    medium: Seq<u8>,
    layout: Ext4Layout,
    extents: Seq<Ext4Extent>,
    listing: Ext4Listing,
    index: int,
    offset: int,
)
    requires
        0 <= index <= extents.len(),
        0 <= offset,
        index < extents.len() ==> offset <= extents[index].block_count,
        index == extents.len() ==> offset == 0,
    ensures
        ({
            let left = mapped_blocks(extents.skip(index)).skip(offset);
            listing_completed(medium, layout, extents, listing, index, offset) == blocks_listed(
                medium,
                layout,
                listing,
                left,
            )
        }),
    decreases
            extents.len() - index,
            (if index < extents.len() {
                extents[index].block_count - offset
            } else {
                0
            }),
{
    let rest = extents.skip(index);
    let left = mapped_blocks(rest).skip(offset);
    if index < extents.len() {
        let extent = extents[index];
        let here = Seq::new(extent.block_count as nat, |i: int| extent.physical_block + i);
        let behind = mapped_blocks(extents.skip(index + 1));
        assert(rest[0] == extent);
        assert(rest.drop_first() =~= extents.skip(index + 1));
        assert(mapped_blocks(rest) == here + behind);
        if listing.malformed {
        } else if offset >= extent.block_count {
            directory_is_listed_by_blocks(medium, layout, extents, listing, index + 1, 0);
            assert(left =~= behind.skip(0));
        } else {
            let next = block_listed(
                listing,
                block_bytes(medium, layout, extent.physical_block + offset),
                0,
            );
            directory_is_listed_by_blocks(medium, layout, extents, next, index, offset + 1);
            assert(left[0] == extent.physical_block + offset);
            assert(left.drop_first() =~= mapped_blocks(rest).skip(offset + 1));
        }
    } else {
        assert(rest =~= Seq::empty());
        assert(left =~= Seq::empty());
    }
}

/// The target of a symlink of at most 60 bytes stands in the inode, where it has no extents.
pub proof fn short_target_stands_in_inode(
    medium: Seq<u8>,
    layout: Ext4Layout,
    inode: InodeRecord,
    target: Seq<u8>,
    rest: Seq<u8>,
)
    requires
        !inode.extent_mapped(),
        inode.block_data == target + rest,
        target.len() <= 60,
        inode.size_bytes == target.len(),
    ensures
        symlink_target(medium, layout, inode) == Ok::<Seq<u8>, Ext4Error>(target),
{
    assert(inode.block_data.take(target.len() as int) =~= target);
}

/// A leaf with an extent whose blocks are not initialised, or with more than 128 extents, is
/// refused.
pub proof fn unreadable_leaf_is_refused(
    node: Seq<u8>,
    before: Seq<Ext4Extent>,
    extents: Seq<Ext4Extent>,
    bad: int,
    index: int,
)
    requires
        le16(node, 2) == extents.len(),
        0 <= index <= bad < extents.len(),
        forall|i: int|
            0 <= i < extents.len() ==> extent_at(node, 12 + 12 * i) == #[trigger] extents[i],
        extents[bad].block_count >= 0x8000 || before.len() + bad - index >= 128,
    ensures
        leaf_extents(node, before, index) == Err::<Seq<Ext4Extent>, Ext4Error>(
            Ext4Error::InvalidExtentTree,
        ),
    decreases bad - index,
{
    assert(extent_at(node, 12 + 12 * index) == extents[index]);
    if index < bad && extents[index].block_count < 0x8000 && before.len() < 128 {
        unreadable_leaf_is_refused(
            node,
            before.push(extents[index]),
            extents,
            bad,
            index + 1,
        );
    }
}

/// A node that does not start with the mark of extent trees, tells of more entries than it
/// holds, or lies more than five levels up, is refused.
pub proof fn other_nodes_are_refused(
    medium: Seq<u8>,
    layout: Ext4Layout,
    node: Seq<u8>,
    before: Seq<Ext4Extent>,
    levels: nat,
)
    requires
        le16(node, 0) != 0xf30a || le16(node, 6) > 5 || (node.len() as int - 12) / 12 < le16(
            node,
            2,
        ),
    ensures
        node_extents(medium, layout, node, before, levels) == Err::<Seq<Ext4Extent>, Ext4Error>(
            Ext4Error::InvalidExtentTree,
        ),
{
}

/// A record of a directory block that is too short for its name, does not end on a word, or
/// passes the block, ends the listing as malformed, with the entries before it.
pub proof fn malformed_record_ends_listing(listing: Ext4Listing, block: Seq<u8>, at: int)
    requires
        !listing.malformed,
        0 <= at,
        at + 8 <= block.len(),
        ({
            let length = le16(block, at + 4);
            length < 8 + block[at + 6] || length % 4 != 0 || at + length > block.len()
        }),
    ensures
        block_listed(listing, block, at) == (Ext4Listing { malformed: true, ..listing }),
{
}

/// Inode zero does not exist.
pub proof fn inode_zero_is_refused(medium: Seq<u8>, layout: Ext4Layout)
    ensures
        inode_of(medium, layout, 0) == Err::<InodeRecord, Ext4Error>(Ext4Error::InvalidInode(0)),
{
}

/// A file without extents cannot be read unless it is empty; a directory is no file.
pub proof fn other_inodes_are_no_files(medium: Seq<u8>, layout: Ext4Layout, inode: InodeRecord)
    ensures
        inode.directory() ==> inode_contents(medium, layout, inode) == Err::<Seq<u8>, Ext4Error>(
            Ext4Error::IsDirectory,
        ),
        !inode.directory() && inode.size_bytes == 0 ==> inode_contents(medium, layout, inode)
            == Ok::<Seq<u8>, Ext4Error>(Seq::empty()),
        !inode.directory() && inode.size_bytes > 0 && !inode.extent_mapped() ==> inode_contents(
            medium,
            layout,
            inode,
        ) == Err::<Seq<u8>, Ext4Error>(Ext4Error::UnsupportedMapping),
{
}

/// The target of a symlink that has extents, or does not fit into the inode, is stored like
/// the contents of a file; one of more than 1024 bytes is refused.
pub proof fn long_target_is_stored_as_contents(
    medium: Seq<u8>,
    layout: Ext4Layout,
    inode: InodeRecord,
)
    ensures
        inode.size_bytes > 1024 ==> symlink_target(medium, layout, inode) == Err::<
            Seq<u8>,
            Ext4Error,
        >(Ext4Error::NameTooLong),
        inode.size_bytes <= 1024 && (inode.extent_mapped() || inode.size_bytes > 60)
            ==> symlink_target(medium, layout, inode) == inode_contents(medium, layout, inode),
{
}

} // verus!
