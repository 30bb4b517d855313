//! What is written to a FAT volume is what is read from it.

use vstd::prelude::*;
use crate::bytes::{le16, le32, window};
use crate::fat::{
    boot_layout, chain_data, chain_next, cluster_sector, directory_start, ends_chain, entry_scanned,
    listing_finished, listing_of, sector_scanned, unread_listing, DirectoryCursor,
    DirectoryLocation, FatError, FatLayout, FatListing, FatType,
};
use crate::records::{
    le16_stored, le32_stored, stored, stored_is_there, stored_parts, stored_within, window_is_part,
};
use crate::virtio::sector_at;
use crate::virtqueue_memory::{le16_bytes, le32_bytes};

verus! {

/// What a boot sector tells of a volume. A size that does not fit into its 16-bit field
/// stands in the 32-bit field, and the 16-bit field is zero.
pub struct BootFields {
    pub sectors_per_cluster: u8,
    pub reserved_sectors: u16,
    pub tables: u8,
    pub root_entries: u16,
    pub narrow_sectors: u16,
    pub media: u8,
    pub narrow_table_sectors: u16,
    pub geometry: (u16, u16),
    pub hidden_sectors: u32,
    pub wide_sectors: u32,
    pub wide_table_sectors: u32,
    pub flags: u16,
    pub version: u16,
    pub root_cluster: u32,
}

/// The fields of a boot sector from byte 11 on, one behind the other.
#[verifier::opaque]
pub open spec fn boot_image(fields: BootFields) -> Seq<u8> {
    le16_bytes(512) + seq![fields.sectors_per_cluster] + le16_bytes(fields.reserved_sectors)
        + seq![fields.tables] + le16_bytes(fields.root_entries) + le16_bytes(fields.narrow_sectors)
        + seq![fields.media] + le16_bytes(fields.narrow_table_sectors) + le16_bytes(
        fields.geometry.0,
    ) + le16_bytes(fields.geometry.1) + le32_bytes(fields.hidden_sectors) + le32_bytes(
        fields.wide_sectors,
    ) + le32_bytes(fields.wide_table_sectors) + le16_bytes(fields.flags) + le16_bytes(
        fields.version,
    ) + le32_bytes(fields.root_cluster)
}

/// Sectors of the volume.
pub open spec fn all_sectors(fields: BootFields) -> int {
    if fields.narrow_sectors != 0 {
        fields.narrow_sectors as int
    } else {
        fields.wide_sectors as int
    }
}

/// Sectors of each file allocation table.
pub open spec fn table_sectors(fields: BootFields) -> int {
    if fields.narrow_table_sectors != 0 {
        fields.narrow_table_sectors as int
    } else {
        fields.wide_table_sectors as int
    }
}

/// The byte at a place where one byte is stored.
proof fn byte_stored(bytes: Seq<u8>, at: int, value: u8)
    requires
        stored(bytes, at, seq![value]),
    ensures
        bytes[at] == value,
{
    stored_is_there(bytes, at, seq![value]);
    assert(bytes[at + 0] == seq![value][0]);
}

#[verifier::spinoff_prover]
#[verifier::rlimit(40)]
proof fn boot_fields_stored(sector: Seq<u8>, fields: BootFields)
    requires
        stored(sector, 11, boot_image(fields)),
    ensures
        le16(sector, 11) == 512,
        sector[13] == fields.sectors_per_cluster,
        le16(sector, 14) == fields.reserved_sectors,
        sector[16] == fields.tables,
        le16(sector, 17) == fields.root_entries,
        le16(sector, 19) == fields.narrow_sectors,
        le16(sector, 22) == fields.narrow_table_sectors,
        le32(sector, 32) == fields.wide_sectors,
        le32(sector, 36) == fields.wide_table_sectors,
        le32(sector, 44) == fields.root_cluster,
{
    reveal(boot_image);
    let p0 = le16_bytes(512);
    let p1 = p0 + seq![fields.sectors_per_cluster];
    let p2 = p1 + le16_bytes(fields.reserved_sectors);
    let p3 = p2 + seq![fields.tables];
    let p4 = p3 + le16_bytes(fields.root_entries);
    let p5 = p4 + le16_bytes(fields.narrow_sectors);
    let p6 = p5 + seq![fields.media];
    let p7 = p6 + le16_bytes(fields.narrow_table_sectors);
    let p8 = p7 + le16_bytes(fields.geometry.0);
    let p9 = p8 + le16_bytes(fields.geometry.1);
    let p10 = p9 + le32_bytes(fields.hidden_sectors);
    let p11 = p10 + le32_bytes(fields.wide_sectors);
    let p12 = p11 + le32_bytes(fields.wide_table_sectors);
    let p13 = p12 + le16_bytes(fields.flags);
    let p14 = p13 + le16_bytes(fields.version);
    stored_parts(sector, 11, p14, le32_bytes(fields.root_cluster));
    stored_parts(sector, 11, p13, le16_bytes(fields.version));
    stored_parts(sector, 11, p12, le16_bytes(fields.flags));
    stored_parts(sector, 11, p11, le32_bytes(fields.wide_table_sectors));
    stored_parts(sector, 11, p10, le32_bytes(fields.wide_sectors));
    stored_parts(sector, 11, p9, le32_bytes(fields.hidden_sectors));
    stored_parts(sector, 11, p8, le16_bytes(fields.geometry.1));
    stored_parts(sector, 11, p7, le16_bytes(fields.geometry.0));
    stored_parts(sector, 11, p6, le16_bytes(fields.narrow_table_sectors));
    stored_parts(sector, 11, p5, seq![fields.media]);
    stored_parts(sector, 11, p4, le16_bytes(fields.narrow_sectors));
    stored_parts(sector, 11, p3, le16_bytes(fields.root_entries));
    stored_parts(sector, 11, p2, seq![fields.tables]);
    stored_parts(sector, 11, p1, le16_bytes(fields.reserved_sectors));
    stored_parts(sector, 11, p0, seq![fields.sectors_per_cluster]);
    le16_stored(sector, 11, 512);
    byte_stored(sector, 13, fields.sectors_per_cluster);
    le16_stored(sector, 14, fields.reserved_sectors);
    byte_stored(sector, 16, fields.tables);
    le16_stored(sector, 17, fields.root_entries);
    le16_stored(sector, 19, fields.narrow_sectors);
    le16_stored(sector, 22, fields.narrow_table_sectors);
    le32_stored(sector, 32, fields.wide_sectors);
    le32_stored(sector, 36, fields.wide_table_sectors);
    le32_stored(sector, 44, fields.root_cluster);
}

/// Whether the parts of a volume follow each other: the reserved sectors, the tables, the
/// root directory in as many sectors as its entries of 32 bytes take, and the clusters, as
/// many whole ones as there are sectors for. The number of clusters tells the variant.
pub open spec fn parts_follow(layout: FatLayout, fields: BootFields, start: u64) -> bool {
    let root_bytes = fields.root_entries * 32;
    let room = all_sectors(fields) - layout.data_first_sector;
    let size = fields.sectors_per_cluster as int;
    &&& layout.partition_start_lba == start
    &&& layout.sectors_per_cluster == fields.sectors_per_cluster
    &&& layout.reserved_sector_count == fields.reserved_sectors
    &&& layout.root_dir_first_sector == fields.reserved_sectors + fields.tables * table_sectors(
        fields,
    )
    &&& layout.root_dir_sectors * 512 >= root_bytes
    &&& layout.root_dir_sectors * 512 < root_bytes + 512
    &&& layout.data_first_sector == layout.root_dir_first_sector + layout.root_dir_sectors
    &&& layout.total_clusters * size <= room < (layout.total_clusters + 1) * size
    &&& layout.total_clusters >= 4085
    &&& layout.fat_type is Fat16 <==> layout.total_clusters < 65525
    &&& layout.fat_type is Fat32 ==> layout.root_cluster == fields.root_cluster
        && fields.root_cluster >= 2
}

/// A volume is accepted exactly when its boot sector tells of at least one sector for each
/// of its parts, of as many sectors as they take, and of clusters enough for FAT16. Its parts
/// then follow each other.
#[verifier::spinoff_prover]
#[verifier::rlimit(40)]
pub proof fn written_boot_sector_is_read(sector: Seq<u8>, fields: BootFields, start: u64)
    requires
        stored(sector, 11, boot_image(fields)),
    ensures
        ({
            let complete = fields.sectors_per_cluster > 0 && fields.reserved_sectors > 0
                && fields.tables > 0 && all_sectors(fields) > 0 && table_sectors(fields) > 0;
            match boot_layout(sector, start) {
                Ok(layout) => complete && parts_follow(layout, fields, start),
                Err(error) => {
                    let root_sectors = (fields.root_entries * 32 + 511) / 512;
                    let room = all_sectors(fields) - fields.reserved_sectors - fields.tables
                        * table_sectors(fields) - root_sectors;
                    let size = fields.sectors_per_cluster as int;
                    if !complete || room < 0 {
                        error == FatError::InvalidBootSector
                    } else if room < 4085 * size {
                        error == FatError::UnsupportedFatType
                    } else {
                        error == FatError::InvalidBootSector && room >= 65525 * size
                            && fields.root_cluster < 2
                    }
                },
            }
        }),
{
    boot_fields_stored(sector, fields);
    let size = fields.sectors_per_cluster as int;
    let first = fields.reserved_sectors + fields.tables * table_sectors(fields);
    let root_sectors = (fields.root_entries * 32 + 511) / 512;
    let room = all_sectors(fields) - first - root_sectors;
    assert(fields.tables * table_sectors(fields) >= 0) by (nonlinear_arith)
        requires
            fields.tables >= 0,
            table_sectors(fields) >= 0,
    ;
    if size > 0 && room >= 0 {
        let count = room / size;
        vstd::arithmetic::div_mod::lemma_fundamental_div_mod(room, size);
        assert(count * size <= room < (count + 1) * size && 0 <= count <= room)
            by (nonlinear_arith)
            requires
                room == size * count + room % size,
                0 <= room % size < size,
                room >= 0,
                size > 0,
        ;
        assert(count < 4085 <==> room < 4085 * size) by (nonlinear_arith)
            requires
                count * size <= room < (count + 1) * size,
                size > 0,
        ;
        assert(count < 65525 <==> room < 65525 * size) by (nonlinear_arith)
            requires
                count * size <= room < (count + 1) * size,
                size > 0,
        ;
    }
}

/// The entries of a file allocation table, one behind the other.
pub open spec fn table_image(values: Seq<u32>, fat_type: FatType) -> Seq<u8>
    decreases values.len(),
{
    if values.len() == 0 {
        Seq::empty()
    } else {
        table_image(values.drop_last(), fat_type) + match fat_type {
            FatType::Fat16 => le16_bytes((values.last() % 0x1_0000) as u16),
            FatType::Fat32 => le32_bytes(values.last()),
        }
    }
}

/// The part of a table entry that counts.
pub open spec fn link_of(value: u32, fat_type: FatType) -> u32 {
    match fat_type {
        FatType::Fat16 => value % 0x1_0000,
        FatType::Fat32 => value % 0x1000_0000,
    }
}

/// Whether a volume holds a file allocation table behind its reserved sectors.
pub open spec fn table_stored(medium: Seq<u8>, layout: FatLayout, values: Seq<u32>) -> bool {
    stored(
        medium,
        (layout.partition_start_lba + layout.reserved_sector_count) * 512,
        table_image(values, layout.fat_type),
    )
}

/// Where the entry of a cluster stands in a table.
#[verifier::spinoff_prover]
#[verifier::rlimit(30)]
proof fn table_entry_stored(
    medium: Seq<u8>,
    at: int,
    values: Seq<u32>,
    fat_type: FatType,
    cluster: int,
)
    requires
        stored(medium, at, table_image(values, fat_type)),
        0 <= cluster < values.len(),
    ensures
        fat_type is Fat16 ==> table_image(values, fat_type).len() == 2 * values.len() && le16(
            medium,
            at + 2 * cluster,
        ) == values[cluster] % 0x1_0000,
        fat_type is Fat32 ==> table_image(values, fat_type).len() == 4 * values.len() && le32(
            medium,
            at + 4 * cluster,
        ) == values[cluster],
    decreases values.len(),
{
    let earlier = values.drop_last();
    let front = table_image(earlier, fat_type);
    let last = values.last();
    match fat_type {
        FatType::Fat16 => {
            stored_parts(medium, at, front, le16_bytes((last % 0x1_0000) as u16));
        },
        FatType::Fat32 => {
            stored_parts(medium, at, front, le32_bytes(last));
        },
    }
    if earlier.len() > 0 {
        table_entry_stored(
            medium,
            at,
            earlier,
            fat_type,
            if cluster < earlier.len() {
                cluster
            } else {
                0
            },
        );
    }
    if cluster == earlier.len() {
        match fat_type {
            FatType::Fat16 => {
                le16_stored(medium, at + front.len(), (last % 0x1_0000) as u16);
            },
            FatType::Fat32 => {
                le32_stored(medium, at + front.len(), last);
            },
        }
    } else {
        assert(earlier[cluster] == values[cluster]);
    }
}

/// The cluster that follows another one is the one that the table was written with. One that
/// is marked bad follows nowhere.
pub proof fn written_link_is_followed(
    medium: Seq<u8>,
    layout: FatLayout,
    values: Seq<u32>,
    cluster: u32,
)
    requires
        table_stored(medium, layout, values),
        2 <= cluster < layout.total_clusters + 2,
        cluster < values.len(),
    ensures
        ({
            let link = link_of(values[cluster as int], layout.fat_type);
            chain_next(medium, layout, cluster) == if link == match layout.fat_type {
                FatType::Fat16 => 0xfff7u32,
                FatType::Fat32 => 0x0fff_fff7u32,
            } {
                Err::<u32, FatError>(FatError::InvalidCluster(link))
            } else {
                Ok(link)
            }
        }),
{
    table_entry_stored(
        medium,
        (layout.partition_start_lba + layout.reserved_sector_count) * 512,
        values,
        layout.fat_type,
        cluster as int,
    );
}

/// Byte strings one behind the other.
pub open spec fn joined(parts: Seq<Seq<u8>>) -> Seq<u8>
    decreases parts.len(),
{
    if parts.len() == 0 {
        Seq::empty()
    } else {
        joined(parts.drop_last()) + parts.last()
    }
}

/// Whether all parts have the same size.
pub open spec fn all_sized(parts: Seq<Seq<u8>>, size: nat) -> bool {
    forall|i: int| 0 <= i < parts.len() ==> (#[trigger] parts[i]).len() == size
}

/// Where a part of the same size as the others stands.
pub proof fn joined_part_stored(
    bytes: Seq<u8>,
    at: int,
    parts: Seq<Seq<u8>>,
    size: nat,
    index: int,
)
    requires
        stored(bytes, at, joined(parts)),
        all_sized(parts, size),
    ensures
        joined(parts).len() == parts.len() * size,
        0 <= index < parts.len() ==> stored(bytes, at + index * size, parts[index]),
    decreases parts.len(),
{
    if parts.len() == 0 {
        assert(0 * size == 0) by (nonlinear_arith);
    } else {
        let earlier = parts.drop_last();
        assert forall|i: int| 0 <= i < earlier.len() implies (#[trigger] earlier[i]).len()
            == size by {
            assert(earlier[i] == parts[i]);
        }
        stored_parts(bytes, at, joined(earlier), parts.last());
        joined_part_stored(bytes, at, earlier, size, index);
        assert(parts[parts.len() - 1].len() == size);
        assert(parts.len() * size == earlier.len() * size + size) by (nonlinear_arith)
            requires
                parts.len() == earlier.len() + 1,
        ;
        if 0 <= index < earlier.len() {
            assert(earlier[index] == parts[index]);
        }
    }
}

/// Bytes of a cluster.
pub open spec fn cluster_bytes(layout: FatLayout) -> nat {
    (layout.sectors_per_cluster * 512) as nat
}

/// Whether a volume holds the contents of its clusters, from the first one on, behind its
/// root directory.
pub open spec fn clusters_stored(
    medium: Seq<u8>,
    layout: FatLayout,
    clusters: Seq<Seq<u8>>,
) -> bool {
    &&& all_sized(clusters, cluster_bytes(layout))
    &&& clusters.len() == layout.total_clusters
    &&& stored(
        medium,
        (layout.partition_start_lba + layout.data_first_sector) * 512,
        joined(clusters),
    )
}

/// Whether a list of clusters is a chain of the table: each is a cluster of the volume, and
/// each but the last is followed by the next one.
pub open spec fn is_chain(layout: FatLayout, values: Seq<u32>, chain: Seq<u32>) -> bool {
    &&& forall|i: int|
        0 <= i < chain.len() ==> 2 <= #[trigger] chain[i] < layout.total_clusters + 2 && chain[i]
            < values.len()
    &&& forall|i: int|
        0 <= i < chain.len() - 1 ==> link_of(values[(#[trigger] chain[i]) as int], layout.fat_type)
            == chain[i + 1]
}

/// The contents of the clusters of a chain, in order.
pub open spec fn chain_contents(clusters: Seq<Seq<u8>>, chain: Seq<u32>) -> Seq<u8>
    decreases chain.len(),
{
    if chain.len() == 0 {
        Seq::empty()
    } else {
        clusters[chain[0] - 2] + chain_contents(clusters, chain.drop_first())
    }
}

/// Where the contents of a cluster are.
proof fn cluster_is_stored(
    medium: Seq<u8>,
    layout: FatLayout,
    clusters: Seq<Seq<u8>>,
    cluster: u32,
)
    requires
        clusters_stored(medium, layout, clusters),
        2 <= cluster < layout.total_clusters + 2,
    ensures
        stored(
            medium,
            (layout.partition_start_lba + cluster_sector(layout, cluster)) * 512,
            clusters[cluster - 2],
        ),
        clusters[cluster - 2].len() == cluster_bytes(layout),
{
    let start = (layout.partition_start_lba + layout.data_first_sector) * 512;
    joined_part_stored(medium, start, clusters, cluster_bytes(layout), cluster - 2);
    let size = layout.sectors_per_cluster as int;
    assert((cluster - 2) * (size * 512) == ((cluster - 2) * size) * 512) by (nonlinear_arith);
}

/// No link of a table to a cluster of the volume is a mark.
proof fn links_are_no_marks(layout: FatLayout, cluster: u32)
    requires
        layout.fat_type is Fat16 ==> layout.total_clusters < 65525,
        layout.fat_type is Fat32 ==> layout.total_clusters < 0x0fff_fff5,
        2 <= cluster < layout.total_clusters + 2,
    ensures
        !ends_chain(layout, cluster),
        layout.fat_type is Fat16 ==> cluster != 0xfff7,
        layout.fat_type is Fat32 ==> cluster != 0x0fff_fff7,
{
}

/// A file that is written to the clusters of a chain is read back, up to its size.
#[verifier::spinoff_prover]
#[verifier::rlimit(30)]
pub proof fn written_file_is_read(
    medium: Seq<u8>,
    layout: FatLayout,
    values: Seq<u32>,
    clusters: Seq<Seq<u8>>,
    chain: Seq<u32>,
    size: nat,
)
    requires
        layout.sectors_per_cluster > 0,
        layout.fat_type is Fat16 ==> layout.total_clusters < 65525,
        layout.fat_type is Fat32 ==> layout.total_clusters < 0x0fff_fff5,
        table_stored(medium, layout, values),
        clusters_stored(medium, layout, clusters),
        is_chain(layout, values, chain),
        chain.len() > 0,
        size <= chain.len() * cluster_bytes(layout),
    ensures
        chain_contents(clusters, chain).len() == chain.len() * cluster_bytes(layout),
        chain_data(medium, layout, chain[0], size) == Ok::<Seq<u8>, FatError>(
            chain_contents(clusters, chain).take(size as int),
        ),
    decreases chain.len(),
{
    let bytes = cluster_bytes(layout);
    let first = chain[0];
    let rest = chain.drop_first();
    let contents = chain_contents(clusters, chain);
    let here = clusters[first - 2];
    let start = (layout.partition_start_lba + cluster_sector(layout, first)) * 512;
    cluster_is_stored(medium, layout, clusters, first);
    stored_is_there(medium, start, here);
    window_is_part(medium, start, here.len() as int);
    assert(chain.len() * bytes == rest.len() * bytes + bytes) by (nonlinear_arith)
        requires
            chain.len() == rest.len() + 1,
    ;
    assert forall|i: int| 0 <= i < rest.len() implies 2 <= #[trigger] rest[i]
        < layout.total_clusters + 2 && rest[i] < values.len() by {
        assert(rest[i] == chain[i + 1]);
    }
    assert forall|i: int| 0 <= i < rest.len() - 1 implies link_of(
        values[(#[trigger] rest[i]) as int],
        layout.fat_type,
    ) == rest[i + 1] by {
        assert(rest[i] == chain[i + 1]);
        assert(rest[i + 1] == chain[i + 2]);
    }
    if rest.len() > 0 {
        let more = if size > bytes {
            (size - bytes) as nat
        } else {
            0
        };
        written_file_is_read(medium, layout, values, clusters, rest, more);
        written_link_is_followed(medium, layout, values, first);
        assert(link_of(values[chain[0] as int], layout.fat_type) == chain[1]);
        links_are_no_marks(layout, chain[1]);
        assert(rest[0] == chain[1]);
    } else {
        assert(rest.len() * bytes == 0) by (nonlinear_arith)
            requires
                rest.len() == 0,
        ;
    }
    if size == 0 {
        assert(contents.take(0) =~= Seq::empty());
    } else if size <= bytes {
        assert(window(medium, start, size as int) =~= contents.take(size as int));
    } else {
        assert(rest.len() > 0);
        let tail = chain_contents(clusters, rest);
        assert(window(medium, start, bytes as int) =~= here);
        assert(here + tail.take(size - bytes) =~= contents.take(size as int));
    }
}

/// The listing after the records of a directory, one by one, up to the one that ends it.
pub open spec fn records_scanned(listing: FatListing, records: Seq<Seq<u8>>) -> FatListing
    decreases records.len(),
{
    if records.len() == 0 || listing.end is Some {
        listing
    } else {
        records_scanned(entry_scanned(listing, records[0]), records.drop_first())
    }
}

/// A directory that is read to its last record has ended.
pub open spec fn ended(listing: FatListing) -> FatListing {
    if listing.end is Some {
        listing
    } else {
        FatListing { end: Some(Ok(())), ..listing }
    }
}

/// Scanning goes on where it stopped.
pub proof fn scanning_joins(listing: FatListing, first: Seq<Seq<u8>>, second: Seq<Seq<u8>>)
    ensures
        records_scanned(listing, first + second) == records_scanned(
            records_scanned(listing, first),
            second,
        ),
    decreases first.len(),
{
    let both = first + second;
    if first.len() == 0 {
        assert(both =~= second);
    } else if !(listing.end is Some) {
        assert(both[0] == first[0]);
        assert(both.drop_first() =~= first.drop_first() + second);
        scanning_joins(entry_scanned(listing, first[0]), first.drop_first(), second);
    } else if second.len() > 0 {
    }
}

/// The records of one sector are scanned one by one.
proof fn sector_holds_records(
    listing: FatListing,
    sector: Seq<u8>,
    records: Seq<Seq<u8>>,
    from: int,
)
    requires
        sector.len() == 512,
        records.len() == 16,
        all_sized(records, 32),
        stored(sector, 0, joined(records)),
        0 <= from <= 16,
    ensures
        sector_scanned(listing, sector, 32 * from) == records_scanned(
            listing,
            records.skip(from),
        ),
    decreases 16 - from,
{
    let rest = records.skip(from);
    if from < 16 && !(listing.end is Some) {
        joined_part_stored(sector, 0, records, 32, from);
        stored_is_there(sector, 32 * from, records[from]);
        assert(sector.subrange(32 * from, 32 * from + 32) == records[from]);
        assert(rest[0] == records[from]);
        assert(rest.drop_first() =~= records.skip(from + 1));
        let next = entry_scanned(listing, records[from]);
        sector_holds_records(next, sector, records, from + 1);
        assert(32 * from + 32 == 32 * (from + 1));
    }
}

/// The records of a run of sectors are scanned one by one, and then reading goes on behind
/// the run.
#[verifier::spinoff_prover]
#[verifier::rlimit(40)]
proof fn run_holds_records(
    medium: Seq<u8>,
    layout: FatLayout,
    listing: FatListing,
    cursor: DirectoryCursor,
    records: Seq<Seq<u8>>,
)
    requires
        cursor.sector + cursor.left <= u32::MAX,
        records.len() == cursor.left * 16,
        all_sized(records, 32),
        stored(medium, (layout.partition_start_lba + cursor.sector) * 512, joined(records)),
    ensures
        ({
            let scanned = records_scanned(listing, records);
            let behind = DirectoryCursor {
                sector: (cursor.sector + cursor.left) as u32,
                left: 0,
                ..cursor
            };
            listing_finished(medium, layout, listing, cursor) == listing_finished(
                medium,
                layout,
                scanned,
                behind,
            )
        }),
    decreases cursor.left,
{
    if listing.end is Some {
    } else if cursor.left == 0 {
        assert(records =~= Seq::empty());
    } else {
        let at = (layout.partition_start_lba + cursor.sector) * 512;
        let here = records.take(16);
        let rest = records.skip(16);
        assert(records =~= here + rest);
        joined_splits(here, rest);
        assert(all_sized(here, 32));
        assert forall|i: int| 0 <= i < rest.len() implies (#[trigger] rest[i]).len() == 32 by {
            assert(rest[i] == records[i + 16]);
        }
        stored_parts(medium, at, joined(here), joined(rest));
        joined_part_stored(medium, at, here, 32, 0);
        let sector = sector_at(medium, layout.partition_start_lba + cursor.sector);
        stored_is_there(medium, at, joined(here));
        stored_within(medium, at, at + 512, 0, joined(here));
        sector_holds_records(listing, sector, here, 0);
        assert(here.skip(0) =~= here);
        let next = DirectoryCursor {
            sector: (cursor.sector + 1) as u32,
            left: (cursor.left - 1) as u32,
            ..cursor
        };
        assert((layout.partition_start_lba + next.sector) * 512 == at + 512);
        let scanned = records_scanned(listing, here);
        run_holds_records(medium, layout, scanned, next, rest);
        scanning_joins(listing, here, rest);
    }
}

/// Joining two lists joins what they join to.
pub proof fn joined_splits(first: Seq<Seq<u8>>, second: Seq<Seq<u8>>)
    ensures
        joined(first + second) == joined(first) + joined(second),
    decreases second.len(),
{
    if second.len() == 0 {
        assert(first + second =~= first);
        assert(joined(first) + joined(second) =~= joined(first));
    } else {
        assert((first + second).drop_last() =~= first + second.drop_last());
        joined_splits(first, second.drop_last());
        assert(joined(first) + (joined(second.drop_last()) + second.last()) =~= (joined(first)
            + joined(second.drop_last())) + second.last());
    }
}

/// The root directory of a FAT16 volume is what its records say, one by one, from the first
/// sector of its region to the last.
pub proof fn written_root_directory_is_read(
    medium: Seq<u8>,
    layout: FatLayout,
    records: Seq<Seq<u8>>,
)
    requires
        layout.well_formed(),
        layout.fat_type is Fat16,
        records.len() == layout.root_dir_sectors * 16,
        all_sized(records, 32),
        stored(
            medium,
            (layout.partition_start_lba + layout.root_dir_first_sector) * 512,
            joined(records),
        ),
    ensures
        listing_of(medium, layout, DirectoryLocation::RootDirectory) == ended(
            records_scanned(unread_listing(), records),
        ),
{
    let cursor = directory_start(layout, DirectoryLocation::RootDirectory);
    assert(layout.total_clusters * layout.sectors_per_cluster >= 0) by (nonlinear_arith);
    run_holds_records(medium, layout, unread_listing(), cursor, records);
}

/// The records of the clusters of a chain, in order.
pub open spec fn chain_records(clusters: Seq<Seq<Seq<u8>>>, chain: Seq<u32>) -> Seq<Seq<u8>>
    decreases chain.len(),
{
    if chain.len() == 0 {
        Seq::empty()
    } else {
        clusters[chain[0] - 2] + chain_records(clusters, chain.drop_first())
    }
}

/// A directory in the clusters of a chain is what their records say, one by one. Where the
/// root directory of a FAT32 volume starts the boot sector tells.
pub proof fn written_directory_is_read(
    medium: Seq<u8>,
    layout: FatLayout,
    values: Seq<u32>,
    clusters: Seq<Seq<Seq<u8>>>,
    chain: Seq<u32>,
    location: DirectoryLocation,
)
    requires
        layout.well_formed(),
        layout.fat_type is Fat16 ==> layout.total_clusters < 65525,
        layout.fat_type is Fat32 ==> layout.total_clusters < 0x0fff_fff5,
        table_stored(medium, layout, values),
        is_chain(layout, values, chain),
        0 < chain.len() <= layout.total_clusters,
        ends_chain(layout, link_of(values[chain.last() as int], layout.fat_type)),
        forall|i: int|
            0 <= i < chain.len() ==> cluster_holds(
                medium,
                layout,
                #[trigger] chain[i],
                clusters[chain[i] - 2],
            ),
        match location {
            DirectoryLocation::RootDirectory => layout.fat_type is Fat32 && layout.root_cluster
                == chain[0],
            DirectoryLocation::ClusterChain(cluster) => cluster == chain[0],
        },
    ensures
        listing_of(medium, layout, location) == ended(
            records_scanned(unread_listing(), chain_records(clusters, chain)),
        ),
{
    let cursor = directory_start(layout, location);
    cluster_in_layout(layout, chain[0]);
    chain_is_read(
        medium,
        layout,
        values,
        clusters,
        chain,
        unread_listing(),
        (layout.total_clusters - 1) as u32,
    );
}

/// Whether a cluster holds records of a directory.
pub open spec fn cluster_holds(
    medium: Seq<u8>,
    layout: FatLayout,
    cluster: u32,
    records: Seq<Seq<u8>>,
) -> bool {
    &&& records.len() == layout.sectors_per_cluster * 16
    &&& all_sized(records, 32)
    &&& stored(
        medium,
        (layout.partition_start_lba + layout.data_first_sector) * 512 + (cluster - 2)
            * cluster_bytes(layout),
        joined(records),
    )
}

proof fn cluster_in_layout(layout: FatLayout, cluster: u32)
    requires
        layout.well_formed(),
        2 <= cluster < layout.total_clusters + 2,
    ensures
        0 <= cluster_sector(layout, cluster),
        cluster_sector(layout, cluster) + layout.sectors_per_cluster <= u32::MAX,
        (layout.partition_start_lba + cluster_sector(layout, cluster)) * 512 == (
        layout.partition_start_lba + layout.data_first_sector) * 512 + (cluster - 2)
            * cluster_bytes(layout),
{
    let size = layout.sectors_per_cluster as int;
    assert(0 <= (cluster - 2) * size && (cluster - 2) * size + size <= layout.total_clusters * size)
        by (nonlinear_arith)
        requires
            0 <= cluster - 2 < layout.total_clusters,
            size >= 0,
    ;
    assert((cluster - 2) * (size * 512) == ((cluster - 2) * size) * 512) by (nonlinear_arith);
}

#[verifier::spinoff_prover]
#[verifier::rlimit(40)]
proof fn chain_is_read(
    medium: Seq<u8>,
    layout: FatLayout,
    values: Seq<u32>,
    clusters: Seq<Seq<Seq<u8>>>,
    chain: Seq<u32>,
    listing: FatListing,
    fuel: u32,
)
    requires
        layout.well_formed(),
        layout.fat_type is Fat16 ==> layout.total_clusters < 65525,
        layout.fat_type is Fat32 ==> layout.total_clusters < 0x0fff_fff5,
        table_stored(medium, layout, values),
        is_chain(layout, values, chain),
        0 < chain.len() <= fuel + 1,
        ends_chain(layout, link_of(values[chain.last() as int], layout.fat_type)),
        forall|i: int|
            0 <= i < chain.len() ==> cluster_holds(
                medium,
                layout,
                #[trigger] chain[i],
                clusters[chain[i] - 2],
            ),
    ensures
        listing_finished(
            medium,
            layout,
            listing,
            DirectoryCursor {
                sector: cluster_sector(layout, chain[0]) as u32,
                left: layout.sectors_per_cluster as u32,
                cluster: chain[0],
                fuel,
            },
        ) == ended(records_scanned(listing, chain_records(clusters, chain))),
    decreases chain.len(),
{
    let first = chain[0];
    let rest = chain.drop_first();
    let here = clusters[first - 2];
    assert(cluster_holds(medium, layout, chain[0], clusters[chain[0] - 2]));
    cluster_in_layout(layout, first);
    let cursor = DirectoryCursor {
        sector: cluster_sector(layout, first) as u32,
        left: layout.sectors_per_cluster as u32,
        cluster: first,
        fuel,
    };
    run_holds_records(medium, layout, listing, cursor, here);
    written_link_is_followed(medium, layout, values, first);
    let scanned = records_scanned(listing, here);
    scanning_joins(listing, here, chain_records(clusters, rest));
    if rest.len() == 0 {
        assert(chain.last() == first);
        assert(chain_records(clusters, chain) =~= here);
    } else {
        assert(link_of(values[chain[0] as int], layout.fat_type) == chain[1]);
        assert(rest[0] == chain[1]);
        links_are_no_marks(layout, chain[1]);
        assert forall|i: int| 0 <= i < rest.len() implies 2 <= #[trigger] rest[i]
            < layout.total_clusters + 2 && rest[i] < values.len() by {
            assert(rest[i] == chain[i + 1]);
        }
        assert forall|i: int| 0 <= i < rest.len() - 1 implies link_of(
            values[(#[trigger] rest[i]) as int],
            layout.fat_type,
        ) == rest[i + 1] by {
            assert(rest[i] == chain[i + 1]);
            assert(rest[i + 1] == chain[i + 2]);
        }
        assert forall|i: int| 0 <= i < rest.len() implies cluster_holds(
            medium,
            layout,
            #[trigger] rest[i],
            clusters[rest[i] - 2],
        ) by {
            assert(rest[i] == chain[i + 1]);
        }
        assert(rest.last() == chain.last());
        chain_is_read(medium, layout, values, clusters, rest, scanned, (fuel - 1) as u32);
    }
}

/// A directory whose chain is longer than there are clusters is circular, and is refused where
/// no record of it ends it before.
pub proof fn circular_directory_is_refused(
    medium: Seq<u8>,
    layout: FatLayout,
    values: Seq<u32>,
    clusters: Seq<Seq<Seq<u8>>>,
    chain: Seq<u32>,
)
    requires
        layout.well_formed(),
        layout.fat_type is Fat16 ==> layout.total_clusters < 65525,
        layout.fat_type is Fat32 ==> layout.total_clusters < 0x0fff_fff5,
        table_stored(medium, layout, values),
        is_chain(layout, values, chain),
        chain.len() == layout.total_clusters + 1,
        forall|i: int|
            0 <= i < chain.len() ==> cluster_holds(
                medium,
                layout,
                #[trigger] chain[i],
                clusters[chain[i] - 2],
            ),
        records_scanned(unread_listing(), chain_records(clusters, chain.drop_last())).end is None,
    ensures
        listing_of(medium, layout, DirectoryLocation::ClusterChain(chain[0])).end == Some(
            Err::<(), FatError>(FatError::InvalidCluster(chain.last())),
        ),
{
    circle_is_followed(
        medium,
        layout,
        values,
        clusters,
        chain,
        unread_listing(),
        (layout.total_clusters - 1) as u32,
    );
}

#[verifier::spinoff_prover]
#[verifier::rlimit(40)]
proof fn circle_is_followed(
    medium: Seq<u8>,
    layout: FatLayout,
    values: Seq<u32>,
    clusters: Seq<Seq<Seq<u8>>>,
    chain: Seq<u32>,
    listing: FatListing,
    fuel: u32,
)
    requires
        layout.well_formed(),
        layout.fat_type is Fat16 ==> layout.total_clusters < 65525,
        layout.fat_type is Fat32 ==> layout.total_clusters < 0x0fff_fff5,
        table_stored(medium, layout, values),
        is_chain(layout, values, chain),
        chain.len() == fuel + 2,
        forall|i: int|
            0 <= i < chain.len() ==> cluster_holds(
                medium,
                layout,
                #[trigger] chain[i],
                clusters[chain[i] - 2],
            ),
        records_scanned(listing, chain_records(clusters, chain.drop_last())).end is None,
    ensures
        listing_finished(
            medium,
            layout,
            listing,
            DirectoryCursor {
                sector: cluster_sector(layout, chain[0]) as u32,
                left: layout.sectors_per_cluster as u32,
                cluster: chain[0],
                fuel,
            },
        ).end == Some(Err::<(), FatError>(FatError::InvalidCluster(chain.last()))),
    decreases chain.len(),
{
    let first = chain[0];
    let rest = chain.drop_first();
    let here = clusters[first - 2];
    assert(cluster_holds(medium, layout, chain[0], clusters[chain[0] - 2]));
    cluster_in_layout(layout, first);
    let cursor = DirectoryCursor {
        sector: cluster_sector(layout, first) as u32,
        left: layout.sectors_per_cluster as u32,
        cluster: first,
        fuel,
    };
    run_holds_records(medium, layout, listing, cursor, here);
    written_link_is_followed(medium, layout, values, first);
    let scanned = records_scanned(listing, here);
    assert(chain.drop_last()[0] == first);
    assert(chain.drop_last().drop_first() =~= rest.drop_last());
    scanning_joins(listing, here, chain_records(clusters, rest.drop_last()));
    scanning_stays_ended(scanned, chain_records(clusters, rest.drop_last()));
    assert(link_of(values[chain[0] as int], layout.fat_type) == chain[1]);
    assert(rest[0] == chain[1]);
    links_are_no_marks(layout, chain[1]);
    assert(rest.last() == chain.last());
    if fuel > 0 {
        assert forall|i: int| 0 <= i < rest.len() implies 2 <= #[trigger] rest[i]
            < layout.total_clusters + 2 && rest[i] < values.len() by {
            assert(rest[i] == chain[i + 1]);
        }
        assert forall|i: int| 0 <= i < rest.len() - 1 implies link_of(
            values[(#[trigger] rest[i]) as int],
            layout.fat_type,
        ) == rest[i + 1] by {
            assert(rest[i] == chain[i + 1]);
            assert(rest[i + 1] == chain[i + 2]);
        }
        assert forall|i: int| 0 <= i < rest.len() implies cluster_holds(
            medium,
            layout,
            #[trigger] rest[i],
            clusters[rest[i] - 2],
        ) by {
            assert(rest[i] == chain[i + 1]);
        }
        circle_is_followed(medium, layout, values, clusters, rest, scanned, (fuel - 1) as u32);
    } else {
        assert(chain.last() == chain[1]);
    }
}

proof fn scanning_stays_ended(listing: FatListing, records: Seq<Seq<u8>>)
    ensures
        listing.end is Some ==> records_scanned(listing, records).end is Some,
{
}

/// A file whose chain ends before its size is reached cannot be read: the mark that ended it is
/// told.
pub proof fn short_chain_is_refused(
    medium: Seq<u8>,
    layout: FatLayout,
    values: Seq<u32>,
    cluster: u32,
    size: nat,
)
    requires
        layout.sectors_per_cluster > 0,
        table_stored(medium, layout, values),
        2 <= cluster < layout.total_clusters + 2,
        cluster < values.len(),
        size > cluster_bytes(layout),
        match layout.fat_type {
            FatType::Fat16 => link_of(values[cluster as int], layout.fat_type) >= 0xfff8,
            FatType::Fat32 => link_of(values[cluster as int], layout.fat_type) >= 0x0fff_fff8,
        },
    ensures
        chain_data(medium, layout, cluster, size) == Err::<Seq<u8>, FatError>(
            FatError::InvalidCluster(link_of(values[cluster as int], layout.fat_type)),
        ),
{
    written_link_is_followed(medium, layout, values, cluster);
}

/// A file that starts at no cluster of the volume cannot be read, unless it is empty.
pub proof fn file_outside_of_volume_is_refused(
    medium: Seq<u8>,
    layout: FatLayout,
    cluster: u32,
    size: nat,
)
    requires
        cluster < 2 || cluster >= layout.total_clusters + 2,
    ensures
        chain_data(medium, layout, cluster, size) == if size == 0 {
            Ok(Seq::<u8>::empty())
        } else {
            Err(FatError::InvalidCluster(cluster))
        },
{
}

} // verus!
