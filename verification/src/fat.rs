//! Read-only FAT16 and FAT32 filesystems.
//!
//! A mounted volume is described by its layout, which the boot sector gives. A
//! directory is read sector by sector; what a directory holds is its listing,
//! and path lookup and the recursive walk are both stated over listings.

use vstd::prelude::*;
use vstd::string::*;
use crate::bytes::{bytes_equal, le16, le32, read_le_u16, read_le_u32, window};
use crate::fat_names::{
    decode_short_name, long_name_after, long_name_belongs, no_long_name, short_name_text,
    units_text, LongName, LongNameState,
};
use crate::filesystem::{
    beginning_is_partly_listed, deeper_is_partly_listed, in_pages, loads_as, partly_listed,
    FileHandle, FileInfo, FileInfoView, FileState, FileSystem, FileType, LoadedFile, MountedVolume,
};
use crate::memory::{
    allocation, pages_needed, size_allocation, MemoryError, PageAllocator, EFI_ALLOCATE_TYPE,
    EFI_MEMORY_TYPE,
};
use crate::memory_map::EFI_MEMORY_DESCRIPTOR;
use crate::path::{
    components_of, equal_ignoring_case, ignoring_case_is_an_equivalence, parts_are,
    same_ignoring_case, split_components,
};
use crate::virtio::{read_sector, sector_at, BlockDevice, VirtioError};

verus! {

/// Read-only FAT variants supported by this module.
#[derive(Clone, Copy, Debug, PartialEq, Eq, Structural)]
pub enum FatType {
    /// FAT16 with a fixed root directory region.
    Fat16,
    /// FAT32 with the root directory stored in a cluster chain.
    Fat32,
}

/// Errors returned by the FAT filesystem reader.
#[derive(Clone, Copy, Debug, PartialEq, Eq, Structural)]
pub enum FatError {
    /// The underlying block device reported an I/O failure.
    Device(VirtioError),
    /// The boot sector did not describe a supported FAT filesystem.
    InvalidBootSector,
    /// The mounted volume uses a sector size other than 512 bytes.
    UnsupportedSectorSize(u16),
    /// The mounted volume is FAT12, which this module does not support.
    UnsupportedFatType,
    /// The requested path was empty or otherwise malformed.
    InvalidPath,
    /// A required path component or file was not found.
    NotFound,
    /// A path component that should have been a directory was not one.
    NotDirectory,
    /// The resolved path points at a directory instead of a file.
    IsDirectory,
    /// The caller-supplied output buffer is too small for the file.
    BufferTooSmall,
    /// The filesystem contained an invalid or out-of-range cluster number.
    InvalidCluster(u32),
    /// A VFAT long-name sequence was malformed.
    InvalidLongName,
    /// A decoded file name exceeded the supported in-memory limit.
    NameTooLong,
    /// The EFI-style page allocator reported an allocation failure.
    Memory(MemoryError),
}

impl vstd::std_specs::convert::FromSpecImpl<VirtioError> for FatError {
    open spec fn obeys_from_spec() -> bool {
        true
    }

    open spec fn from_spec(error: VirtioError) -> FatError {
        FatError::Device(error)
    }
}

impl From<VirtioError> for FatError {
    /// Converts one block-device error into the matching FAT-layer error.
    fn from(error: VirtioError) -> FatError {
        FatError::Device(error)
    }
}

impl vstd::std_specs::convert::FromSpecImpl<MemoryError> for FatError {
    open spec fn obeys_from_spec() -> bool {
        true
    }

    open spec fn from_spec(error: MemoryError) -> FatError {
        FatError::Memory(error)
    }
}

impl From<MemoryError> for FatError {
    /// Converts one page-allocation error into the matching FAT-layer error.
    fn from(error: MemoryError) -> FatError {
        FatError::Memory(error)
    }
}

/// Where the parts of a mounted volume are.
#[derive(Clone, Copy, Debug, PartialEq, Eq, Structural)]
pub struct FatLayout {
    /// First sector of the mounted volume on the device.
    pub partition_start_lba: u64,
    /// Supported FAT variant derived from the boot sector.
    pub fat_type: FatType,
    /// Number of sectors stored in one allocation cluster.
    pub sectors_per_cluster: u8,
    /// Number of reserved sectors before the FAT region.
    pub reserved_sector_count: u16,
    /// Size in sectors of the fixed FAT16 root-directory region.
    pub root_dir_sectors: u32,
    /// First sector of the FAT16 root-directory region.
    pub root_dir_first_sector: u32,
    /// First data sector containing cluster number `2`.
    pub data_first_sector: u32,
    /// Root-directory start cluster on FAT32 volumes.
    pub root_cluster: u32,
    /// Total number of addressable data clusters on the volume.
    pub total_clusters: u32,
}

impl FatLayout {
    /// Whether every sector of the layout has a number that fits its type.
    pub open spec fn well_formed(self) -> bool {
        &&& self.partition_start_lba + u32::MAX <= u64::MAX
        &&& self.sectors_per_cluster >= 1
        &&& self.total_clusters >= 1
        &&& self.total_clusters + 2 <= u32::MAX
        &&& self.root_dir_first_sector + self.root_dir_sectors == self.data_first_sector
        &&& self.data_first_sector + self.total_clusters * self.sectors_per_cluster <= u32::MAX
    }
}

/// Value of a 16-bit boot-sector field, or of the 32-bit one where that is zero.
pub open spec fn wide_field(sector: Seq<u8>, narrow: int, wide: int) -> u32 {
    if le16(sector, narrow) != 0 {
        le16(sector, narrow) as u32
    } else {
        le32(sector, wide)
    }
}

/// First sector of the root-directory region that a boot sector describes.
pub open spec fn boot_root_first(sector: Seq<u8>) -> int {
    le16(sector, 14) + sector[16] * wide_field(sector, 22, 36)
}

/// Sectors of the root-directory region that a boot sector describes.
pub open spec fn boot_root_sectors(sector: Seq<u8>) -> int {
    (le16(sector, 17) * 32 + 511) / 512
}

/// Number of data clusters that a boot sector describes.
pub open spec fn boot_clusters(sector: Seq<u8>) -> int {
    (wide_field(sector, 19, 32) - boot_root_first(sector) - boot_root_sectors(sector))
        / sector[13] as int
}

/// The layout that a boot sector describes, or why it is not accepted.
pub open spec fn boot_layout(sector: Seq<u8>, start: u64) -> Result<FatLayout, FatError> {
    if le16(sector, 11) != 512 {
        Err(FatError::UnsupportedSectorSize(le16(sector, 11)))
    } else if sector[13] == 0 || le16(sector, 14) == 0 || sector[16] == 0 || wide_field(
        sector,
        19,
        32,
    ) == 0 || wide_field(sector, 22, 36) == 0 {
        Err(FatError::InvalidBootSector)
    } else if wide_field(sector, 19, 32) < boot_root_first(sector) + boot_root_sectors(sector) {
        Err(FatError::InvalidBootSector)
    } else if boot_clusters(sector) < 4085 {
        Err(FatError::UnsupportedFatType)
    } else if boot_clusters(sector) >= 65525 && le32(sector, 44) < 2 {
        Err(FatError::InvalidBootSector)
    } else {
        let fat16 = boot_clusters(sector) < 65525;
        Ok(
            FatLayout {
                partition_start_lba: start,
                fat_type: if fat16 {
                    FatType::Fat16
                } else {
                    FatType::Fat32
                },
                sectors_per_cluster: sector[13],
                reserved_sector_count: le16(sector, 14),
                root_dir_sectors: boot_root_sectors(sector) as u32,
                root_dir_first_sector: boot_root_first(sector) as u32,
                data_first_sector: (boot_root_first(sector) + boot_root_sectors(sector)) as u32,
                root_cluster: if fat16 {
                    0
                } else {
                    le32(sector, 44)
                },
                total_clusters: boot_clusters(sector) as u32,
            },
        )
    }
}

/// Whether `cluster` is the number of a data cluster.
pub open spec fn cluster_valid(layout: FatLayout, cluster: u32) -> bool {
    2 <= cluster < layout.total_clusters + 2
}

/// First sector of a data cluster, counted from the start of the volume.
pub open spec fn cluster_sector(layout: FatLayout, cluster: u32) -> int {
    layout.data_first_sector + (cluster - 2) * layout.sectors_per_cluster
}

/// Whether a value of the file allocation table ends a chain.
pub open spec fn ends_chain(layout: FatLayout, value: u32) -> bool {
    match layout.fat_type {
        FatType::Fat16 => value >= 0xfff8,
        FatType::Fat32 => value >= 0x0fff_fff8,
    }
}

/// What the file allocation table holds for `cluster`.
pub open spec fn table_value(medium: Seq<u8>, layout: FatLayout, cluster: u32) -> u32 {
    let table = (layout.partition_start_lba + layout.reserved_sector_count) * 512;
    match layout.fat_type {
        FatType::Fat16 => le16(medium, table + cluster * 2) as u32,
        FatType::Fat32 => (le32(medium, table + cluster * 4) % 0x1000_0000) as u32,
    }
}

/// The table value that follows `cluster` in its chain. A cluster marked bad is
/// an error.
pub open spec fn chain_next(medium: Seq<u8>, layout: FatLayout, cluster: u32) -> Result<
    u32,
    FatError,
> {
    let value = table_value(medium, layout, cluster);
    let bad: u32 = match layout.fat_type {
        FatType::Fat16 => 0xfff7,
        FatType::Fat32 => 0x0fff_fff7,
    };
    if !cluster_valid(layout, cluster) {
        Err(FatError::InvalidCluster(cluster))
    } else if value == bad {
        Err(FatError::InvalidCluster(value))
    } else {
        Ok(value)
    }
}

/// Directory entry resolved while traversing a FAT path.
#[derive(Clone, Copy, Debug, PartialEq, Eq, Structural)]
pub struct FatDirectoryEntry {
    /// Attribute byte copied from the directory entry.
    pub attributes: u8,
    /// First cluster of the file or directory data.
    pub first_cluster: u32,
    /// Logical file size in bytes.
    pub file_size: u32,
}

impl FatDirectoryEntry {
    /// Whether the entry is that of a directory.
    pub open spec fn names_directory(self) -> bool {
        (self.attributes & 0x10) != 0
    }

    /// Returns `true` when this directory entry represents a directory.
    pub fn is_directory(&self) -> (answer: bool)
        ensures
            answer == self.names_directory(),
    {
        (self.attributes & 0x10) != 0
    }
}

/// Directory location used while traversing nested paths.
#[derive(Clone, Copy, Debug, PartialEq, Eq, Structural)]
pub enum DirectoryLocation {
    /// Root directory of the mounted filesystem.
    RootDirectory,
    /// Regular directory stored in a cluster chain.
    ClusterChain(u32),
}

/// What the 32 bytes of a regular directory entry say.
pub open spec fn entry_of(raw: Seq<u8>) -> FatDirectoryEntry {
    FatDirectoryEntry {
        attributes: raw[11],
        first_cluster: (le16(raw, 20) * 0x1_0000 + le16(raw, 26)) as u32,
        file_size: le32(raw, 28),
    }
}

/// One named entry of a directory.
pub struct FatNamed {
    pub name: Seq<u8>,
    pub entry: FatDirectoryEntry,
}

/// A directory as far as it has been read: the long name in progress, the named
/// entries in order, and how the directory ended if it has.
pub struct FatListing {
    pub state: LongName,
    pub entries: Seq<FatNamed>,
    pub end: Option<Result<(), FatError>>,
}

/// A directory of which nothing has been read.
pub open spec fn unread_listing() -> FatListing {
    FatListing { state: no_long_name(), entries: Seq::empty(), end: None }
}

/// The name of a regular entry: its long name where one belongs to it, else its
/// short name. Nothing where the long name is malformed.
pub open spec fn name_of(state: LongName, raw: Seq<u8>) -> Option<Seq<u8>> {
    if long_name_belongs(state, raw) {
        units_text(state.code_units, 0)
    } else {
        Some(short_name_text(raw))
    }
}

/// The listing after one more 32-byte entry: the end marker, a deleted entry, a
/// part of a long name, a volume label, or a regular entry.
pub open spec fn entry_scanned(listing: FatListing, raw: Seq<u8>) -> FatListing {
    if raw[0] == 0x00 {
        FatListing { state: no_long_name(), end: Some(Ok(())), ..listing }
    } else if raw[0] == 0xe5 {
        FatListing { state: no_long_name(), ..listing }
    } else if raw[11] == 0x0f {
        FatListing { state: long_name_after(listing.state, raw), ..listing }
    } else if (raw[11] & 0x08) != 0 {
        FatListing { state: no_long_name(), ..listing }
    } else {
        match name_of(listing.state, raw) {
            Some(name) => FatListing {
                state: no_long_name(),
                entries: listing.entries.push(FatNamed { name, entry: entry_of(raw) }),
                ..listing
            },
            None => FatListing { end: Some(Err(FatError::InvalidLongName)), ..listing },
        }
    }
}

/// The listing after the entries of one sector from `offset` on.
pub open spec fn sector_scanned(listing: FatListing, sector: Seq<u8>, offset: int) -> FatListing
    decreases 512 - offset,
{
    if listing.end is Some || offset < 0 || offset + 32 > 512 {
        listing
    } else {
        sector_scanned(
            entry_scanned(listing, sector.subrange(offset, offset + 32)),
            sector,
            offset + 32,
        )
    }
}

/// What is still to be read of a directory: a run of sectors and, where the
/// directory is a cluster chain, the cluster that holds them.
#[derive(Clone, Copy, Debug, PartialEq, Eq, Structural)]
pub struct DirectoryCursor {
    /// Next sector, counted from the start of the volume.
    pub sector: u32,
    /// Sectors left in the run.
    pub left: u32,
    /// Cluster that holds the run, or zero where there is none.
    pub cluster: u32,
    /// Clusters that may still follow. A longer chain is circular.
    pub fuel: u32,
}

/// Where the reading of a directory starts.
pub open spec fn directory_start(layout: FatLayout, location: DirectoryLocation) -> DirectoryCursor {
    let first = match location {
        DirectoryLocation::RootDirectory => layout.root_cluster,
        DirectoryLocation::ClusterChain(cluster) => cluster,
    };
    if location is RootDirectory && layout.fat_type is Fat16 {
        DirectoryCursor {
            sector: layout.root_dir_first_sector,
            left: layout.root_dir_sectors,
            cluster: 0,
            fuel: 0,
        }
    } else if cluster_valid(layout, first) {
        DirectoryCursor {
            sector: cluster_sector(layout, first) as u32,
            left: layout.sectors_per_cluster as u32,
            cluster: first,
            fuel: (layout.total_clusters - 1) as u32,
        }
    } else {
        DirectoryCursor { sector: 0, left: 0, cluster: 0, fuel: 0 }
    }
}

/// The listing when reading goes on to the end of the directory. A chain ends at
/// an end marker and at a value that is no cluster; a circular one is an error.
pub open spec fn listing_finished(
    medium: Seq<u8>,
    layout: FatLayout,
    listing: FatListing,
    cursor: DirectoryCursor,
) -> FatListing
    decreases cursor.fuel, cursor.left,
{
    if listing.end is Some {
        listing
    } else if cursor.left > 0 {
        let sector = sector_at(medium, layout.partition_start_lba + cursor.sector);
        listing_finished(
            medium,
            layout,
            sector_scanned(listing, sector, 0),
            DirectoryCursor {
                sector: (cursor.sector + 1) as u32,
                left: (cursor.left - 1) as u32,
                ..cursor
            },
        )
    } else if cursor.cluster == 0 {
        FatListing { end: Some(Ok(())), ..listing }
    } else {
        match chain_next(medium, layout, cursor.cluster) {
            Err(error) => FatListing { end: Some(Err(error)), ..listing },
            Ok(next) => if ends_chain(layout, next) || !cluster_valid(layout, next) {
                FatListing { end: Some(Ok(())), ..listing }
            } else if cursor.fuel == 0 {
                FatListing { end: Some(Err(FatError::InvalidCluster(next))), ..listing }
            } else {
                listing_finished(
                    medium,
                    layout,
                    listing,
                    DirectoryCursor {
                        sector: cluster_sector(layout, next) as u32,
                        left: layout.sectors_per_cluster as u32,
                        cluster: next,
                        fuel: (cursor.fuel - 1) as u32,
                    },
                )
            },
        }
    }
}

/// Everything that a directory holds.
pub open spec fn listing_of(
    medium: Seq<u8>,
    layout: FatLayout,
    location: DirectoryLocation,
) -> FatListing {
    listing_finished(medium, layout, unread_listing(), directory_start(layout, location))
}

/// The first entry from place `from` on whose name is `component` up to case.
pub open spec fn match_from(entries: Seq<FatNamed>, component: Seq<u8>, from: int) -> Option<
    FatDirectoryEntry,
>
    decreases entries.len() - from,
{
    if from < 0 || from >= entries.len() {
        None
    } else if same_ignoring_case(entries[from].name, component) {
        Some(entries[from].entry)
    } else {
        match_from(entries, component, from + 1)
    }
}

/// The entry of a directory with a given name.
pub open spec fn entry_found(
    medium: Seq<u8>,
    layout: FatLayout,
    location: DirectoryLocation,
    component: Seq<u8>,
) -> Result<FatDirectoryEntry, FatError> {
    let listing = listing_of(medium, layout, location);
    match match_from(listing.entries, component, 0) {
        Some(entry) => Ok(entry),
        None => match listing.end {
            Some(Err(error)) => Err(error),
            _ => Err(FatError::NotFound),
        },
    }
}

/// The entry that a sequence of path components leads to, from a directory.
pub open spec fn path_resolved(
    medium: Seq<u8>,
    layout: FatLayout,
    location: DirectoryLocation,
    components: Seq<Seq<u8>>,
) -> Result<FatDirectoryEntry, FatError>
    decreases components.len(),
{
    if components.len() == 0 || components[0] == ".".spec_bytes() || components[0]
        == "..".spec_bytes() {
        Err(FatError::InvalidPath)
    } else {
        match entry_found(medium, layout, location, components[0]) {
            Err(error) => Err(error),
            Ok(entry) => if components.len() == 1 {
                Ok(entry)
            } else if !entry.names_directory() {
                Err(FatError::NotDirectory)
            } else {
                path_resolved(
                    medium,
                    layout,
                    DirectoryLocation::ClusterChain(entry.first_cluster),
                    components.drop_first(),
                )
            },
        }
    }
}

/// Number of bytes that one cluster gives to a file of which `remaining` are
/// still to come.
pub open spec fn cluster_share(layout: FatLayout, remaining: nat) -> nat {
    let size = (layout.sectors_per_cluster * 512) as nat;
    if remaining < size {
        remaining
    } else {
        size
    }
}

/// `remaining` bytes of a file whose chain goes on with `cluster`.
pub open spec fn chain_data(medium: Seq<u8>, layout: FatLayout, cluster: u32, remaining: nat) -> Result<
    Seq<u8>,
    FatError,
>
    decreases remaining,
{
    let share = cluster_share(layout, remaining);
    if remaining == 0 {
        Ok(Seq::empty())
    } else if !cluster_valid(layout, cluster) {
        Err(FatError::InvalidCluster(cluster))
    } else {
        let data = window(
            medium,
            (layout.partition_start_lba + cluster_sector(layout, cluster)) * 512,
            share as int,
        );
        if share == remaining || share == 0 {
            Ok(data)
        } else {
            match chain_next(medium, layout, cluster) {
                Err(error) => Err(error),
                Ok(next) => if ends_chain(layout, next) {
                    Err(FatError::InvalidCluster(next))
                } else {
                    match chain_data(medium, layout, next, (remaining - share) as nat) {
                        Ok(rest) => Ok(data + rest),
                        Err(error) => Err(error),
                    }
                },
            }
        }
    }
}

/// The contents of the file at `path`, or why it cannot be read.
pub open spec fn file_at(medium: Seq<u8>, layout: FatLayout, path: Seq<u8>) -> Result<
    Seq<u8>,
    FatError,
> {
    match path_resolved(
        medium,
        layout,
        DirectoryLocation::RootDirectory,
        components_of(path),
    ) {
        Err(error) => Err(error),
        Ok(entry) => if entry.names_directory() {
            Err(FatError::IsDirectory)
        } else {
            chain_data(medium, layout, entry.first_cluster, entry.file_size as nat)
        },
    }
}

/// A file that can be read has as many bytes as its directory entry says.
pub proof fn chain_data_has_size(medium: Seq<u8>, layout: FatLayout, cluster: u32, remaining: nat)
    requires
        layout.well_formed(),
    ensures
        chain_data(medium, layout, cluster, remaining) matches Ok(data) ==> data.len() == remaining,
    decreases remaining,
{
    let share = cluster_share(layout, remaining);
    if remaining > 0 && cluster_valid(layout, cluster) && share < remaining {
        if let Ok(next) = chain_next(medium, layout, cluster) {
            chain_data_has_size(medium, layout, next, (remaining - share) as nat);
        }
    }
}

proof fn match_ignores_case(entries: Seq<FatNamed>, a: Seq<u8>, b: Seq<u8>, from: int)
    requires
        same_ignoring_case(a, b),
    ensures
        match_from(entries, a, from) == match_from(entries, b, from),
    decreases entries.len() - from,
{
    if 0 <= from < entries.len() {
        let name = entries[from].name;
        ignoring_case_is_an_equivalence(name, a, b);
        ignoring_case_is_an_equivalence(name, b, a);
        ignoring_case_is_an_equivalence(a, b, name);
        match_ignores_case(entries, a, b, from + 1);
    }
}

/// Looking up a name does not depend on the case of its letters.
pub proof fn lookup_ignores_case(
    medium: Seq<u8>,
    layout: FatLayout,
    location: DirectoryLocation,
    a: Seq<u8>,
    b: Seq<u8>,
)
    requires
        same_ignoring_case(a, b),
    ensures
        entry_found(medium, layout, location, a) == entry_found(medium, layout, location, b),
{
    match_ignores_case(listing_of(medium, layout, location).entries, a, b, 0);
}

/// One file met by a walk.
pub struct WalkedPath {
    pub path: Seq<u8>,
    pub size: u32,
}

/// What a walk met and how it ended.
pub struct FatWalk {
    pub files: Seq<WalkedPath>,
    pub outcome: Result<(), FatError>,
}

/// A path with one more component.
pub open spec fn path_joined(path: Seq<u8>, name: Seq<u8>) -> Seq<u8> {
    path + seq![0x2fu8] + name
}

/// The walk over the entries of the directory at `path`, in order, up to the
/// first error. The entries `.` and `..` are left out, files are listed, and
/// directories are walked in turn. A path takes at most 1024 bytes.
pub open spec fn entries_walked(
    medium: Seq<u8>,
    layout: FatLayout,
    entries: Seq<FatNamed>,
    path: Seq<u8>,
) -> FatWalk
    decreases 1024 - path.len(), 0int, entries.len(),
{
    if entries.len() == 0 {
        FatWalk { files: Seq::empty(), outcome: Ok(()) }
    } else {
        let before = entries_walked(medium, layout, entries.drop_last(), path);
        let name = entries.last().name;
        let entry = entries.last().entry;
        if before.outcome is Err || name == ".".spec_bytes() || name == "..".spec_bytes() {
            before
        } else if path.len() + 1 + name.len() > 1024 {
            FatWalk { outcome: Err(FatError::NameTooLong), ..before }
        } else if entry.names_directory() {
            let inner = directory_walked(
                medium,
                layout,
                DirectoryLocation::ClusterChain(entry.first_cluster),
                path_joined(path, name),
            );
            FatWalk { files: before.files + inner.files, outcome: inner.outcome }
        } else {
            FatWalk {
                files: before.files.push(
                    WalkedPath { path: path_joined(path, name), size: entry.file_size },
                ),
                ..before
            }
        }
    }
}

/// The walk over everything below the directory at `path`.
pub open spec fn directory_walked(
    medium: Seq<u8>,
    layout: FatLayout,
    location: DirectoryLocation,
    path: Seq<u8>,
) -> FatWalk
    decreases 1024 - path.len(), 1int, 0int,
{
    let listing = listing_of(medium, layout, location);
    let walked = entries_walked(medium, layout, listing.entries, path);
    match (walked.outcome, listing.end) {
        (Ok(_), Some(Err(error))) => FatWalk { outcome: Err(error), ..walked },
        _ => walked,
    }
}

/// A walk that met an error does not go on.
proof fn walk_stops_at_error(
    medium: Seq<u8>,
    layout: FatLayout,
    shorter: Seq<FatNamed>,
    longer: Seq<FatNamed>,
    path: Seq<u8>,
)
    requires
        is_beginning(shorter, longer),
        entries_walked(medium, layout, shorter, path).outcome is Err,
    ensures
        entries_walked(medium, layout, longer, path) == entries_walked(
            medium,
            layout,
            shorter,
            path,
        ),
    decreases longer.len(),
{
    if longer.len() == shorter.len() {
        assert(longer.take(shorter.len() as int) =~= longer);
    } else {
        assert(longer.drop_last().take(shorter.len() as int) =~= longer.take(shorter.len() as int));
        walk_stops_at_error(medium, layout, shorter, longer.drop_last(), path);
    }
}

/// A walk over more entries begins with the walk over the first ones.
proof fn walk_begins(
    medium: Seq<u8>,
    layout: FatLayout,
    shorter: Seq<FatNamed>,
    longer: Seq<FatNamed>,
    path: Seq<u8>,
)
    requires
        is_beginning(shorter, longer),
    ensures
        ({
            let part = entries_walked(medium, layout, shorter, path).files;
            let walked = entries_walked(medium, layout, longer, path).files;
            part.len() <= walked.len() && part == walked.take(part.len() as int)
        }),
    decreases longer.len(),
{
    let part = entries_walked(medium, layout, shorter, path).files;
    let walked = entries_walked(medium, layout, longer, path).files;
    if longer.len() == shorter.len() {
        assert(longer.take(shorter.len() as int) =~= longer);
        assert(walked.take(part.len() as int) =~= walked);
    } else {
        assert(longer.drop_last().take(shorter.len() as int) =~= longer.take(shorter.len() as int));
        walk_begins(medium, layout, shorter, longer.drop_last(), path);
        assert(walked.take(part.len() as int) =~= entries_walked(
            medium,
            layout,
            longer.drop_last(),
            path,
        ).files.take(part.len() as int));
    }
}

/// Whether `shorter` is the beginning of `longer`.
pub open spec fn is_beginning(shorter: Seq<FatNamed>, longer: Seq<FatNamed>) -> bool {
    shorter.len() <= longer.len() && longer.take(shorter.len() as int) == shorter
}

proof fn beginning_is_transitive(a: Seq<FatNamed>, b: Seq<FatNamed>, c: Seq<FatNamed>)
    requires
        is_beginning(a, b),
        is_beginning(b, c),
    ensures
        is_beginning(a, c),
{
    assert(c.take(a.len() as int) =~= b.take(a.len() as int));
}

proof fn scanning_appends(listing: FatListing, sector: Seq<u8>, offset: int)
    ensures
        is_beginning(listing.entries, sector_scanned(listing, sector, offset).entries),
    decreases 512 - offset,
{
    if listing.end is Some || offset < 0 || offset + 32 > 512 {
        assert(listing.entries.take(listing.entries.len() as int) =~= listing.entries);
    } else {
        let next = entry_scanned(listing, sector.subrange(offset, offset + 32));
        assert(next.entries.take(listing.entries.len() as int) =~= listing.entries);
        scanning_appends(next, sector, offset + 32);
        beginning_is_transitive(
            listing.entries,
            next.entries,
            sector_scanned(next, sector, offset + 32).entries,
        );
    }
}

proof fn finishing_appends(
    medium: Seq<u8>,
    layout: FatLayout,
    listing: FatListing,
    cursor: DirectoryCursor,
)
    ensures
        is_beginning(
            listing.entries,
            listing_finished(medium, layout, listing, cursor).entries,
        ),
    decreases cursor.fuel, cursor.left,
{
    let whole = listing_finished(medium, layout, listing, cursor);
    assert(listing.entries.take(listing.entries.len() as int) =~= listing.entries);
    if listing.end is Some {
    } else if cursor.left > 0 {
        let sector = sector_at(medium, layout.partition_start_lba + cursor.sector);
        let next = sector_scanned(listing, sector, 0);
        let rest = DirectoryCursor {
            sector: (cursor.sector + 1) as u32,
            left: (cursor.left - 1) as u32,
            ..cursor
        };
        scanning_appends(listing, sector, 0);
        finishing_appends(medium, layout, next, rest);
        beginning_is_transitive(listing.entries, next.entries, whole.entries);
    } else if cursor.cluster != 0 {
        if let Ok(next) = chain_next(medium, layout, cursor.cluster) {
            if !(ends_chain(layout, next) || !cluster_valid(layout, next)) && cursor.fuel > 0 {
                let rest = DirectoryCursor {
                    sector: cluster_sector(layout, next) as u32,
                    left: layout.sectors_per_cluster as u32,
                    cluster: next,
                    fuel: (cursor.fuel - 1) as u32,
                };
                finishing_appends(medium, layout, listing, rest);
            }
        }
    }
}

proof fn match_survives(shorter: Seq<FatNamed>, longer: Seq<FatNamed>, component: Seq<u8>, from: int)
    requires
        is_beginning(shorter, longer),
        0 <= from <= shorter.len(),
    ensures
        match_from(shorter, component, from) is Some ==> match_from(longer, component, from)
            == match_from(shorter, component, from),
        match_from(shorter, component, from) is None ==> match_from(longer, component, from)
            == match_from(longer, component, shorter.len() as int),
    decreases shorter.len() - from,
{
    if from < shorter.len() {
        assert(longer[from] == longer.take(shorter.len() as int)[from]);
        match_survives(shorter, longer, component, from + 1);
    }
}

/// Directory entry with its decoded name.
pub struct NamedEntry {
    pub name: Vec<u8>,
    pub entry: FatDirectoryEntry,
}

/// The named entries that a vector holds.
pub open spec fn named(entries: Seq<NamedEntry>) -> Seq<FatNamed> {
    Seq::new(
        entries.len(),
        |i: int| FatNamed { name: entries[i].name@, entry: entries[i].entry },
    )
}

/// Parses one raw 32-byte regular directory entry.
fn parse_directory_entry(raw: &[u8]) -> (entry: FatDirectoryEntry)
    requires
        raw@.len() == 32,
    ensures
        entry == entry_of(raw@),
{
    let cluster_high: u16 = read_le_u16(raw, 20);
    let cluster_low: u16 = read_le_u16(raw, 26);
    FatDirectoryEntry {
        attributes: raw[11],
        first_cluster: cluster_high as u32 * 0x1_0000 + cluster_low as u32,
        file_size: read_le_u32(raw, 28),
    }
}

/// Appends all regular directory entries stored in one directory sector to
/// `found`. Returns whether the end of the directory was reached.
pub fn scan_directory_sector_entries(
    sector: &[u8],
    long_name_state: &mut LongNameState,
    found: &mut Vec<NamedEntry>,
) -> (ended: Result<bool, FatError>)
    requires
        sector@.len() == 512,
    ensures
        ({
            let scanned = sector_scanned(
                (FatListing { state: old(long_name_state)@, entries: named(old(found)@), end: None }),
                sector@,
                0,
            );
            &&& named(final(found)@) == scanned.entries
            &&& match ended {
                Ok(false) => scanned.end is None && final(long_name_state)@ == scanned.state,
                Ok(true) => scanned.end == Some(Ok::<(), FatError>(())),
                Err(error) => scanned.end == Some(Err::<(), FatError>(error)) && error
                    == FatError::InvalidLongName,
            }
        }),
{
    let ghost whole = sector_scanned(
        FatListing { state: long_name_state@, entries: named(found@), end: None },
        sector@,
        0,
    );
    let mut offset: usize = 0;
    while offset < 512
        invariant
            offset <= 512,
            offset % 32 == 0,
            sector@.len() == 512,
            whole == sector_scanned(
                (FatListing { state: old(long_name_state)@, entries: named(old(found)@), end: None }),
                sector@,
                0,
            ),
            sector_scanned(
                (FatListing { state: long_name_state@, entries: named(found@), end: None }),
                sector@,
                offset as int,
            ) == whole,
        decreases 512 - offset,
    {
        let ghost listing = FatListing {
            state: long_name_state@,
            entries: named(found@),
            end: None,
        };
        let raw = &sector[offset..offset + 32];
        let ghost next = entry_scanned(listing, raw@);
        assert(sector_scanned(next, sector@, offset + 32) == whole);
        let first_byte: u8 = raw[0];
        if first_byte == 0x00 {
            long_name_state.clear();
            return Ok(true);
        }
        let attributes: u8 = raw[11];
        if first_byte == 0xe5 {
            long_name_state.clear();
        } else if attributes == 0x0f {
            let _outcome = long_name_state.push(raw);
        } else if (attributes & 0x08) != 0 {
            long_name_state.clear();
        } else {
            let entry = parse_directory_entry(raw);
            let name = if long_name_state.matches_entry(raw) {
                match long_name_state.to_utf8() {
                    Ok(name) => name,
                    Err(error) => return Err(error),
                }
            } else {
                decode_short_name(raw)
            };
            let ghost before = found@;
            found.push(NamedEntry { name, entry });
            assert(named(found@) =~= named(before).push(
                FatNamed { name: name@, entry: entry_of(raw@) },
            ));
            long_name_state.clear();
        }
        offset += 32;
    }
    Ok(false)
}

/// Mounted read-only FAT volume backed by a block device.
pub struct FatVolume<'a, D: BlockDevice> {
    /// Underlying sector-addressable block device.
    device: &'a mut D,
    /// Where the parts of the volume are.
    layout: FatLayout,
}

impl<'a, D: BlockDevice> FatVolume<'a, D> {
    /// The device under the volume.
    pub closed spec fn device(&self) -> &'a mut D {
        self.device
    }

    /// Where the parts of the volume are.
    pub closed spec fn layout(&self) -> FatLayout {
        self.layout
    }

    /// Whether the volume can be read from.
    pub open spec fn well_formed(&self) -> bool {
        self.layout().well_formed()
    }

    /// A volume that is not used any more leaves the device as it then is.
    pub proof fn device_released(volume: Self)
        requires
            has_resolved(volume),
        ensures
            *final(volume.device()) == *volume.device(),
    {
    }

    /// Mounts a FAT16 or FAT32 filesystem from a partition start sector.
    pub fn new(device: &'a mut D, partition_start_lba: u64) -> (volume: Result<Self, FatError>)
        ensures
            match volume {
                Ok(mounted) => mounted.well_formed() && boot_layout(
                    sector_at(old(device).medium(), partition_start_lba as int),
                    partition_start_lba,
                ) == Ok::<FatLayout, FatError>(mounted.layout()) && mounted.device().medium()
                    == old(device).medium() && mounted.device().sectors() == old(device).sectors()
                    && mounted.device().faults() == old(device).faults() && *final(mounted.device())
                    == *final(device),
                Err(error) => final(device).medium() == old(device).medium()
                    && final(device).sectors() == old(device).sectors() && match error {
                    FatError::Device(fault) => final(device).faults() == old(device).faults().push(
                        fault,
                    ),
                    _ => final(device).faults() == old(device).faults() && boot_layout(
                        sector_at(old(device).medium(), partition_start_lba as int),
                        partition_start_lba,
                    ) == Err::<FatLayout, FatError>(error),
                },
            },
    {
        let sector_bytes = match read_sector(device, partition_start_lba) {
            Ok(bytes) => bytes,
            Err(error) => return Err(FatError::Device(error)),
        };
        let layout = match decode_boot_sector(sector_bytes.as_slice(), partition_start_lba) {
            Ok(layout) => layout,
            Err(error) => return Err(error),
        };
        Ok(FatVolume { device, layout })
    }

    /// Reads one partition-relative sector.
    fn read_relative_blocks(&mut self, relative_sector: u32) -> (outcome: Result<
        [u8; 512],
        FatError,
    >)
        requires
            old(self).well_formed(),
        ensures
            final(self).layout() == old(self).layout(),
            final(self).device().medium() == old(self).device().medium(),
            final(self).device().sectors() == old(self).device().sectors(),
            *final(final(self).device()) == *final(old(self).device()),
            match outcome {
                Ok(bytes) => final(self).device().faults() == old(self).device().faults() && bytes@
                    == sector_at(
                    old(self).device().medium(),
                    old(self).layout().partition_start_lba + relative_sector,
                ) && (old(self).layout().partition_start_lba + relative_sector + 1) * 512 <= old(
                    self,
                ).device().medium().len(),
                Err(error) => error matches FatError::Device(fault) && final(self).device().faults()
                    == old(self).device().faults().push(fault),
            },
    {
        match read_sector(self.device, self.layout.partition_start_lba + relative_sector as u64) {
            Ok(bytes) => Ok(bytes),
            Err(error) => Err(FatError::Device(error)),
        }
    }

    /// Returns `true` when `cluster` is a valid data cluster number.
    fn is_valid_cluster(&self, cluster: u32) -> (answer: bool)
        requires
            self.well_formed(),
        ensures
            answer == cluster_valid(self.layout(), cluster),
    {
        cluster >= 2 && cluster < self.layout.total_clusters + 2
    }

    /// Returns the first sector of one data cluster.
    fn cluster_first_sector(&self, cluster: u32) -> (sector: Result<u32, FatError>)
        requires
            self.well_formed(),
        ensures
            match sector {
                Ok(first) => cluster_valid(self.layout(), cluster) && first == cluster_sector(
                    self.layout(),
                    cluster,
                ) && first + self.layout().sectors_per_cluster <= u32::MAX,
                Err(error) => !cluster_valid(self.layout(), cluster) && error
                    == FatError::InvalidCluster(cluster),
            },
    {
        if !self.is_valid_cluster(cluster) {
            return Err(FatError::InvalidCluster(cluster));
        }
        let per_cluster: u32 = self.layout.sectors_per_cluster as u32;
        proof {
            let index = cluster - 2;
            let total = self.layout.total_clusters as int;
            assert(0 <= index * per_cluster && (index + 1) * per_cluster <= total * per_cluster)
                by (nonlinear_arith)
                requires
                    0 <= index < total,
                    per_cluster >= 1,
            ;
            assert((index + 1) * per_cluster == index * per_cluster + per_cluster)
                by (nonlinear_arith);
        }
        Ok(self.layout.data_first_sector + (cluster - 2) * per_cluster)
    }

    /// Returns `true` when `cluster` is an end-of-chain marker.
    fn is_end_of_chain(&self, cluster: u32) -> (answer: bool)
        ensures
            answer == ends_chain(self.layout(), cluster),
    {
        match self.layout.fat_type {
            FatType::Fat16 => cluster >= 0xfff8,
            FatType::Fat32 => cluster >= 0x0fff_fff8,
        }
    }

    /// Returns the next cluster in a FAT chain.
    fn next_cluster(&mut self, cluster: u32) -> (next: Result<u32, FatError>)
        requires
            old(self).well_formed(),
        ensures
            final(self).layout() == old(self).layout(),
            final(self).device().medium() == old(self).device().medium(),
            final(self).device().sectors() == old(self).device().sectors(),
            *final(final(self).device()) == *final(old(self).device()),
            match next {
                Err(FatError::Device(fault)) => final(self).device().faults() == old(
                    self,
                ).device().faults().push(fault),
                _ => final(self).device().faults() == old(self).device().faults() && next
                    == chain_next(old(self).device().medium(), old(self).layout(), cluster),
            },
    {
        if !self.is_valid_cluster(cluster) {
            return Err(FatError::InvalidCluster(cluster));
        }
        let ghost medium = self.device.medium();
        let entry_size: u64 = match self.layout.fat_type {
            FatType::Fat16 => 2,
            FatType::Fat32 => 4,
        };
        let fat_offset: u64 = cluster as u64 * entry_size;
        let fat_sector: u32 = self.layout.reserved_sector_count as u32 + (fat_offset / 512) as u32;
        let entry_offset = (fat_offset % 512) as usize;
        let sector_bytes = match self.read_relative_blocks(fat_sector) {
            Ok(bytes) => bytes,
            Err(error) => return Err(error),
        };
        let sector = sector_bytes.as_slice();
        let next: u32 = match self.layout.fat_type {
            FatType::Fat16 => read_le_u16(sector, entry_offset) as u32,
            FatType::Fat32 => read_le_u32(sector, entry_offset) % 0x1000_0000,
        };
        assert(next == table_value(medium, self.layout, cluster));
        let bad: u32 = match self.layout.fat_type {
            FatType::Fat16 => 0xfff7,
            FatType::Fat32 => 0x0fff_fff7,
        };
        if next == bad {
            Err(FatError::InvalidCluster(next))
        } else {
            Ok(next)
        }
    }

    /// Where the reading of a directory starts.
    fn start_of(&self, location: DirectoryLocation) -> (cursor: DirectoryCursor)
        requires
            self.well_formed(),
        ensures
            cursor == directory_start(self.layout(), location),
            cursor_fits(self.layout(), cursor),
    {
        let first: u32 = match location {
            DirectoryLocation::RootDirectory => {
                match self.layout.fat_type {
                    FatType::Fat16 => {
                        return DirectoryCursor {
                            sector: self.layout.root_dir_first_sector,
                            left: self.layout.root_dir_sectors,
                            cluster: 0,
                            fuel: 0,
                        };
                    },
                    FatType::Fat32 => self.layout.root_cluster,
                }
            },
            DirectoryLocation::ClusterChain(cluster) => cluster,
        };
        match self.cluster_first_sector(first) {
            Ok(sector) => DirectoryCursor {
                sector,
                left: self.layout.sectors_per_cluster as u32,
                cluster: first,
                fuel: self.layout.total_clusters - 1,
            },
            Err(_) => DirectoryCursor { sector: 0, left: 0, cluster: 0, fuel: 0 },
        }
    }

    /// Reads on in a directory by one sector or to the next cluster. Returns
    /// whether there may be more.
    fn read_more(
        &mut self,
        cursor: &mut DirectoryCursor,
        long_name_state: &mut LongNameState,
        found: &mut Vec<NamedEntry>,
    ) -> (more: Result<bool, FatError>)
        requires
            old(self).well_formed(),
            cursor_fits(old(self).layout(), *old(cursor)),
        ensures
            final(self).layout() == old(self).layout(),
            final(self).device().medium() == old(self).device().medium(),
            final(self).device().sectors() == old(self).device().sectors(),
            *final(final(self).device()) == *final(old(self).device()),
            ({
                let whole = listing_finished(
                    old(self).device().medium(),
                    old(self).layout(),
                    (FatListing {
                        state: old(long_name_state)@,
                        entries: named(old(found)@),
                        end: None,
                    }),
                    *old(cursor),
                );
                match more {
                    Err(FatError::Device(fault)) => final(self).device().faults() == old(
                        self,
                    ).device().faults().push(fault),
                    Err(error) => final(self).device().faults() == old(self).device().faults()
                        && whole.entries == named(final(found)@) && whole.end == Some(
                        Err::<(), FatError>(error),
                    ),
                    Ok(false) => final(self).device().faults() == old(self).device().faults()
                        && whole.entries == named(final(found)@) && whole.end == Some(
                        Ok::<(), FatError>(()),
                    ),
                    Ok(true) => final(self).device().faults() == old(self).device().faults()
                        && cursor_fits(old(self).layout(), *final(cursor)) && whole
                        == listing_finished(
                        old(self).device().medium(),
                        old(self).layout(),
                        (FatListing {
                            state: final(long_name_state)@,
                            entries: named(final(found)@),
                            end: None,
                        }),
                        *final(cursor),
                    ) && (final(cursor).fuel < old(cursor).fuel || final(cursor).fuel == old(
                        cursor,
                    ).fuel && final(cursor).left < old(cursor).left) && is_beginning(
                        named(old(found)@),
                        named(final(found)@),
                    ),
                }
            }),
    {
        let ghost medium = self.device.medium();
        let ghost before = FatListing {
            state: long_name_state@,
            entries: named(found@),
            end: None,
        };
        let ghost start = *cursor;
        assert(named(found@).take(found@.len() as int) =~= named(found@));
        if cursor.left > 0 {
            let sector_bytes = match self.read_relative_blocks(cursor.sector) {
                Ok(bytes) => bytes,
                Err(error) => return Err(error),
            };
            let sector = sector_bytes.as_slice();
            let ghost scanned = sector_scanned(before, sector@, 0);
            let ghost rest = DirectoryCursor {
                sector: (start.sector + 1) as u32,
                left: (start.left - 1) as u32,
                ..start
            };
            proof {
                scanning_appends(before, sector@, 0);
                assert(listing_finished(medium, self.layout, before, start) == listing_finished(
                    medium,
                    self.layout,
                    scanned,
                    rest,
                ));
                if scanned.end is Some {
                    assert(listing_finished(medium, self.layout, scanned, rest) == scanned);
                }
            }
            match scan_directory_sector_entries(sector, long_name_state, found) {
                Ok(true) => Ok(false),
                Ok(false) => {
                    cursor.sector = cursor.sector + 1;
                    cursor.left = cursor.left - 1;
                    assert(*cursor == rest);
                    assert(scanned == (FatListing {
                        state: long_name_state@,
                        entries: named(found@),
                        end: None,
                    }));
                    Ok(true)
                },
                Err(error) => Err(error),
            }
        } else if cursor.cluster == 0 {
            Ok(false)
        } else {
            let next: u32 = match self.next_cluster(cursor.cluster) {
                Ok(next) => next,
                Err(error) => return Err(error),
            };
            if self.is_end_of_chain(next) || !self.is_valid_cluster(next) {
                return Ok(false);
            }
            if cursor.fuel == 0 {
                return Err(FatError::InvalidCluster(next));
            }
            let sector: u32 = match self.cluster_first_sector(next) {
                Ok(sector) => sector,
                Err(error) => return Err(error),
            };
            cursor.sector = sector;
            cursor.left = self.layout.sectors_per_cluster as u32;
            cursor.cluster = next;
            cursor.fuel = cursor.fuel - 1;
            Ok(true)
        }
    }

    /// Searches one directory for a path component.
    fn find_directory_entry(&mut self, directory: DirectoryLocation, component: &[u8]) -> (entry:
        Result<FatDirectoryEntry, FatError>)
        requires
            old(self).well_formed(),
        ensures
            final(self).layout() == old(self).layout(),
            final(self).device().medium() == old(self).device().medium(),
            final(self).device().sectors() == old(self).device().sectors(),
            *final(final(self).device()) == *final(old(self).device()),
            match entry {
                Err(FatError::Device(fault)) => final(self).device().faults() == old(
                    self,
                ).device().faults().push(fault),
                _ => final(self).device().faults() == old(self).device().faults() && entry
                    == entry_found(
                    old(self).device().medium(),
                    old(self).layout(),
                    directory,
                    component@,
                ),
            },
    {
        let ghost medium = self.device.medium();
        let ghost layout = self.layout;
        let ghost whole = listing_of(medium, layout, directory);
        let mut long_name_state = LongNameState::new();
        let mut found: Vec<NamedEntry> = Vec::new();
        let mut cursor = self.start_of(directory);
        let mut checked: usize = 0;
        assert(named(found@) =~= Seq::empty());
        loop
            invariant
                self.well_formed(),
                self.layout == layout,
                layout == old(self).layout(),
                medium == old(self).device().medium(),
                self.device().medium() == medium,
                self.device().sectors() == old(self).device().sectors(),
                self.device().faults() == old(self).device().faults(),
                *final(self.device()) == *final(old(self).device()),
                cursor_fits(layout, cursor),
                whole == listing_of(medium, layout, directory),
                whole == listing_finished(
                    medium,
                    layout,
                    (FatListing { state: long_name_state@, entries: named(found@), end: None }),
                    cursor,
                ),
                checked == found@.len(),
                match_from(named(found@), component@, 0) is None,
            decreases cursor.fuel, cursor.left,
        {
            let ghost seen_before = named(found@);
            proof {
                finishing_appends(
                    medium,
                    layout,
                    FatListing { state: long_name_state@, entries: named(found@), end: None },
                    cursor,
                );
            }
            let more = self.read_more(&mut cursor, &mut long_name_state, &mut found);
            if let Err(FatError::Device(fault)) = more {
                return Err(FatError::Device(fault));
            }
            let ghost seen = named(found@);
            proof {
                finishing_appends(
                    medium,
                    layout,
                    FatListing { state: long_name_state@, entries: named(found@), end: None },
                    cursor,
                );
                assert(whole.entries.take(whole.entries.len() as int) =~= whole.entries);
                assert(is_beginning(seen, whole.entries));
                assert(is_beginning(seen_before, seen));
                match_survives(seen_before, seen, component@, 0);
            }
            while checked < found.len()
                invariant
                    self.well_formed(),
                    self.layout == layout,
                    layout == old(self).layout(),
                    medium == old(self).device().medium(),
                    self.device().medium() == medium,
                    self.device().sectors() == old(self).device().sectors(),
                    self.device().faults() == old(self).device().faults(),
                    *final(self.device()) == *final(old(self).device()),
                    whole == listing_of(medium, layout, directory),
                    seen == named(found@),
                    is_beginning(seen, whole.entries),
                    checked <= found@.len(),
                    match_from(seen, component@, 0) == match_from(
                        seen,
                        component@,
                        checked as int,
                    ),
                decreases found@.len() - checked,
            {
                if equal_ignoring_case(found[checked].name.as_slice(), component) {
                    proof {
                        match_survives(seen, whole.entries, component@, 0);
                    }
                    return Ok(found[checked].entry);
                }
                checked += 1;
            }
            match more {
                Ok(true) => {},
                Ok(false) => return Err(FatError::NotFound),
                Err(error) => return Err(error),
            }
        }
    }

    /// Resolves one filesystem path to its matching directory entry.
    fn find_path_entry(&mut self, path: &str) -> (entry: Result<FatDirectoryEntry, FatError>)
        requires
            old(self).well_formed(),
        ensures
            final(self).layout() == old(self).layout(),
            final(self).device().medium() == old(self).device().medium(),
            final(self).device().sectors() == old(self).device().sectors(),
            *final(final(self).device()) == *final(old(self).device()),
            match entry {
                Err(FatError::Device(fault)) => final(self).device().faults() == old(
                    self,
                ).device().faults().push(fault),
                _ => final(self).device().faults() == old(self).device().faults() && entry
                    == path_resolved(
                    old(self).device().medium(),
                    old(self).layout(),
                    DirectoryLocation::RootDirectory,
                    components_of(path.spec_bytes()),
                ),
            },
    {
        let ghost medium = self.device.medium();
        let ghost layout = self.layout;
        let ghost components = components_of(path.spec_bytes());
        let parts = split_components(path.as_bytes());
        let mut directory = DirectoryLocation::RootDirectory;
        let mut index: usize = 0;
        let ghost whole = path_resolved(medium, layout, directory, components);
        assert(components.skip(0) =~= components);
        while index < parts.len()
            invariant
                self.well_formed(),
                self.layout == layout,
                layout == old(self).layout(),
                medium == old(self).device().medium(),
                self.device().medium() == medium,
                self.device().sectors() == old(self).device().sectors(),
                self.device().faults() == old(self).device().faults(),
                *final(self.device()) == *final(old(self).device()),
                components == components_of(path.spec_bytes()),
                parts_are(parts@, components),
                index <= parts@.len(),
                whole == path_resolved(
                    medium,
                    layout,
                    DirectoryLocation::RootDirectory,
                    components,
                ),
                whole == path_resolved(medium, layout, directory, components.skip(index as int)),
            decreases parts@.len() - index,
        {
            let part = parts[index].as_slice();
            assert(part@ == components.skip(index as int)[0]);
            if bytes_equal(part, ".".as_bytes()) || bytes_equal(part, "..".as_bytes()) {
                return Err(FatError::InvalidPath);
            }
            let entry = match self.find_directory_entry(directory, part) {
                Ok(entry) => entry,
                Err(error) => return Err(error),
            };
            if index + 1 == parts.len() {
                return Ok(entry);
            }
            if !entry.is_directory() {
                return Err(FatError::NotDirectory);
            }
            directory = DirectoryLocation::ClusterChain(entry.first_cluster);
            assert(components.skip(index as int).drop_first() =~= components.skip(index + 1));
            index += 1;
        }
        Err(FatError::InvalidPath)
    }

    /// Reads contiguous partition-relative sectors into the `length` bytes of
    /// `buffer` that start at `from`.
    fn read_relative_blocks_multi(
        &mut self,
        relative_sector: u32,
        buffer: &mut [u8],
        from: usize,
        length: usize,
    ) -> (outcome: Result<(), FatError>)
        requires
            old(self).well_formed(),
            from + length <= old(buffer)@.len(),
        ensures
            final(self).layout() == old(self).layout(),
            final(self).device().medium() == old(self).device().medium(),
            final(self).device().sectors() == old(self).device().sectors(),
            *final(final(self).device()) == *final(old(self).device()),
            final(buffer)@.len() == old(buffer)@.len(),
            match outcome {
                Ok(()) => final(self).device().faults() == old(self).device().faults()
                    && final(buffer)@ == old(buffer)@.take(from as int) + window(
                    old(self).device().medium(),
                    (old(self).layout().partition_start_lba + relative_sector) * 512,
                    length as int,
                ) + old(buffer)@.skip(from + length),
                Err(error) => error matches FatError::Device(fault) && final(self).device().faults()
                    == old(self).device().faults().push(fault),
            },
    {
        let ghost medium = self.device.medium();
        let ghost before = buffer@;
        let lba: u64 = self.layout.partition_start_lba + relative_sector as u64;
        let (_head, rest) = buffer.split_at_mut(from);
        let (part, _tail) = rest.split_at_mut(length);
        match self.device.read_blocks(lba, part) {
            Ok(()) => {
                assert(part@ =~= window(medium, lba * 512, length as int));
                assert(before.subrange(0, from as int) =~= before.take(from as int));
                assert(before.subrange(from as int, before.len() as int).subrange(
                    length as int,
                    before.len() - from,
                ) =~= before.skip(from + length));
                assert(_head@ + (part@ + _tail@) =~= _head@ + part@ + _tail@);
                Ok(())
            },
            Err(error) => Err(FatError::Device(error)),
        }
    }

    /// Reads one complete file cluster chain into `buffer`.
    fn read_file_contents(&mut self, first_cluster: u32, file_size: u32, buffer: &mut [u8]) -> (size:
        Result<usize, FatError>)
        requires
            old(self).well_formed(),
            file_size <= old(buffer)@.len(),
        ensures
            final(self).layout() == old(self).layout(),
            final(self).device().medium() == old(self).device().medium(),
            final(self).device().sectors() == old(self).device().sectors(),
            *final(final(self).device()) == *final(old(self).device()),
            final(buffer)@.len() == old(buffer)@.len(),
            ({
                let data = chain_data(
                    old(self).device().medium(),
                    old(self).layout(),
                    first_cluster,
                    file_size as nat,
                );
                match size {
                    Ok(written) => final(self).device().faults() == old(self).device().faults()
                        && written == file_size && data == Ok::<Seq<u8>, FatError>(
                        final(buffer)@.take(written as int),
                    ) && final(buffer)@.skip(written as int) == old(buffer)@.skip(written as int),
                    Err(FatError::Device(fault)) => final(self).device().faults() == old(
                        self,
                    ).device().faults().push(fault),
                    Err(error) => final(self).device().faults() == old(self).device().faults()
                        && data == Err::<Seq<u8>, FatError>(error),
                }
            }),
    {
        let ghost medium = self.device.medium();
        let ghost layout = self.layout;
        let ghost before = buffer@;
        let ghost whole = chain_data(medium, layout, first_cluster, file_size as nat);
        let mut cluster: u32 = first_cluster;
        let mut written: usize = 0;
        let mut remaining: usize = file_size as usize;
        assert(buffer@.take(0) =~= Seq::<u8>::empty());
        proof {
            if let Ok(data) = whole {
                assert(buffer@.take(0) + data =~= data);
            }
        }
        while remaining != 0
            invariant
                self.well_formed(),
                self.layout == layout,
                layout == old(self).layout(),
                medium == old(self).device().medium(),
                before == old(buffer)@,
                self.device().medium() == medium,
                self.device().sectors() == old(self).device().sectors(),
                self.device().faults() == old(self).device().faults(),
                *final(self.device()) == *final(old(self).device()),
                whole == chain_data(medium, layout, first_cluster, file_size as nat),
                buffer@.len() == before.len(),
                file_size <= before.len(),
                written + remaining == file_size,
                buffer@.skip(written as int) == before.skip(written as int),
                match chain_data(medium, layout, cluster, remaining as nat) {
                    Ok(rest) => whole == Ok::<Seq<u8>, FatError>(
                        buffer@.take(written as int) + rest,
                    ),
                    Err(error) => whole == Err::<Seq<u8>, FatError>(error),
                },
            ensures
                remaining == 0,
            decreases remaining,
        {
            let first_sector: u32 = match self.cluster_first_sector(cluster) {
                Ok(sector) => sector,
                Err(error) => return Err(error),
            };
            let per_cluster = self.layout.sectors_per_cluster as usize;
            let full_sectors = if remaining / 512 < per_cluster {
                remaining / 512
            } else {
                per_cluster
            };
            let ghost base = (layout.partition_start_lba + first_sector) * 512;
            let ghost start = written as int;
            let ghost share = cluster_share(layout, remaining as nat);
            let ghost data = window(medium, base, share as int);
            let ghost at_start = buffer@;
            let ghost left = remaining;
            if full_sectors != 0 {
                let length = full_sectors * 512;
                match self.read_relative_blocks_multi(first_sector, buffer, written, length) {
                    Ok(()) => {},
                    Err(error) => return Err(error),
                }
                written += length;
                remaining -= length;
            }
            proof {
                assert(buffer@.len() == before.len());
                assert(buffer@.take(written as int) =~= at_start.take(start) + window(
                    medium,
                    base,
                    full_sectors * 512,
                ));
                assert(buffer@.skip(written as int) =~= before.skip(written as int)) by {
                    assert(at_start.skip(start).skip(full_sectors * 512) =~= at_start.skip(
                        start + full_sectors * 512,
                    ));
                    assert(before.skip(start).skip(full_sectors * 512) =~= before.skip(
                        start + full_sectors * 512,
                    ));
                }
            }
            if remaining != 0 && full_sectors < per_cluster {
                assert(remaining < 512);
                let tail = match self.read_relative_blocks(first_sector + full_sectors as u32) {
                    Ok(bytes) => bytes,
                    Err(error) => return Err(error),
                };
                let ghost middle = written as int;
                let ghost with_sectors = buffer@;
                let tail_len = remaining;
                let mut index: usize = 0;
                while index < tail_len
                    invariant
                        index <= tail_len < 512,
                        middle == written,
                        written + tail_len <= buffer@.len(),
                        written + tail_len <= usize::MAX,
                        buffer@.len() == with_sectors.len(),
                        forall|i: int|
                            0 <= i < buffer@.len() && !(middle <= i < middle + index) ==> buffer@[i]
                                == with_sectors[i],
                        forall|i: int|
                            0 <= i < index ==> #[trigger] buffer@[middle + i] == tail@[i],
                    decreases tail_len - index,
                {
                    let ghost previous = buffer@;
                    buffer[written + index] = tail[index];
                    assert forall|i: int| 0 <= i < index + 1 implies #[trigger] buffer@[middle + i]
                        == tail@[i] by {
                        if i < index {
                            assert(previous[middle + i] == tail@[i]);
                        }
                    }
                    index += 1;
                }
                written += tail_len;
                remaining -= tail_len;
                proof {
                    assert forall|i: int| 0 <= i < share implies buffer@[start + i] == data[i] by {
                        if i >= full_sectors * 512 {
                            let j = i - full_sectors * 512;
                            assert(buffer@[middle + j] == tail@[j]);
                        } else {
                            assert(with_sectors.take(middle)[start + i] == (at_start.take(start)
                                + window(medium, base, full_sectors * 512))[start + i]);
                        }
                    }
                    assert forall|i: int| 0 <= i < start implies buffer@[i] == at_start[i] by {
                        assert(with_sectors.take(middle)[i] == (at_start.take(start) + window(
                            medium,
                            base,
                            full_sectors * 512,
                        ))[i]);
                    }
                    assert(buffer@.take(written as int) =~= at_start.take(start) + data);
                    assert forall|i: int| written <= i < before.len() implies buffer@[i] == before[i]
                        by {
                        assert(with_sectors.skip(middle)[i - middle] == before.skip(middle)[i
                            - middle]);
                    }
                    assert(buffer@.skip(written as int) =~= before.skip(written as int));
                }
            }
            assert(share == written - start);
            assert(buffer@.take(written as int) == at_start.take(start) + data);
            if remaining == 0 {
                break;
            }
            assert(chain_next(medium, layout, cluster) is Ok ==> share < left);
            let next: u32 = match self.next_cluster(cluster) {
                Ok(next) => next,
                Err(error) => return Err(error),
            };
            if self.is_end_of_chain(next) {
                return Err(FatError::InvalidCluster(next));
            }
            proof {
                if let Ok(rest) = chain_data(medium, layout, next, remaining as nat) {
                    assert(at_start.take(start) + (data + rest) =~= buffer@.take(written as int)
                        + rest);
                }
            }
            cluster = next;
        }
        proof {
            assert(buffer@.take(written as int) + Seq::<u8>::empty() =~= buffer@.take(
                written as int,
            ));
        }
        Ok(written)
    }

    /// Reads one file from the mounted volume into `buffer` and returns its size.
    pub fn read_file(&mut self, path: &str, buffer: &mut [u8]) -> (size: Result<usize, FatError>)
        requires
            old(self).well_formed(),
        ensures
            final(self).well_formed(),
            final(self).layout() == old(self).layout(),
            final(self).device().medium() == old(self).device().medium(),
            final(self).device().sectors() == old(self).device().sectors(),
            *final(final(self).device()) == *final(old(self).device()),
            final(buffer)@.len() == old(buffer)@.len(),
            ({
                let entry = path_resolved(
                    old(self).device().medium(),
                    old(self).layout(),
                    DirectoryLocation::RootDirectory,
                    components_of(path.spec_bytes()),
                );
                let too_small = entry matches Ok(found) && !found.names_directory()
                    && old(buffer)@.len() < found.file_size;
                let data = file_at(
                    old(self).device().medium(),
                    old(self).layout(),
                    path.spec_bytes(),
                );
                match size {
                    Err(FatError::Device(fault)) => final(self).device().faults() == old(
                        self,
                    ).device().faults().push(fault),
                    Ok(written) => final(self).device().faults() == old(self).device().faults()
                        && !too_small && written <= old(buffer)@.len() && data == Ok::<
                        Seq<u8>,
                        FatError,
                    >(final(buffer)@.take(written as int)) && final(buffer)@.skip(written as int)
                        == old(buffer)@.skip(written as int),
                    Err(error) => final(self).device().faults() == old(self).device().faults()
                        && if too_small {
                        error == FatError::BufferTooSmall && final(buffer)@ == old(buffer)@
                    } else {
                        data == Err::<Seq<u8>, FatError>(error)
                    },
                }
            }),
    {
        let entry = match self.find_path_entry(path) {
            Ok(entry) => entry,
            Err(error) => return Err(error),
        };
        if entry.is_directory() {
            return Err(FatError::IsDirectory);
        }
        let file_size = entry.file_size as usize;
        if buffer.len() < file_size {
            return Err(FatError::BufferTooSmall);
        }
        self.read_file_contents(entry.first_cluster, entry.file_size, buffer)
    }

    /// Lists all files below the root directory, each with its path and size,
    /// in the order in which the directories hold them. The files met before an
    /// error stay in `files`.
    pub fn walk_files(&mut self, files: &mut Vec<WalkedFile>) -> (outcome: Result<(), FatError>)
        requires
            old(self).well_formed(),
        ensures
            final(self).well_formed(),
            final(self).layout() == old(self).layout(),
            final(self).device().medium() == old(self).device().medium(),
            final(self).device().sectors() == old(self).device().sectors(),
            *final(final(self).device()) == *final(old(self).device()),
            ({
                let walked = directory_walked(
                    old(self).device().medium(),
                    old(self).layout(),
                    DirectoryLocation::RootDirectory,
                    Seq::empty(),
                );
                match outcome {
                    Err(FatError::Device(fault)) => final(self).device().faults() == old(
                        self,
                    ).device().faults().push(fault) && partly_listed(
                        listed(old(files)@),
                        listed(final(files)@),
                        walked.files,
                    ),
                    _ => final(self).device().faults() == old(self).device().faults() && outcome
                        == walked.outcome && listed(final(files)@) == listed(old(files)@)
                        + walked.files,
                }
            }),
    {
        let path: Vec<u8> = Vec::new();
        assert(path@ =~= Seq::empty());
        self.walk_directory(DirectoryLocation::RootDirectory, &path, files)
    }

    /// Recursively walks all files contained in `directory`, which is at `path`.
    fn walk_directory(
        &mut self,
        directory: DirectoryLocation,
        path: &Vec<u8>,
        files: &mut Vec<WalkedFile>,
    ) -> (outcome: Result<(), FatError>)
        requires
            old(self).well_formed(),
            path@.len() <= 1024,
        ensures
            final(self).layout() == old(self).layout(),
            final(self).device().medium() == old(self).device().medium(),
            final(self).device().sectors() == old(self).device().sectors(),
            *final(final(self).device()) == *final(old(self).device()),
            ({
                let walked = directory_walked(
                    old(self).device().medium(),
                    old(self).layout(),
                    directory,
                    path@,
                );
                match outcome {
                    Err(FatError::Device(fault)) => final(self).device().faults() == old(
                        self,
                    ).device().faults().push(fault) && partly_listed(
                        listed(old(files)@),
                        listed(final(files)@),
                        walked.files,
                    ),
                    _ => final(self).device().faults() == old(self).device().faults() && outcome
                        == walked.outcome && listed(final(files)@) == listed(old(files)@)
                        + walked.files,
                }
            }),
        decreases 1024 - path@.len(),
    {
        let ghost medium = self.device.medium();
        let ghost layout = self.layout;
        let ghost whole = listing_of(medium, layout, directory);
        let ghost files_before = listed(files@);
        let mut long_name_state = LongNameState::new();
        let mut found: Vec<NamedEntry> = Vec::new();
        let mut cursor = self.start_of(directory);
        let mut visited: usize = 0;
        assert(named(found@) =~= Seq::empty());
        assert(named(found@).take(0) =~= Seq::empty());
        assert(files_before + Seq::empty() =~= files_before);
        loop
            invariant
                self.well_formed(),
                self.layout == layout,
                layout == old(self).layout(),
                medium == old(self).device().medium(),
                self.device().medium() == medium,
                self.device().sectors() == old(self).device().sectors(),
                self.device().faults() == old(self).device().faults(),
                *final(self.device()) == *final(old(self).device()),
                path@.len() <= 1024,
                cursor_fits(layout, cursor),
                whole == listing_of(medium, layout, directory),
                whole == listing_finished(
                    medium,
                    layout,
                    (FatListing { state: long_name_state@, entries: named(found@), end: None }),
                    cursor,
                ),
                files_before == listed(old(files)@),
                visited == found@.len(),
                ({
                    let walked = entries_walked(medium, layout, named(found@), path@);
                    walked.outcome == Ok::<(), FatError>(()) && listed(files@) == files_before
                            + walked.files
                }),
            decreases cursor.fuel, cursor.left,
        {
            let ghost seen_before = named(found@);
            proof {
                finishing_appends(
                    medium,
                    layout,
                    FatListing { state: long_name_state@, entries: named(found@), end: None },
                    cursor,
                );
            }
            let more = self.read_more(&mut cursor, &mut long_name_state, &mut found);
            if let Err(FatError::Device(fault)) = more {
                proof {
                    walk_begins(medium, layout, seen_before, whole.entries, path@);
                    beginning_is_partly_listed(
                        files_before,
                        entries_walked(medium, layout, seen_before, path@).files,
                        directory_walked(medium, layout, directory, path@).files,
                    );
                }
                return Err(FatError::Device(fault));
            }
            let ghost seen = named(found@);
            proof {
                finishing_appends(
                    medium,
                    layout,
                    FatListing { state: long_name_state@, entries: named(found@), end: None },
                    cursor,
                );
                assert(whole.entries.take(whole.entries.len() as int) =~= whole.entries);
                assert(is_beginning(seen, whole.entries));
                assert(is_beginning(seen_before, seen));
                assert(seen.take(visited as int) == seen_before);
            }
            while visited < found.len()
                invariant
                    self.well_formed(),
                    self.layout == layout,
                    layout == old(self).layout(),
                    medium == old(self).device().medium(),
                    self.device().medium() == medium,
                    self.device().sectors() == old(self).device().sectors(),
                    self.device().faults() == old(self).device().faults(),
                    *final(self.device()) == *final(old(self).device()),
                    path@.len() <= 1024,
                    whole == listing_of(medium, layout, directory),
                    seen == named(found@),
                    is_beginning(seen, whole.entries),
                    files_before == listed(old(files)@),
                    visited <= found@.len(),
                    ({
                        let walked = entries_walked(
                            medium,
                            layout,
                            seen.take(visited as int),
                            path@,
                        );
                        walked.outcome == Ok::<(), FatError>(()) && listed(files@) == files_before
                            + walked.files
                    }),
                decreases found@.len() - visited,
            {
                let ghost so_far = seen.take(visited as int);
                let ghost longer = seen.take(visited + 1);
                let ghost walked = entries_walked(medium, layout, so_far, path@);
                proof {
                    assert(longer.drop_last() =~= so_far);
                    assert(longer.last() == seen[visited as int]);
                    assert(whole.entries.take(longer.len() as int) =~= longer);
                    assert(is_beginning(longer, whole.entries));
                    walk_begins(medium, layout, longer, whole.entries, path@);
                }
                let name = found[visited].name.as_slice();
                let entry = found[visited].entry;
                if !bytes_equal(name, ".".as_bytes()) && !bytes_equal(name, "..".as_bytes()) {
                    if name.len() > 1023 || path.len() + 1 + name.len() > 1024 {
                        proof {
                            walk_stops_at_error(medium, layout, longer, whole.entries, path@);
                        }
                        return Err(FatError::NameTooLong);
                    }
                    let full_path = append_path_component(path, name);
                    if entry.is_directory() {
                        let inner = self.walk_directory(
                            DirectoryLocation::ClusterChain(entry.first_cluster),
                            &full_path,
                            files,
                        );
                        proof {
                            let deeper = directory_walked(
                                medium,
                                layout,
                                DirectoryLocation::ClusterChain(entry.first_cluster),
                                full_path@,
                            );
                            assert(files_before + walked.files + deeper.files =~= files_before + (
                            walked.files + deeper.files));
                            if inner matches Err(FatError::Device(_)) {
                                deeper_is_partly_listed(
                                    files_before,
                                    walked.files,
                                    deeper.files,
                                    listed(files@),
                                    directory_walked(medium, layout, directory, path@).files,
                                );
                            }
                        }
                        match inner {
                            Ok(done) => {
                                assert(done == ());
                            },
                            Err(error) => {
                                proof {
                                    if !(error is Device) {
                                        walk_stops_at_error(
                                            medium,
                                            layout,
                                            longer,
                                            whole.entries,
                                            path@,
                                        );
                                    }
                                }
                                return Err(error);
                            },
                        }
                    } else {
                        let ghost listed_before = listed(files@);
                        let ghost record = WalkedPath { path: full_path@, size: entry.file_size };
                        files.push(WalkedFile { path: full_path, size: entry.file_size });
                        assert(listed(files@) =~= listed_before.push(record));
                        assert(files_before + walked.files.push(record) =~= (files_before
                            + walked.files).push(record));
                    }
                }
                visited += 1;
            }
            assert(seen.take(visited as int) =~= seen);
            match more {
                Ok(true) => {},
                Ok(false) => return Ok(()),
                Err(error) => return Err(error),
            }
        }
    }
}

/// One file found by a walk.
pub struct WalkedFile {
    /// Path from the root directory, with a leading slash.
    pub path: Vec<u8>,
    /// Size in bytes.
    pub size: u32,
}

/// The paths and sizes that a vector holds.
pub open spec fn listed(files: Seq<WalkedFile>) -> Seq<WalkedPath> {
    Seq::new(files.len(), |i: int| WalkedPath { path: files[i].path@, size: files[i].size })
}

/// Returns `path` with one component appended.
fn append_path_component(path: &Vec<u8>, component: &[u8]) -> (joined: Vec<u8>)
    ensures
        joined@ == path_joined(path@, component@),
{
    let mut joined: Vec<u8> = Vec::new();
    let mut index: usize = 0;
    while index < path.len()
        invariant
            index <= path@.len(),
            joined@ == path@.take(index as int),
        decreases path@.len() - index,
    {
        joined.push(path[index]);
        index += 1;
        assert(joined@ =~= path@.take(index as int));
    }
    joined.push(0x2f);
    let ghost head = joined@;
    let mut place: usize = 0;
    while place < component.len()
        invariant
            place <= component@.len(),
            joined@ == head + component@.take(place as int),
        decreases component@.len() - place,
    {
        joined.push(component[place]);
        place += 1;
        assert(joined@ =~= head + component@.take(place as int));
    }
    assert(joined@ =~= path_joined(path@, component@));
    joined
}

/// Whether the sectors and the cluster of a cursor are those of the volume.
pub open spec fn cursor_fits(layout: FatLayout, cursor: DirectoryCursor) -> bool {
    &&& cursor.sector + cursor.left <= u32::MAX
    &&& cursor.cluster == 0 || cluster_valid(layout, cursor.cluster)
}

/// Decodes a boot sector.
fn decode_boot_sector(boot_sector: &[u8], partition_start_lba: u64) -> (layout: Result<
    FatLayout,
    FatError,
>)
    requires
        boot_sector@.len() == 512,
        partition_start_lba + u32::MAX <= u64::MAX,
    ensures
        layout == boot_layout(boot_sector@, partition_start_lba),
        layout matches Ok(decoded) ==> decoded.well_formed(),
{
    let bytes_per_sector: u16 = read_le_u16(boot_sector, 11);
    if bytes_per_sector != 512 {
        return Err(FatError::UnsupportedSectorSize(bytes_per_sector));
    }
    let sectors_per_cluster: u8 = boot_sector[13];
    let reserved_sector_count: u16 = read_le_u16(boot_sector, 14);
    let fat_count: u8 = boot_sector[16];
    let root_dir_entries: u16 = read_le_u16(boot_sector, 17);
    let total_sectors_16: u16 = read_le_u16(boot_sector, 19);
    let fat_size_16: u16 = read_le_u16(boot_sector, 22);
    let total_sectors_32: u32 = read_le_u32(boot_sector, 32);
    let fat_size_32: u32 = read_le_u32(boot_sector, 36);
    let root_cluster: u32 = read_le_u32(boot_sector, 44);
    if sectors_per_cluster == 0 || reserved_sector_count == 0 || fat_count == 0 {
        return Err(FatError::InvalidBootSector);
    }
    let total_sectors: u32 = if total_sectors_16 != 0 {
        total_sectors_16 as u32
    } else {
        total_sectors_32
    };
    let fat_size_sectors: u32 = if fat_size_16 != 0 {
        fat_size_16 as u32
    } else {
        fat_size_32
    };
    if total_sectors == 0 || fat_size_sectors == 0 {
        return Err(FatError::InvalidBootSector);
    }
    let root_dir_sectors: u32 = (root_dir_entries as u32 * 32 + 511) / 512;
    assert(1 <= fat_count * fat_size_sectors <= 0xff * 0xffff_ffff) by (nonlinear_arith)
        requires
            1 <= fat_count <= 0xff,
            1 <= fat_size_sectors <= 0xffff_ffff,
    ;
    let root_dir_first_sector: u64 = reserved_sector_count as u64 + fat_count as u64
        * fat_size_sectors as u64;
    let data_first_sector: u64 = root_dir_first_sector + root_dir_sectors as u64;
    if (total_sectors as u64) < data_first_sector {
        return Err(FatError::InvalidBootSector);
    }
    let data_sectors: u32 = total_sectors - data_first_sector as u32;
    let total_clusters: u32 = data_sectors / sectors_per_cluster as u32;
    assert(total_clusters * sectors_per_cluster <= data_sectors) by (nonlinear_arith)
        requires
            total_clusters == data_sectors / sectors_per_cluster as u32,
            sectors_per_cluster >= 1,
    ;
    assert(total_clusters <= data_sectors) by (nonlinear_arith)
        requires
            total_clusters * sectors_per_cluster <= data_sectors,
            sectors_per_cluster >= 1,
    ;
    if total_clusters < 4085 {
        return Err(FatError::UnsupportedFatType);
    }
    let fat_type = if total_clusters < 65525 {
        FatType::Fat16
    } else {
        FatType::Fat32
    };
    let root: u32 = match fat_type {
        FatType::Fat16 => 0,
        FatType::Fat32 => {
            if root_cluster < 2 {
                return Err(FatError::InvalidBootSector);
            }
            root_cluster
        },
    };
    Ok(
        FatLayout {
            partition_start_lba,
            fat_type,
            sectors_per_cluster,
            reserved_sector_count,
            root_dir_sectors,
            root_dir_first_sector: root_dir_first_sector as u32,
            data_first_sector: data_first_sector as u32,
            root_cluster: root,
            total_clusters,
        },
    )
}

/// What a directory entry is to a caller.
pub open spec fn entry_metadata(entry: FatDirectoryEntry) -> FileInfo {
    FileInfo {
        file_type: if entry.names_directory() {
            FileType::Directory
        } else {
            FileType::File
        },
        size_bytes: entry.file_size as usize,
    }
}

/// What a directory entry leads to. Directories and files without a page count are
/// not loaded.
pub open spec fn entry_state(medium: Seq<u8>, layout: FatLayout, entry: FatDirectoryEntry) -> FileState {
    FileState {
        metadata: entry_metadata(entry),
        refused: entry.names_directory() || entry.file_size + 4095 > usize::MAX,
        data: match chain_data(medium, layout, entry.first_cluster, entry.file_size as nat) {
            Ok(data) => Some(data),
            Err(_) => None,
        },
    }
}

impl<'a, D: BlockDevice> MountedVolume<'a> for FatVolume<'a, D> {
    type Error = FatError;

    type Holding = (Seq<u8>, FatLayout, u64);

    type Source = D;

    open spec fn source(&self) -> &'a mut D {
        self.device()
    }

    open spec fn readable(&self) -> bool {
        self.well_formed()
    }

    open spec fn holding(&self) -> (Seq<u8>, FatLayout, u64) {
        (self.device().medium(), self.layout(), self.device().sectors())
    }

    open spec fn device_faults(&self) -> Seq<VirtioError> {
        self.device().faults()
    }

    open spec fn state_at(holding: (Seq<u8>, FatLayout, u64), path: Seq<u8>) -> Option<FileState> {
        match path_resolved(
            holding.0,
            holding.1,
            DirectoryLocation::RootDirectory,
            components_of(path),
        ) {
            Ok(entry) => Some(entry_state(holding.0, holding.1, entry)),
            Err(_) => None,
        }
    }

    open spec fn load_type() -> EFI_MEMORY_TYPE {
        EFI_MEMORY_TYPE::EfiLoaderData
    }
}

impl<'a, D: BlockDevice> FatVolume<'a, D> {
    /// Reads a file into pages that were allocated at `physical_start`.
    fn load_into_pages(&mut self, entry: FatDirectoryEntry, physical_start: u64) -> (outcome: Result<
        LoadedFile,
        FatError,
    >)
        requires
            old(self).well_formed(),
            !entry.names_directory(),
            entry.file_size + 4095 <= usize::MAX,
        ensures
            final(self).layout() == old(self).layout(),
            final(self).device().medium() == old(self).device().medium(),
            final(self).device().sectors() == old(self).device().sectors(),
            *final(final(self).device()) == *final(old(self).device()),
            ({
                let state = entry_state(old(self).device().medium(), old(self).layout(), entry);
                match outcome {
                    Ok(file) => final(self).device().faults() == old(self).device().faults()
                        && loads_as(state, physical_start, file),
                    Err(FatError::Device(fault)) => final(self).device().faults() == old(
                        self,
                    ).device().faults().push(fault),
                    Err(error) => final(self).device().faults() == old(self).device().faults()
                        && chain_data(
                        old(self).device().medium(),
                        old(self).layout(),
                        entry.first_cluster,
                        entry.file_size as nat,
                    ) == Err::<Seq<u8>, FatError>(error),
                }
            }),
    {
        let size_bytes = entry.file_size as usize;
        let page_count: usize = file_page_count(size_bytes);
        let mut contents: Vec<u8> = vec![0u8; page_count * 4096];
        let ghost zeros = contents@;
        match self.read_file_contents(
            entry.first_cluster,
            entry.file_size,
            contents.as_mut_slice(),
        ) {
            Ok(_) => {
                assert(contents@ =~= in_pages(
                    contents@.take(size_bytes as int),
                    page_count as int,
                )) by {
                    assert forall|i: int| size_bytes <= i < contents@.len() implies contents@[i]
                        == 0 by {
                        assert(contents@.skip(size_bytes as int)[i - size_bytes] == zeros.skip(
                            size_bytes as int,
                        )[i - size_bytes]);
                    }
                }
                Ok(LoadedFile::new(physical_start, page_count, size_bytes, contents))
            },
            Err(error) => Err(error),
        }
    }
}

/// Converts one file size in bytes into the corresponding number of 4 KiB pages,
/// at least one.
fn file_page_count(size_bytes: usize) -> (count: usize)
    requires
        size_bytes + 4095 <= usize::MAX,
    ensures
        count == pages_needed(size_bytes as int),
        count * 4096 <= usize::MAX,
{
    if size_bytes == 0 {
        1
    } else {
        (size_bytes + 4095) / 4096
    }
}

/// Open FAT path handle used to inspect metadata and load contents.
pub struct FatFile {
    /// Resolved directory entry for the opened path.
    pub entry: FatDirectoryEntry,
}

impl FileInfoView for FatFile {
    open spec fn metadata(&self) -> FileInfo {
        entry_metadata(self.entry)
    }

    /// Returns whether the opened path is a file or a directory.
    fn file_type(&self) -> (kind: FileType) {
        if self.entry.is_directory() {
            FileType::Directory
        } else {
            FileType::File
        }
    }

    /// Returns the size in bytes associated with the opened path.
    fn size_bytes(&self) -> (size: usize) {
        self.entry.file_size as usize
    }
}

/// Whether an error tells why a file was not loaded: a directory, a size without a
/// page count, memory that was not granted, or else what came up while reading: an
/// error of the device, or why there are no contents.
pub open spec fn load_error_kept(
    entry: FatDirectoryEntry,
    granted: Result<(u64, Seq<EFI_MEMORY_DESCRIPTOR>), MemoryError>,
    contents: Result<Seq<u8>, FatError>,
    error: FatError,
) -> bool {
    if entry.names_directory() {
        error == FatError::IsDirectory
    } else if entry.file_size + 4095 > usize::MAX {
        error == FatError::BufferTooSmall
    } else {
        match granted {
            Err(reason) => error == FatError::Memory(reason),
            Ok(_) => error is Device || contents == Err::<Seq<u8>, FatError>(error),
        }
    }
}

impl<'a, D: BlockDevice> FileHandle<'a, FatVolume<'a, D>> for FatFile {
    open spec fn state_in(&self, holding: (Seq<u8>, FatLayout, u64)) -> FileState {
        entry_state(holding.0, holding.1, self.entry)
    }

    /// Loads the file into page-aligned EFI-style memory.
    fn load(&self, volume: &mut FatVolume<'a, D>, allocator: &mut PageAllocator<'_>) -> (outcome:
        Result<LoadedFile, FatError>)
        ensures
            *final(final(volume).device()) == *final(old(volume).device()),
            final(volume).device().sectors() == old(volume).device().sectors(),
            outcome matches Err(error) ==> load_error_kept(
                self.entry,
                size_allocation(
                    old(allocator).map(),
                    EFI_MEMORY_TYPE::EfiLoaderData,
                    self.entry.file_size as usize,
                    old(allocator).capacity(),
                ),
                chain_data(
                    old(volume).device().medium(),
                    old(volume).layout(),
                    self.entry.first_cluster,
                    self.entry.file_size as nat,
                ),
                error,
            ),
            outcome matches Err(FatError::Device(fault)) ==> final(volume).device().faults() == old(
                volume,
            ).device().faults().push(fault),
            !(outcome matches Err(FatError::Device(_))) ==> final(volume).device().faults() == old(
                volume,
            ).device().faults(),
    {
        if self.entry.is_directory() {
            return Err(FatError::IsDirectory);
        }
        let size_bytes = self.entry.file_size as usize;
        if size_bytes > usize::MAX - 4095 {
            return Err(FatError::BufferTooSmall);
        }
        let physical_start: u64 = match allocator.allocate_pages_for_size(
            EFI_MEMORY_TYPE::EfiLoaderData,
            size_bytes,
        ) {
            Ok(start) => start,
            Err(error) => return Err(FatError::Memory(error)),
        };
        volume.load_into_pages(self.entry, physical_start)
    }

    /// Loads the file into page-aligned EFI-style memory at one fixed address.
    fn load_at(
        &self,
        volume: &mut FatVolume<'a, D>,
        allocator: &mut PageAllocator<'_>,
        physical_start: u64,
    ) -> (outcome: Result<LoadedFile, FatError>)
        ensures
            *final(final(volume).device()) == *final(old(volume).device()),
            final(volume).device().sectors() == old(volume).device().sectors(),
            outcome matches Err(error) ==> load_error_kept(
                self.entry,
                allocation(
                    old(allocator).map(),
                    EFI_ALLOCATE_TYPE::AllocateAddress,
                    EFI_MEMORY_TYPE::EfiLoaderData,
                    pages_needed(self.entry.file_size as int) as usize,
                    physical_start,
                    old(allocator).capacity(),
                ),
                chain_data(
                    old(volume).device().medium(),
                    old(volume).layout(),
                    self.entry.first_cluster,
                    self.entry.file_size as nat,
                ),
                error,
            ),
            outcome matches Err(FatError::Device(fault)) ==> final(volume).device().faults() == old(
                volume,
            ).device().faults().push(fault),
            !(outcome matches Err(FatError::Device(_))) ==> final(volume).device().faults() == old(
                volume,
            ).device().faults(),
    {
        if self.entry.is_directory() {
            return Err(FatError::IsDirectory);
        }
        let size_bytes = self.entry.file_size as usize;
        if size_bytes > usize::MAX - 4095 {
            return Err(FatError::BufferTooSmall);
        }
        let page_count: usize = file_page_count(size_bytes);
        let mut start: u64 = physical_start;
        match allocator.AllocatePages(
            EFI_ALLOCATE_TYPE::AllocateAddress,
            EFI_MEMORY_TYPE::EfiLoaderData,
            page_count,
            &mut start,
        ) {
            Ok(()) => {},
            Err(error) => return Err(FatError::Memory(error)),
        }
        volume.load_into_pages(self.entry, start)
    }
}

impl<'a, D: BlockDevice> FileSystem<'a> for FatVolume<'a, D> {
    type File = FatFile;

    /// Opens one path as a filesystem file handle.
    fn open(&mut self, path: &str) -> (file: Result<FatFile, FatError>)
        ensures
            *final(final(self).device()) == *final(old(self).device()),
            final(self).device().sectors() == old(self).device().sectors(),
            file matches Err(error) ==> (error is Device || path_resolved(
                old(self).device().medium(),
                old(self).layout(),
                DirectoryLocation::RootDirectory,
                components_of(path.spec_bytes()),
            ) == Err::<FatDirectoryEntry, FatError>(error)),
    {
        let entry = match self.find_path_entry(path) {
            Ok(entry) => entry,
            Err(error) => return Err(error),
        };
        Ok(FatFile { entry })
    }
}

} // verus!
