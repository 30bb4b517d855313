//! What kernel images, loaded files and directory walks are made of.

use vstd::prelude::*;
use vstd::string::*;
use crate::bytes::window;
use crate::ext4::inode_state;
use crate::ext4_format::{
    contents_have_size, directory_visited, entries_visited, inode_contents, inode_of, path_visited,
    requested_inode, superblock_layout, Ext4Error, Ext4Layout, Ext4Named, Ext4Walked, InodeRecord,
};
use crate::fat::{
    boot_layout, chain_data, chain_data_has_size, directory_walked, entries_walked, entry_state,
    DirectoryLocation, FatDirectoryEntry, FatLayout, FatNamed, WalkedPath,
};
use crate::filesystem::in_pages;
use crate::firmware::{filesystem_at, relocation_place};
use crate::linux::{boot_map, image_header, kernel_fault, LinuxBootImageHeader};
use crate::memory::{allocation, pages_needed, FirmwareRanges, EFI_ALLOCATE_TYPE, EFI_MEMORY_TYPE};
use crate::memory_laws::granted_pages_were_free;
use crate::memory_map::{end_of, kind_at, map_sound, sound, EFI_MEMORY_DESCRIPTOR};
use crate::memory_place_laws::request_is_granted_where_it_can_be;
use crate::path_laws::leading_slash_is_trimmed;
use crate::records::{le32_stored, le64_stored, stored, stored_is_there, stored_parts};
use crate::virtio::sector_at;
use crate::virtqueue_memory::{le32_bytes, le64_bytes};

verus! {

/// The header of a kernel image.
#[verifier::opaque]
pub open spec fn kernel_image(header: LinuxBootImageHeader) -> Seq<u8> {
    le32_bytes(header.code0) + le32_bytes(header.code1) + le64_bytes(header.text_offset)
        + le64_bytes(header.image_size) + le64_bytes(header.flags) + le32_bytes(header.version)
        + le32_bytes(header.res1) + le64_bytes(header.res2) + le64_bytes(header.magic) + le32_bytes(
        header.magic2,
    ) + le32_bytes(header.res3)
}

/// A kernel image is accepted exactly when its header holds both magic numbers, which spell
/// `RISCV` and `RSC` with a 5; what the header was written with is read back.
#[verifier::spinoff_prover]
#[verifier::rlimit(40)]
pub proof fn written_kernel_header_is_read(bytes: Seq<u8>, header: LinuxBootImageHeader)
    requires
        stored(bytes, 0, kernel_image(header)),
    ensures
        image_header(bytes) == header,
        kernel_fault(bytes) is None <==> header.magic == 0x52 + 0x49 * 0x100 + 0x53 * 0x1_0000
            + 0x43 * 0x100_0000 + 0x56 * 0x1_0000_0000 && header.magic2 == 0x52 + 0x53 * 0x100
            + 0x43 * 0x1_0000 + 0x05 * 0x100_0000,
{
    reveal(kernel_image);
    let p0 = le32_bytes(header.code0);
    let p1 = p0 + le32_bytes(header.code1);
    let p2 = p1 + le64_bytes(header.text_offset);
    let p3 = p2 + le64_bytes(header.image_size);
    let p4 = p3 + le64_bytes(header.flags);
    let p5 = p4 + le32_bytes(header.version);
    let p6 = p5 + le32_bytes(header.res1);
    let p7 = p6 + le64_bytes(header.res2);
    let p8 = p7 + le64_bytes(header.magic);
    let p9 = p8 + le32_bytes(header.magic2);
    stored_is_there(bytes, 0, kernel_image(header));
    stored_parts(bytes, 0, p9, le32_bytes(header.res3));
    stored_parts(bytes, 0, p8, le32_bytes(header.magic2));
    stored_parts(bytes, 0, p7, le64_bytes(header.magic));
    stored_parts(bytes, 0, p6, le64_bytes(header.res2));
    stored_parts(bytes, 0, p5, le32_bytes(header.res1));
    stored_parts(bytes, 0, p4, le32_bytes(header.version));
    stored_parts(bytes, 0, p3, le64_bytes(header.flags));
    stored_parts(bytes, 0, p2, le64_bytes(header.image_size));
    stored_parts(bytes, 0, p1, le64_bytes(header.text_offset));
    stored_parts(bytes, 0, p0, le32_bytes(header.code1));
    le32_stored(bytes, 0, header.code0);
    le32_stored(bytes, 4, header.code1);
    le64_stored(bytes, 8, header.text_offset);
    le64_stored(bytes, 16, header.image_size);
    le64_stored(bytes, 24, header.flags);
    le32_stored(bytes, 32, header.version);
    le32_stored(bytes, 36, header.res1);
    le64_stored(bytes, 40, header.res2);
    le64_stored(bytes, 48, header.magic);
    le32_stored(bytes, 56, header.magic2);
    le32_stored(bytes, 60, header.res3);
}

/// A file takes as few whole pages as hold it, but one at least, and zeros fill the last one.
pub proof fn file_fills_pages(data: Seq<u8>)
    ensures
        ({
            let pages = pages_needed(data.len() as int);
            let filled = in_pages(data, pages);
            &&& pages >= 1
            &&& data.len() <= pages * 4096
            &&& pages > 1 ==> (pages - 1) * 4096 < data.len()
            &&& filled.len() == pages * 4096
            &&& filled.take(data.len() as int) == data
            &&& forall|i: int| data.len() <= i < filled.len() ==> #[trigger] filled[i] == 0
        }),
{
    let pages = pages_needed(data.len() as int);
    assert(in_pages(data, pages).take(data.len() as int) =~= data);
}

/// Walking over more entries of a FAT directory goes on behind the walk over the first ones,
/// where that met no error.
pub proof fn fat_walk_goes_on(
    medium: Seq<u8>,
    layout: FatLayout,
    first: Seq<FatNamed>,
    second: Seq<FatNamed>,
    path: Seq<u8>,
)
    ensures
        ({
            let part = entries_walked(medium, layout, first, path);
            let more = entries_walked(medium, layout, second, path);
            let whole = entries_walked(medium, layout, first + second, path);
            &&& part.outcome is Ok ==> whole.files == part.files + more.files && whole.outcome
                == more.outcome
            &&& part.outcome is Err ==> whole == part
        }),
    decreases second.len(),
{
    let part = entries_walked(medium, layout, first, path);
    if let Ok(done) = part.outcome {
        assert(done == ());
    }
    if second.len() == 0 {
        assert(first + second =~= first);
        assert(part.files + Seq::<WalkedPath>::empty() =~= part.files);
    } else {
        assert((first + second).drop_last() =~= first + second.drop_last());
        fat_walk_goes_on(medium, layout, first, second.drop_last(), path);
        let before = entries_walked(medium, layout, second.drop_last(), path);
        let more = entries_walked(medium, layout, second, path);
        let whole = entries_walked(medium, layout, first + second, path);
        if part.outcome is Ok {
            assert(whole.files =~= part.files + more.files);
        }
    }
}

/// A walk lists a file of a FAT directory by the path of the directory and its name, with its
/// size, and goes through a directory below that path. The entries `.` and `..` are left out.
pub proof fn fat_walk_lists_entry(
    medium: Seq<u8>,
    layout: FatLayout,
    named: FatNamed,
    path: Seq<u8>,
)
    requires
        path.len() + 1 + named.name.len() <= 1024,
    ensures
        ({
            let walk = entries_walked(medium, layout, seq![named], path);
            let below = path + seq![0x2fu8] + named.name;
            if named.name == ".".spec_bytes() || named.name == "..".spec_bytes() {
                walk.outcome is Ok && walk.files.len() == 0
            } else if named.entry.names_directory() {
                walk == directory_walked(
                    medium,
                    layout,
                    DirectoryLocation::ClusterChain(named.entry.first_cluster),
                    below,
                )
            } else {
                walk.outcome is Ok && walk.files == seq![
                    WalkedPath { path: below, size: named.entry.file_size },
                ]
            }
        }),
{
    let none = Seq::<FatNamed>::empty();
    assert(seq![named].drop_last() =~= none);
    let empty = entries_walked(medium, layout, none, path);
    assert(empty.files =~= Seq::<WalkedPath>::empty());
    let walk = entries_walked(medium, layout, seq![named], path);
    let below = path + seq![0x2fu8] + named.name;
    let inner = directory_walked(
        medium,
        layout,
        DirectoryLocation::ClusterChain(named.entry.first_cluster),
        below,
    );
    assert(Seq::<WalkedPath>::empty() + inner.files =~= inner.files);
    assert(Seq::<WalkedPath>::empty().push(
        WalkedPath { path: below, size: named.entry.file_size },
    ) =~= seq![WalkedPath { path: below, size: named.entry.file_size }]);
}

/// Walking over more entries of an ext4 directory goes on behind the walk over the first
/// ones, where that met no error.
pub proof fn ext4_walk_goes_on(
    medium: Seq<u8>,
    layout: Ext4Layout,
    first: Seq<Ext4Named>,
    second: Seq<Ext4Named>,
    path: Seq<u8>,
)
    ensures
        ({
            let part = entries_visited(medium, layout, first, path);
            let more = entries_visited(medium, layout, second, path);
            let whole = entries_visited(medium, layout, first + second, path);
            &&& part.outcome is Ok ==> whole.files == part.files + more.files && whole.outcome
                == more.outcome
            &&& part.outcome is Err ==> whole == part
        }),
    decreases second.len(),
{
    let part = entries_visited(medium, layout, first, path);
    if let Ok(done) = part.outcome {
        assert(done == ());
    }
    if second.len() == 0 {
        assert(first + second =~= first);
        assert(part.files + Seq::<Ext4Walked>::empty() =~= part.files);
    } else {
        assert((first + second).drop_last() =~= first + second.drop_last());
        ext4_walk_goes_on(medium, layout, first, second.drop_last(), path);
        let before = entries_visited(medium, layout, second.drop_last(), path);
        let more = entries_visited(medium, layout, second, path);
        let whole = entries_visited(medium, layout, first + second, path);
        if part.outcome is Ok {
            assert(whole.files =~= part.files + more.files);
        }
    }
}

/// A walk lists a file of an ext4 directory by the path of the directory and its name, with
/// the size of its inode, and goes through a directory below that path. The entries `.` and
/// `..` are left out.
pub proof fn ext4_walk_lists_entry(
    medium: Seq<u8>,
    layout: Ext4Layout,
    named: Ext4Named,
    path: Seq<u8>,
    inode: InodeRecord,
)
    requires
        path.len() + 1 + named.name.len() <= 1024,
        inode_of(medium, layout, named.inode_number) == Ok::<InodeRecord, Ext4Error>(inode),
        vstd::utf8::valid_utf8(path + seq![0x2fu8] + named.name),
    ensures
        ({
            let walk = entries_visited(medium, layout, seq![named], path);
            let below = path + seq![0x2fu8] + named.name;
            if named.name == ".".spec_bytes() || named.name == "..".spec_bytes() {
                walk.outcome is Ok && walk.files.len() == 0
            } else if inode.directory() {
                walk == directory_visited(medium, layout, inode, below)
            } else {
                walk.outcome is Ok && walk.files == seq![
                    Ext4Walked { path: below, size: inode.size_bytes },
                ]
            }
        }),
{
    let none = Seq::<Ext4Named>::empty();
    assert(seq![named].drop_last() =~= none);
    let empty = entries_visited(medium, layout, none, path);
    assert(empty.files =~= Seq::<Ext4Walked>::empty());
    let below = path + seq![0x2fu8] + named.name;
    let inner = directory_visited(medium, layout, inode, below);
    assert(Seq::<Ext4Walked>::empty() + inner.files =~= inner.files);
    assert(Seq::<Ext4Walked>::empty().push(Ext4Walked { path: below, size: inode.size_bytes })
        =~= seq![Ext4Walked { path: below, size: inode.size_bytes }]);
}

/// What a partition is taken for depends on what stands behind its start: on its first sector,
/// else on the superblock two sectors behind.
pub proof fn partition_is_probed_by_its_contents(before: Seq<u8>, contents: Seq<u8>, first_lba: u64)
    requires
        before.len() == first_lba * 512,
        contents.len() >= 2048,
        first_lba <= u64::MAX - 2,
    ensures
        ({
            let found = filesystem_at(before + contents, first_lba);
            let fat = boot_layout(contents.take(512), first_lba) is Ok;
            let ext4 = superblock_layout(contents.subrange(1024, 2048), first_lba) is Ok;
            &&& found is Fat <==> fat
            &&& found is Ext4 <==> ext4 && !fat
            &&& found is Unknown <==> !ext4 && !fat
        }),
{
    let medium = before + contents;
    assert(sector_at(medium, first_lba as int) =~= contents.take(512));
    assert(window(medium, first_lba * 512 + 1024, 1024) =~= contents.subrange(1024, 2048));
}

/// The firmware moves to the highest pages of the memory map that are free and hold it.
pub proof fn firmware_moves_as_high_as_it_can(
    address: usize,
    memory: Seq<u8>,
    firmware: FirmwareRanges,
    runtime_size: usize,
    map: Seq<EFI_MEMORY_DESCRIPTOR>,
    index: int,
    place: int,
)
    requires
        boot_map(address, memory, firmware) == Some(map),
        map_sound(map),
        map.len() <= 30,
        0 < runtime_size <= usize::MAX - 4095,
        0 <= index < map.len(),
        map[index].Type == 7,
        place % 4096 == 0,
        map[index].PhysicalStart <= place,
        place + runtime_size <= map[index].PhysicalStart + map[index].NumberOfPages * 4096,
    ensures
        relocation_place(address, memory, firmware, runtime_size) matches Some(start) && start
            >= place && start % 4096 == 0 && start + runtime_size <= u64::MAX && forall|at: int|
            start <= at < start + runtime_size ==> #[trigger] kind_at(map, at) == Some(7u32),
{
    let pages = ((runtime_size + 4095) / 4096) as usize;
    assert(sound(map[index]));
    assert(place + pages * 4096 <= end_of(map[index]));
    request_is_granted_where_it_can_be(
        map,
        EFI_ALLOCATE_TYPE::AllocateMaxAddress,
        EFI_MEMORY_TYPE::EfiBootServicesData,
        pages,
        u64::MAX,
        32,
        index,
        place,
    );
    granted_pages_were_free(
        map,
        EFI_ALLOCATE_TYPE::AllocateMaxAddress,
        EFI_MEMORY_TYPE::EfiBootServicesData,
        pages,
        u64::MAX,
        32,
    );
    let (start, after) = allocation(
        map,
        EFI_ALLOCATE_TYPE::AllocateMaxAddress,
        EFI_MEMORY_TYPE::EfiBootServicesData,
        pages,
        u64::MAX,
        32,
    )->Ok_0;
    assert forall|at: int| start <= at < start + runtime_size implies #[trigger] kind_at(map, at)
        == Some(7u32) by {
        assert(kind_at(after, at) is Some);
    }
}

/// What is told of an ext4 file is its kind and the number of its bytes. Its bytes are those
/// that can be read of it, and it is loaded unless it is a directory or has more bytes than
/// can be rounded up to pages.
pub proof fn ext4_file_is_told(medium: Seq<u8>, layout: Ext4Layout, inode: InodeRecord)
    ensures
        ({
            let state = inode_state(medium, layout, inode);
            &&& state.metadata.file_type is Directory <==> inode.directory()
            &&& state.data is Some <==> inode_contents(medium, layout, inode) is Ok
            &&& state.data matches Some(data) ==> inode_contents(medium, layout, inode)->Ok_0
                == data && (data.len() <= usize::MAX ==> state.metadata.size_bytes == data.len())
                && (data.len() > usize::MAX ==> state.metadata.size_bytes == usize::MAX)
                && state.refused == (inode.directory() || data.len() > usize::MAX - 4095)
        }),
{
    contents_have_size(medium, layout, inode);
}

/// What is told of a FAT file is its kind and the number of its bytes. Its bytes are those that
/// can be read of it, and it is loaded unless it is a directory or has more bytes than can be
/// rounded up to pages.
pub proof fn fat_file_is_told(medium: Seq<u8>, layout: FatLayout, entry: FatDirectoryEntry)
    requires
        layout.well_formed(),
    ensures
        ({
            let state = entry_state(medium, layout, entry);
            let contents = chain_data(
                medium,
                layout,
                entry.first_cluster,
                entry.file_size as nat,
            );
            &&& state.metadata.file_type is Directory <==> entry.names_directory()
            &&& state.data is Some <==> contents is Ok
            &&& state.data matches Some(data) ==> contents->Ok_0 == data
                && state.metadata.size_bytes == data.len() && state.refused == (
            entry.names_directory() || data.len() > usize::MAX - 4095)
        }),
{
    chain_data_has_size(medium, layout, entry.first_cluster, entry.file_size as nat);
}

/// A walk from a path goes through the directory that the path leads to, and lists what is
/// below by that path with one slash before it. Of the root, the path is left out.
pub proof fn ext4_walk_starts_at_path(
    medium: Seq<u8>,
    layout: Ext4Layout,
    path: Seq<u8>,
    inode: InodeRecord,
)
    requires
        path.len() == 0 || path[0] != 0x2f,
        requested_inode(medium, layout, seq![0x2fu8] + path) == Ok::<InodeRecord, Ext4Error>(inode),
    ensures
        ({
            let walk = path_visited(medium, layout, seq![0x2fu8] + path);
            if !inode.directory() {
                walk.files.len() == 0 && walk.outcome == Err::<(), Ext4Error>(
                    Ext4Error::NotDirectory,
                )
            } else if path.len() == 0 {
                walk == directory_visited(medium, layout, inode, Seq::empty())
            } else if path.len() >= 1024 {
                walk.files.len() == 0 && walk.outcome == Err::<(), Ext4Error>(
                    Ext4Error::NameTooLong,
                )
            } else {
                walk == directory_visited(medium, layout, inode, seq![0x2fu8] + path)
            }
        }),
{
    leading_slash_is_trimmed(path);
}

} // verus!
