//! ext4 volumes.

use rustfw::devicetree::MemoryRegion;
use rustfw::ext4::Ext4Volume;
use rustfw::ext4_format::Ext4Error;
use rustfw::filesystem::{FileHandle, FileInfoView, FileSystem, FileType};
use rustfw::firmware::probe_filesystem;
use rustfw::image::FileBlockDevice;
use rustfw::linux::LinuxBootFilesystem;
use rustfw::memory::{FirmwareRanges, PageAllocator, EFI_MEMORY_TYPE, EMPTY_MEMORY_DESCRIPTOR};
use rustfw::memory_map::MemoryError;
use rustfw::virtio::VirtioError;

const NO_FIRMWARE: FirmwareRanges = FirmwareRanges {
    code_start: 0,
    code_end: 0,
    data_start: 0,
    data_end: 0,
    heap_start: 0,
    heap_end: 0,
    stack_bottom: 0,
    stack_top: 0,
};

const START: usize = 6;
const BLOCK: usize = 1024;
const BASE: usize = START * 512;
const INODE_TABLE: usize = 5;

fn put(image: &mut [u8], at: usize, bytes: &[u8]) {
    image[at..at + bytes.len()].copy_from_slice(bytes);
}

fn put_inode(image: &mut [u8], number: usize, mode: u16, size: u32, flags: u32, blocks: &[u8]) {
    let at = BASE + INODE_TABLE * BLOCK + (number - 1) * 128;
    put(image, at, &mode.to_le_bytes());
    put(image, at + 4, &size.to_le_bytes());
    put(image, at + 0x20, &flags.to_le_bytes());
    put(image, at + 40, blocks);
}

/// An extent node with leaves of logical block, length and physical block.
fn leaves(extents: &[(u32, u16, u32)]) -> Vec<u8> {
    let mut node = Vec::new();
    node.extend(0xf30au16.to_le_bytes());
    node.extend((extents.len() as u16).to_le_bytes());
    node.extend(4u16.to_le_bytes());
    node.extend(0u16.to_le_bytes());
    node.extend(0u32.to_le_bytes());
    for (logical, count, physical) in extents {
        node.extend(logical.to_le_bytes());
        node.extend(count.to_le_bytes());
        node.extend(0u16.to_le_bytes());
        node.extend(physical.to_le_bytes());
    }
    node
}

/// An extent node whose one entry names a child block.
fn index_of(child: u32) -> Vec<u8> {
    let mut node = Vec::new();
    node.extend(0xf30au16.to_le_bytes());
    node.extend(1u16.to_le_bytes());
    node.extend(4u16.to_le_bytes());
    node.extend(1u16.to_le_bytes());
    node.extend(0u32.to_le_bytes());
    node.extend(0u32.to_le_bytes());
    node.extend(child.to_le_bytes());
    node.extend(0u32.to_le_bytes());
    node
}

fn put_directory(image: &mut [u8], block: usize, entries: &[(u32, &str)]) {
    let mut at = BASE + block * BLOCK;
    let end = at + BLOCK;
    for (index, (number, name)) in entries.iter().enumerate() {
        let length = if index + 1 == entries.len() {
            end - at
        } else {
            (8 + name.len() + 3) / 4 * 4
        };
        put(image, at, &number.to_le_bytes());
        put(image, at + 4, &(length as u16).to_le_bytes());
        image[at + 6] = name.len() as u8;
        put(image, at + 8, name.as_bytes());
        at += length;
    }
}

const EXTENTS: u32 = 0x80000;

/// A volume at sector six: `/boot/vmlinuz-6` of 2500 bytes with a hole in the middle,
/// the symlink `/boot/vmlinuz` to it, `/loop` to itself, and `/deep` below an index
/// node.
fn volume_image() -> Vec<u8> {
    let mut image = vec![0u8; BASE + 64 * BLOCK];
    let superblock = BASE + 1024;
    put(&mut image, superblock + 0x18, &0u32.to_le_bytes());
    put(&mut image, superblock + 0x20, &8192u32.to_le_bytes());
    put(&mut image, superblock + 0x28, &32u32.to_le_bytes());
    put(&mut image, superblock + 0x38, &0xef53u16.to_le_bytes());
    put(&mut image, superblock + 0x58, &128u16.to_le_bytes());
    put(&mut image, superblock + 0x60, &0x42u32.to_le_bytes());
    put(&mut image, BASE + 2 * BLOCK + 8, &(INODE_TABLE as u32).to_le_bytes());

    put_inode(&mut image, 2, 0x41ed, 1024, EXTENTS, &leaves(&[(0, 1, 20)]));
    put_directory(
        &mut image,
        20,
        &[(2, "."), (2, ".."), (12, "boot"), (15, "loop"), (16, "deep"), (17, "fifo")],
    );
    put_inode(&mut image, 12, 0x41ed, 1024, EXTENTS, &leaves(&[(0, 1, 21)]));
    put_directory(
        &mut image,
        21,
        &[(12, "."), (2, ".."), (13, "vmlinuz-6"), (14, "vmlinuz")],
    );
    put_inode(&mut image, 13, 0x81a4, 2500, EXTENTS, &leaves(&[(0, 1, 30), (2, 1, 31)]));
    for index in 0..BLOCK {
        image[BASE + 30 * BLOCK + index] = 3;
        image[BASE + 31 * BLOCK + index] = 5;
    }
    put_inode(&mut image, 14, 0xa1ff, 9, 0, b"vmlinuz-6");
    put_inode(&mut image, 15, 0xa1ff, 5, 0, b"/loop");
    put_inode(&mut image, 16, 0x81a4, 4, EXTENTS, &index_of(33));
    put(&mut image, BASE + 33 * BLOCK, &leaves(&[(0, 1, 34)]));
    put(&mut image, BASE + 34 * BLOCK, b"deep");
    put_inode(&mut image, 17, 0x11a4, 0, 0, &[]);
    image
}

fn device() -> FileBlockDevice {
    FileBlockDevice::open(volume_image()).unwrap()
}

#[test]
fn kernel_is_found_through_a_symlink_and_loaded() {
    let mut device = device();
    let mut volume = Ext4Volume::new(&mut device, START as u64).unwrap();
    let file = volume.open("/boot/vmlinuz").unwrap();
    assert_eq!(file.file_type(), FileType::File);
    assert_eq!(file.info().size_bytes(), 2500);
    let mut descriptors = [EMPTY_MEMORY_DESCRIPTOR(); 8];
    let memory = [MemoryRegion { base: 0x1000, size: 0x4000 }];
    let mut allocator =
        PageAllocator::from_regions(&memory, &[], &NO_FIRMWARE, &mut descriptors).unwrap();
    let loaded = file.load(&mut volume, &mut allocator).unwrap();
    assert_eq!(loaded.bytes().len(), 2500);
    assert!(loaded.bytes()[..1024].iter().all(|byte| *byte == 3));
    assert!(loaded.bytes()[1024..2048].iter().all(|byte| *byte == 0));
    assert!(loaded.bytes()[2048..].iter().all(|byte| *byte == 5));
    assert_eq!(loaded.physical_start(), 0x4000);
    assert_eq!(
        allocator.descriptors().last().unwrap().Type,
        EFI_MEMORY_TYPE::EfiBootServicesData.number(),
    );
    assert!(matches!(
        file.load_at(&mut volume, &mut allocator, 0x4000).err(),
        Some(Ext4Error::Memory(MemoryError::OutOfResources)),
    ));
    let directory = volume.open("/boot").unwrap();
    assert_eq!(directory.file_type(), FileType::Directory);
    assert!(directory.load(&mut volume, &mut allocator).is_err());
}

#[test]
fn ext4_files_are_read() {
    let mut device = device();
    let mut volume = Ext4Volume::new(&mut device, START as u64).unwrap();
    let mut buffer = [9u8; 4096];
    assert_eq!(volume.read_file("/deep", &mut buffer), Ok(4));
    assert_eq!(&buffer[..4], b"deep");
    assert_eq!(volume.read_file("boot/./vmlinuz-6", &mut buffer), Ok(2500));
    assert_eq!(buffer[0], 3);
    assert_eq!(buffer[1500], 0);
    assert_eq!(buffer[2499], 5);
}

#[test]
fn refused_ext4_paths() {
    let mut device = device();
    let mut volume = Ext4Volume::new(&mut device, START as u64).unwrap();
    let mut buffer = [0u8; 4096];
    assert_eq!(volume.read_file("/absent", &mut buffer), Err(Ext4Error::NotFound));
    assert_eq!(volume.read_file("/deep/x", &mut buffer), Err(Ext4Error::NotDirectory));
    assert_eq!(volume.read_file("/boot/../deep", &mut buffer), Err(Ext4Error::InvalidPath));
    assert_eq!(volume.read_file("/loop", &mut buffer), Err(Ext4Error::SymlinkLoop));
    assert_eq!(volume.read_file("/boot", &mut buffer), Err(Ext4Error::IsDirectory));
    assert_eq!(
        volume.read_file("/boot/vmlinuz", &mut buffer[..2499]),
        Err(Ext4Error::BufferTooSmall),
    );
}

#[test]
fn refused_ext4_reads_leave_the_buffer() {
    let mut device = device();
    let mut volume = Ext4Volume::new(&mut device, START as u64).unwrap();
    let mut buffer = [9u8; 100];
    assert_eq!(volume.read_file("", &mut buffer), Err(Ext4Error::InvalidPath));
    assert_eq!(volume.read_file("/", &mut buffer), Err(Ext4Error::IsDirectory));
    assert_eq!(volume.read_file("/boot/vmlinuz", &mut buffer), Err(Ext4Error::BufferTooSmall));
    assert_eq!(buffer, [9u8; 100]);
    assert_eq!(volume.open("").err(), Some(Ext4Error::InvalidPath));
    assert_eq!(
        volume.walk_files_in_directory("", &mut Vec::new()),
        Err(Ext4Error::InvalidPath),
    );
}

#[test]
fn directories_are_walked() {
    let mut device = device();
    let mut volume = Ext4Volume::new(&mut device, START as u64).unwrap();
    let mut files = Vec::new();
    assert_eq!(volume.walk_files_in_directory("/boot", &mut files), Ok(()));
    let found: Vec<(String, u64)> = files
        .iter()
        .map(|file| (String::from_utf8(file.path.clone()).unwrap(), file.size))
        .collect();
    assert_eq!(
        found,
        vec![("/boot/vmlinuz-6".to_string(), 2500), ("/boot/vmlinuz".to_string(), 9)],
    );
    assert_eq!(
        volume.walk_files_in_directory("/deep", &mut files),
        Err(Ext4Error::NotDirectory),
    );
}

#[test]
fn superblocks_are_checked() {
    let refused = |at: usize, bytes: &[u8]| {
        let mut image = volume_image();
        put(&mut image, BASE + 1024 + at, bytes);
        let mut device = FileBlockDevice::open(image).unwrap();
        let error = Ext4Volume::new(&mut device, START as u64).err();
        error
    };
    assert_eq!(refused(0x38, &[0, 0]), Some(Ext4Error::InvalidSuperblock));
    assert_eq!(
        refused(0x18, &3u32.to_le_bytes()),
        Some(Ext4Error::UnsupportedBlockSize(8192)),
    );
    assert_eq!(
        refused(0x58, &1024u16.to_le_bytes()),
        Some(Ext4Error::UnsupportedInodeSize(1024)),
    );
    assert_eq!(
        refused(0x60, &0x0001_0042u32.to_le_bytes()),
        Some(Ext4Error::UnsupportedIncompatibleFeatures(0x0001_0000)),
    );
    let mut device = device();
    assert_eq!(
        Ext4Volume::new(&mut device, 1 << 40).err(),
        Some(Ext4Error::Device(VirtioError::IoFailure)),
    );
    assert_eq!(
        Ext4Volume::new(&mut device, u64::MAX).err(),
        Some(Ext4Error::InvalidSuperblock),
    );
}

#[test]
fn extent_trees_are_checked() {
    let mut image = volume_image();
    put_inode(&mut image, 16, 0x81a4, 4, EXTENTS, &[0u8; 12]);
    put_inode(&mut image, 13, 0x81a4, 4, EXTENTS, &index_of(33));
    put(&mut image, BASE + 33 * BLOCK, &index_of(33));
    let mut device = FileBlockDevice::open(image).unwrap();
    let mut volume = Ext4Volume::new(&mut device, START as u64).unwrap();
    let mut buffer = [0u8; 16];
    assert_eq!(volume.read_file("/deep", &mut buffer), Err(Ext4Error::InvalidExtentTree));
    assert_eq!(
        volume.read_file("/boot/vmlinuz-6", &mut buffer),
        Err(Ext4Error::InvalidExtentTree),
    );
}

#[test]
fn ext4_is_probed() {
    let mut device = device();
    assert_eq!(probe_filesystem(&mut device, START as u64), LinuxBootFilesystem::Ext4);
    assert_eq!(probe_filesystem(&mut device, 1), LinuxBootFilesystem::Unknown);
}
