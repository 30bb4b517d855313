//! FAT volumes.

use rustfw::devicetree::MemoryRegion;
use rustfw::fat::{FatError, FatVolume};
use rustfw::fat_names::{decode_short_name, short_name_checksum};
use rustfw::filesystem::{FileHandle, FileInfoView, FileSystem, FileType};
use rustfw::firmware::probe_filesystem;
use rustfw::image::FileBlockDevice;
use rustfw::linux::LinuxBootFilesystem;
use rustfw::memory::{FirmwareRanges, PageAllocator, EFI_MEMORY_TYPE, EMPTY_MEMORY_DESCRIPTOR};
use rustfw::memory_map::MemoryError;
use rustfw::path::equal_ignoring_case;
use rustfw::virtio::VirtioError;

const NO_FIRMWARE: FirmwareRanges = FirmwareRanges {
    code_start: 0,
    code_end: 0,
    data_start: 0,
    data_end: 0,
    heap_start: 0,
    heap_end: 0,
    stack_bottom: 0,
    stack_top: 0,
};

const START: usize = 4;
const TABLE: usize = START + 1;
const TABLE_SECTORS: usize = 20;
const ROOT: usize = TABLE + TABLE_SECTORS;
const DATA: usize = ROOT + 1;

fn put(image: &mut [u8], at: usize, bytes: &[u8]) {
    image[at..at + bytes.len()].copy_from_slice(bytes);
}

fn short_entry(name: &[u8; 11], attributes: u8, cluster: u16, size: u32) -> [u8; 32] {
    let mut entry = [0u8; 32];
    put(&mut entry, 0, name);
    entry[11] = attributes;
    put(&mut entry, 26, &cluster.to_le_bytes());
    put(&mut entry, 28, &size.to_le_bytes());
    entry
}

/// The long-name entry that holds a name of at most thirteen characters.
fn long_entry(name: &str, short: &[u8; 11]) -> [u8; 32] {
    let mut units: Vec<u16> = name.encode_utf16().collect();
    if units.len() < 13 {
        units.push(0);
    }
    units.resize(13, 0xffff);
    let mut entry = [0u8; 32];
    entry[0] = 0x41;
    entry[11] = 0x0f;
    entry[13] = short_name_checksum(short);
    for (index, unit) in units.iter().enumerate() {
        let at = match index {
            0..=4 => 1 + 2 * index,
            5..=10 => 14 + 2 * (index - 5),
            _ => 28 + 2 * (index - 11),
        };
        put(&mut entry, at, &unit.to_le_bytes());
    }
    entry
}

fn set_link(image: &mut [u8], cluster: usize, value: u16) {
    put(image, TABLE * 512 + 2 * cluster, &value.to_le_bytes());
}

fn cluster_at(cluster: usize) -> usize {
    (DATA + cluster - 2) * 512
}

/// A FAT16 volume at sector four with one-sector clusters:
/// `/HELLO.TXT`, `/BIG.BIN` in two clusters, and `/boot/A longer name.cfg`.
fn volume_image() -> Vec<u8> {
    let clusters = 5000;
    let mut image = vec![0u8; (DATA + clusters) * 512];
    let boot = START * 512;
    put(&mut image, boot + 11, &512u16.to_le_bytes());
    image[boot + 13] = 1;
    put(&mut image, boot + 14, &1u16.to_le_bytes());
    image[boot + 16] = 1;
    put(&mut image, boot + 17, &16u16.to_le_bytes());
    put(&mut image, boot + 19, &((1 + TABLE_SECTORS + 1 + clusters) as u16).to_le_bytes());
    put(&mut image, boot + 22, &(TABLE_SECTORS as u16).to_le_bytes());

    let hello = b"hello from fat fixture\n";
    let root = ROOT * 512;
    put(&mut image, root, &short_entry(b"HELLO   TXT", 0x20, 2, hello.len() as u32));
    put(&mut image, root + 32, &short_entry(b"\xe5ONE    TXT", 0x20, 9, 1));
    put(&mut image, root + 64, &short_entry(b"BIG     BIN", 0x20, 3, 700));
    put(&mut image, root + 96, &short_entry(b"VOLUME     ", 0x08, 0, 0));
    put(&mut image, root + 128, &short_entry(b"BOOT       ", 0x10, 5, 0));
    put(&mut image, root + 160, &short_entry(b"LOST    BIN", 0x20, 8, 600));
    set_link(&mut image, 2, 0xffff);
    put(&mut image, cluster_at(2), hello);
    set_link(&mut image, 3, 4);
    set_link(&mut image, 4, 0xfff8);
    for index in 0..512 {
        image[cluster_at(3) + index] = 1;
        image[cluster_at(4) + index] = 2;
    }
    set_link(&mut image, 5, 0xffff);
    let short = b"ALONGE~1CFG";
    put(&mut image, cluster_at(5), &short_entry(b".          ", 0x10, 5, 0));
    put(&mut image, cluster_at(5) + 32, &short_entry(b"..         ", 0x10, 0, 0));
    put(&mut image, cluster_at(5) + 64, &long_entry("A longer.cfg", short));
    put(&mut image, cluster_at(5) + 96, &short_entry(short, 0x20, 6, 3));
    set_link(&mut image, 6, 0xffff);
    put(&mut image, cluster_at(6), b"abc");
    set_link(&mut image, 8, 0xfff7);
    image
}

fn device() -> FileBlockDevice {
    FileBlockDevice::open(volume_image()).unwrap()
}

#[test]
fn hello_is_opened_and_loaded() {
    let mut device = device();
    let mut volume = FatVolume::new(&mut device, START as u64).unwrap();
    let file = volume.open("/HELLO.TXT").unwrap();
    assert_eq!(file.file_type(), FileType::File);
    let info = file.info();
    assert_eq!(info.size_bytes(), 23);
    let mut descriptors = [EMPTY_MEMORY_DESCRIPTOR(); 8];
    let memory = [MemoryRegion { base: 0x1000, size: 0x8000 }];
    let mut allocator =
        PageAllocator::from_regions(&memory, &[], &NO_FIRMWARE, &mut descriptors).unwrap();
    let loaded = file.load(&mut volume, &mut allocator).unwrap();
    assert_eq!(loaded.bytes(), b"hello from fat fixture\n");
    assert_eq!(loaded.physical_start(), 0x8000);
    assert_eq!(loaded.page_count(), 1);
    let at = file.load_at(&mut volume, &mut allocator, 0x3000).unwrap();
    assert_eq!(at.bytes(), loaded.bytes());
    assert_eq!(at.physical_start(), 0x3000);
    let types: Vec<u32> = allocator.descriptors().iter().map(|range| range.Type).collect();
    let data = EFI_MEMORY_TYPE::EfiLoaderData.number();
    assert_eq!(types, vec![7, data, 7, data]);
    assert!(matches!(
        file.load_at(&mut volume, &mut allocator, 0x3000).err(),
        Some(FatError::Memory(MemoryError::OutOfResources)),
    ));
}

#[test]
fn files_are_read_through_their_clusters() {
    let mut device = device();
    let mut volume = FatVolume::new(&mut device, START as u64).unwrap();
    let mut buffer = [0u8; 1024];
    assert_eq!(volume.read_file("/BIG.BIN", &mut buffer), Ok(700));
    assert!(buffer[..512].iter().all(|byte| *byte == 1));
    assert!(buffer[512..700].iter().all(|byte| *byte == 2));
    assert_eq!(buffer[700], 0);
    assert_eq!(volume.read_file("big.bin", &mut buffer), Ok(700));
    assert_eq!(volume.read_file("/boot/a LONGER.cfg", &mut buffer), Ok(3));
    assert_eq!(&buffer[..3], b"abc");
    assert_eq!(volume.read_file("/boot/ALONGE~1.CFG", &mut buffer), Err(FatError::NotFound));
}

#[test]
fn refused_paths() {
    let mut device = device();
    let mut volume = FatVolume::new(&mut device, START as u64).unwrap();
    let mut buffer = [0u8; 1024];
    assert_eq!(volume.read_file("/absent", &mut buffer), Err(FatError::NotFound));
    assert_eq!(volume.read_file("/", &mut buffer), Err(FatError::InvalidPath));
    assert_eq!(volume.read_file("/HELLO.TXT/x", &mut buffer), Err(FatError::NotDirectory));
    assert_eq!(volume.read_file("/boot", &mut buffer), Err(FatError::IsDirectory));
    assert_eq!(volume.read_file("/BIG.BIN", &mut buffer[..699]), Err(FatError::BufferTooSmall));
    assert_eq!(
        volume.read_file("/LOST.BIN", &mut buffer),
        Err(FatError::InvalidCluster(0xfff7)),
    );
}

#[test]
fn boot_sectors_are_checked() {
    let refused = |change: &dyn Fn(&mut Vec<u8>)| {
        let mut image = volume_image();
        change(&mut image);
        let mut device = FileBlockDevice::open(image).unwrap();
        let error = FatVolume::new(&mut device, START as u64).err();
        error
    };
    let boot = START * 512;
    assert_eq!(
        refused(&|image| put(image, boot + 11, &1024u16.to_le_bytes())),
        Some(FatError::UnsupportedSectorSize(1024)),
    );
    assert_eq!(refused(&|image| image[boot + 13] = 0), Some(FatError::InvalidBootSector));
    assert_eq!(
        refused(&|image| put(image, boot + 19, &3000u16.to_le_bytes())),
        Some(FatError::UnsupportedFatType),
    );
    assert_eq!(
        refused(&|image| put(image, boot + 19, &5u16.to_le_bytes())),
        Some(FatError::InvalidBootSector),
    );
    let mut device = device();
    assert_eq!(
        FatVolume::new(&mut device, 1 << 40).err(),
        Some(FatError::Device(VirtioError::IoFailure)),
    );
}

#[test]
fn short_names() {
    let mut entry = short_entry(b"HELLO   TXT", 0, 0, 0);
    assert_eq!(decode_short_name(&entry), b"HELLO.TXT");
    entry[0] = 0x05;
    assert_eq!(decode_short_name(&entry)[0], 0xe5);
    assert_eq!(decode_short_name(&short_entry(b"BOOT       ", 0, 0, 0)), b"BOOT");
    assert_eq!(decode_short_name(&short_entry(b"..         ", 0, 0, 0)), b"..");
    assert_eq!(decode_short_name(&short_entry(b"        TXT", 0, 0, 0)), b".TXT");
    assert_eq!(decode_short_name(&short_entry(b"           ", 0, 0, 0)), b"-");
    assert_eq!(short_name_checksum(b"ALONGE~1CFG"), checksum(b"ALONGE~1CFG"));
}

/// Rotates the sum right by one bit before each byte is added.
fn checksum(name: &[u8; 11]) -> u8 {
    name.iter().fold(0u8, |sum, byte| sum.rotate_right(1).wrapping_add(*byte))
}

#[test]
fn names_ignore_case() {
    assert!(equal_ignoring_case(b"HeLLo.txt", b"hEllO.TXT"));
    assert!(!equal_ignoring_case(b"hello", b"hello "));
}

#[test]
fn files_are_walked() {
    let mut device = device();
    let mut volume = FatVolume::new(&mut device, START as u64).unwrap();
    let mut files = Vec::new();
    assert_eq!(volume.walk_files(&mut files), Ok(()));
    let found: Vec<(String, u32)> = files
        .iter()
        .map(|file| (String::from_utf8(file.path.clone()).unwrap(), file.size))
        .collect();
    assert_eq!(
        found,
        vec![
            ("/HELLO.TXT".to_string(), 23),
            ("/BIG.BIN".to_string(), 700),
            ("/BOOT/A longer.cfg".to_string(), 3),
            ("/LOST.BIN".to_string(), 600),
        ],
    );
}

#[test]
fn fat_is_probed() {
    let mut device = device();
    assert_eq!(probe_filesystem(&mut device, START as u64), LinuxBootFilesystem::Fat);
    assert_eq!(probe_filesystem(&mut device, 0), LinuxBootFilesystem::Unknown);
}
