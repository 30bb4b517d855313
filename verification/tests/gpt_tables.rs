//! GUID partition tables.

use rustfw::gpt::{
    crc32, read_header_at, read_primary_header, GptPartitionTable, GPT_TYPE_GUID_ESP,
    GPT_TYPE_GUID_LINUX_FILESYSTEM,
};
use rustfw::firmware::try_boot_from_device;
use rustfw::image::FileBlockDevice;
use rustfw::linux::{LinuxBootFilesystem, PartitionAttempt};
use rustfw::memory::FirmwareRanges;
use rustfw::partition::{PartitionEntry, PartitionTable};
use rustfw::virtio::{BlockDevice, VirtioError};

const SECTORS: usize = 8;
const NO_FIRMWARE: FirmwareRanges = FirmwareRanges {
    code_start: 0,
    code_end: 0,
    data_start: 0,
    data_end: 0,
    heap_start: 0,
    heap_end: 0,
    stack_bottom: 0,
    stack_top: 0,
};

fn put(image: &mut [u8], at: usize, bytes: &[u8]) {
    image[at..at + bytes.len()].copy_from_slice(bytes);
}

fn entry(guid: &[u8; 16], first: u64, last: u64, attributes: u64, label: &str) -> Vec<u8> {
    let mut bytes = vec![0u8; 128];
    put(&mut bytes, 0, guid);
    put(&mut bytes, 16, &[7u8; 16]);
    put(&mut bytes, 32, &first.to_le_bytes());
    put(&mut bytes, 40, &last.to_le_bytes());
    put(&mut bytes, 48, &attributes.to_le_bytes());
    for (index, unit) in label.encode_utf16().enumerate() {
        put(&mut bytes, 56 + 2 * index, &unit.to_le_bytes());
    }
    bytes
}

fn put_header(image: &mut [u8], lba: u64, other: u64, entries_lba: u64, entries: &[u8]) {
    let at = lba as usize * 512;
    put(image, entries_lba as usize * 512, entries);
    put(image, at, b"EFI PART");
    put(image, at + 8, &0x0001_0000u32.to_le_bytes());
    put(image, at + 12, &92u32.to_le_bytes());
    put(image, at + 16, &[0u8; 4]);
    put(image, at + 24, &lba.to_le_bytes());
    put(image, at + 32, &other.to_le_bytes());
    put(image, at + 40, &3u64.to_le_bytes());
    put(image, at + 48, &4u64.to_le_bytes());
    put(image, at + 72, &entries_lba.to_le_bytes());
    put(image, at + 80, &((entries.len() / 128) as u32).to_le_bytes());
    put(image, at + 84, &128u32.to_le_bytes());
    put(image, at + 88, &crc32(entries).to_le_bytes());
    let crc = crc32(&image[at..at + 92]);
    put(image, at + 16, &crc.to_le_bytes());
}

/// A disk with the table in sectors 1 and 2 and its backup in sectors 6 and 7.
fn disk(entries: &[u8]) -> Vec<u8> {
    let mut image = vec![0u8; SECTORS * 512];
    put_header(&mut image, 1, 7, 2, entries);
    put_header(&mut image, 7, 1, 6, entries);
    image
}

fn rootfs() -> Vec<u8> {
    entry(&GPT_TYPE_GUID_LINUX_FILESYSTEM, 3, 3, 0, "rootfs")
}

#[test]
fn crc32_of_the_check_string() {
    assert_eq!(crc32(b"123456789"), 0xcbf4_3926);
    assert_eq!(crc32(b""), 0);
}

#[test]
fn single_linux_partition() {
    let mut device = FileBlockDevice::open(disk(&rootfs())).unwrap();
    let mut table = GptPartitionTable::new(&mut device).unwrap();
    assert_eq!(table.partition_count(), 1);
    let entry = table.partition(0).unwrap();
    assert!(entry.is_present());
    assert_eq!(entry.first_lba(), 3);
    assert_eq!(entry.last_lba(), 3);
    assert_eq!(PartitionEntry::sector_count(&entry), 1);
    assert!(!PartitionEntry::bootable(&entry));
    assert!(!entry.is_efi_system_partition());
    let mut label = [0u8; 72];
    assert_eq!(PartitionEntry::label(&entry, &mut label), "rootfs");
    let mut kind = [0u8; 36];
    assert_eq!(PartitionEntry::partition_type(&entry, &mut kind), "Linux filesystem");
    assert!(table.partition(1).is_none());
}

#[test]
fn damaged_primary_header_falls_back_to_the_backup() {
    let mut image = disk(&rootfs());
    image[512] = b'X';
    let mut device = FileBlockDevice::open(image).unwrap();
    assert!(read_header_at(&mut device, 1).is_none());
    assert!(read_primary_header(&mut device).is_none());
    assert_eq!(read_header_at(&mut device, 7).unwrap().partition_entry_lba, 6);
    let mut table = GptPartitionTable::new(&mut device).unwrap();
    assert_eq!(table.partition(0).unwrap().first_lba(), 3);
}

#[test]
fn damaged_headers_are_rejected() {
    let mut image = disk(&rootfs());
    image[512 + 56] ^= 1;
    image[7 * 512 + 56] ^= 1;
    let mut device = FileBlockDevice::open(image).unwrap();
    assert!(GptPartitionTable::new(&mut device).is_none());
}

#[test]
fn damaged_entry_arrays_are_rejected() {
    let mut image = disk(&rootfs());
    image[2 * 512 + 60] ^= 1;
    image[6 * 512 + 60] ^= 1;
    let mut device = FileBlockDevice::open(image).unwrap();
    assert!(GptPartitionTable::new(&mut device).is_none());
}

#[test]
fn entries_past_the_disk_are_rejected() {
    let mut image = disk(&rootfs());
    put_header(&mut image, 1, 8, 2, &rootfs());
    image[7 * 512] = 0;
    let mut device = FileBlockDevice::open(image).unwrap();
    assert!(GptPartitionTable::new(&mut device).is_none());
}

#[test]
fn labels_and_types_of_other_partitions() {
    let mut guid = [0u8; 16];
    for (index, byte) in guid.iter_mut().enumerate() {
        *byte = if index == 4 { 0xff } else { 0x10 + index as u8 };
    }
    let mut entries = entry(&guid, 3, 4, 0, "");
    entries.extend(entry(&GPT_TYPE_GUID_ESP, 4, 4, 0, "gr\u{fc}n"));
    entries.extend(entry(&[0u8; 16], 0, 0, 0, ""));
    entries.extend(entry(&[0u8; 16], 0, 0, 0, ""));
    let mut device = FileBlockDevice::open(disk(&entries)).unwrap();
    let mut table = GptPartitionTable::new(&mut device).unwrap();
    assert_eq!(table.partition_count(), 4);
    let mut label = [0u8; 72];
    let mut kind = [0u8; 36];

    let first = table.partition(0).unwrap();
    assert_eq!(PartitionEntry::label(&first, &mut label), "-");
    assert_eq!(
        PartitionEntry::partition_type(&first, &mut kind),
        "13121110-15ff-1716-1819-1a1b1c1d1e1f",
    );
    assert_eq!(PartitionEntry::sector_count(&first), 2);

    let second = table.partition(1).unwrap();
    assert_eq!(PartitionEntry::label(&second, &mut label), "gr?n");
    assert_eq!(PartitionEntry::partition_type(&second, &mut kind), "ESP");
    assert!(second.is_efi_system_partition());

    assert!(!table.partition(2).unwrap().is_present());
}

#[test]
fn boot_flagged_partitions_are_tried_in_order() {
    let mut entries = entry(&GPT_TYPE_GUID_LINUX_FILESYSTEM, 3, 3, 4, "a");
    entries.extend(entry(&GPT_TYPE_GUID_LINUX_FILESYSTEM, 3, 3, 0, "b"));
    entries.extend(entry(&[0u8; 16], 3, 3, 4, "c"));
    entries.extend(entry(&GPT_TYPE_GUID_ESP, 4, 4, 5, "d"));
    let mut device = FileBlockDevice::open(disk(&entries)).unwrap();
    let tried = try_boot_from_device(&mut device, 0, 0, 8, &[], &NO_FIRMWARE);
    let slots: Vec<u32> = tried.iter().map(|partition| partition.slot).collect();
    assert_eq!(slots, vec![0, 3]);
    for partition in &tried {
        assert_eq!(partition.filesystem, LinuxBootFilesystem::Unknown);
        assert!(matches!(partition.attempt, PartitionAttempt::NotMounted));
    }
    let mut blank = FileBlockDevice::open(vec![0u8; SECTORS * 512]).unwrap();
    assert!(try_boot_from_device(&mut blank, 0, 0, 8, &[], &NO_FIRMWARE).is_empty());
}

/// Disk image on which some sectors cannot be read.
struct SpottedDevice {
    image: Vec<u8>,
    spots: Vec<u64>,
    failed: usize,
}

impl BlockDevice for SpottedDevice {
    fn read_blocks(&mut self, sector: u64, buffer: &mut [u8]) -> Result<(), VirtioError> {
        let count = (buffer.len() / 512) as u64;
        if self.spots.iter().any(|spot| (sector..sector + count).contains(spot)) {
            self.failed += 1;
            return Err(VirtioError::IoFailure);
        }
        let start = sector as usize * 512;
        buffer.copy_from_slice(&self.image[start..start + buffer.len()]);
        Ok(())
    }

    fn sector_count(&self) -> u64 {
        (self.image.len() / 512) as u64
    }
}

#[test]
fn unreadable_headers() {
    let open = |spots: &[u64]| {
        let mut device =
            SpottedDevice { image: disk(&rootfs()), spots: spots.to_vec(), failed: 0 };
        let count = GptPartitionTable::new(&mut device).map(|table| table.partition_count());
        (count, device.failed)
    };
    assert_eq!(open(&[]), (Some(1), 0));
    assert_eq!(open(&[1]), (Some(1), 1));
    assert_eq!(open(&[2]), (Some(1), 1));
    assert_eq!(open(&[7]), (Some(1), 0));
    assert_eq!(open(&[1, 7]), (None, 2));
    assert_eq!(open(&[1, 6]), (None, 2));
    let mut image = disk(&rootfs());
    image[7 * 512] = 0;
    let mut device = SpottedDevice { image, spots: vec![1], failed: 0 };
    assert!(GptPartitionTable::new(&mut device).is_none());
    assert_eq!(device.failed, 1);
}

#[test]
fn images_are_made_of_whole_sectors() {
    assert!(FileBlockDevice::open(Vec::new()).is_none());
    assert!(FileBlockDevice::open(vec![0u8; 513]).is_none());
    let mut image = vec![0u8; 1024];
    image[512] = 9;
    let mut device = FileBlockDevice::open(image).unwrap();
    assert_eq!(device.sector_count(), 2);
    let mut sector = [0u8; 512];
    assert_eq!(device.read_blocks(1, &mut sector), Ok(()));
    assert_eq!(sector[0], 9);
    assert_eq!(device.read_blocks(2, &mut sector), Err(VirtioError::IoFailure));
    assert_eq!(device.read_blocks(u64::MAX, &mut sector), Err(VirtioError::IoFailure));
    assert_eq!(device.read_blocks(0, &mut sector[..100]), Err(VirtioError::InvalidBufferLength));
    assert_eq!(device.read_blocks(0, &mut []), Err(VirtioError::InvalidBufferLength));
}
