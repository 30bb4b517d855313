//! GPT parsing for block devices.
//!
//! Reads the primary or the backup GPT header and fixed-size partition entries
//! from a sector-addressable block device.

use vstd::prelude::*;
use vstd::string::*;
use vstd::utf8::*;
use crate::bytes::{
    bytes_equal, le16, le32, le64, read_le_u16, read_le_u32, read_le_u64, utf8_text, window,
};
use crate::partition::{PartitionEntry, PartitionTable};
use crate::virtio::{read_sector, sector_at, BlockDevice, VirtioError};

verus! {

/// Minimum supported GPT header size in bytes.
const GPT_HEADER_MIN_SIZE: u32 = 92;

/// Minimum supported GPT partition entry size in bytes.
const GPT_ENTRY_MIN_SIZE: u32 = 128;

/// GPT attribute bit indicating legacy BIOS bootability.
const GPT_ATTRIBUTE_LEGACY_BIOS_BOOTABLE: u64 = 4;

/// Partition type GUID for a generic Linux filesystem partition.
pub const GPT_TYPE_GUID_LINUX_FILESYSTEM: [u8; 16] = [
    0xaf, 0x3d, 0xc6, 0x0f, 0x83, 0x84, 0x72, 0x47, 0x8e, 0x79, 0x3d, 0x69, 0xd8, 0x47, 0x7d, 0xe4,
];

/// Partition type GUID for the EFI system partition.
pub const GPT_TYPE_GUID_ESP: [u8; 16] = [
    0x28, 0x73, 0x2a, 0xc1, 0x1f, 0xf8, 0xd2, 0x11, 0xba, 0x4b, 0x00, 0xa0, 0xc9, 0x3e, 0xc9, 0x3b,
];

/// Parsed fields from a GPT header used by this firmware.
#[derive(Clone, Copy, Debug, PartialEq, Eq, Structural)]
pub struct GptHeader {
    /// Starting LBA of the partition entry array.
    pub partition_entry_lba: u64,
    /// Number of partition entries described by the header.
    pub partition_entry_count: u32,
    /// Size in bytes of each partition entry.
    pub partition_entry_size: u32,
}

/// Parsed GPT partition entry.
#[derive(Clone, Copy, Debug, PartialEq, Eq)]
pub struct GptPartitionEntry {
    /// Partition type GUID stored in little-endian GPT byte order.
    pub partition_type_guid: [u8; 16],
    /// Unique GUID assigned to this partition entry.
    pub unique_partition_guid: [u8; 16],
    /// First LBA owned by the partition.
    pub first_lba: u64,
    /// Last LBA owned by the partition.
    pub last_lba: u64,
    /// GPT attribute bitfield for the partition.
    pub attributes: u64,
    /// UTF-16LE partition name as stored in the GPT entry.
    pub partition_name: [u16; 36],
}

/// One bit of the IEEE CRC32 division, least significant bit first.
pub open spec fn crc_bit(crc: u32) -> u32 {
    if crc & 1 != 0 {
        (crc >> 1) ^ 0xedb8_8320
    } else {
        crc >> 1
    }
}

/// `bits` steps of the division.
pub open spec fn crc_bits(crc: u32, bits: nat) -> u32
    decreases bits,
{
    if bits == 0 {
        crc
    } else {
        crc_bit(crc_bits(crc, (bits - 1) as nat))
    }
}

/// The running CRC after `bytes` have gone into it.
pub open spec fn crc_over(crc: u32, bytes: Seq<u8>) -> u32
    decreases bytes.len(),
{
    if bytes.len() == 0 {
        crc
    } else {
        crc_bits(crc_over(crc, bytes.drop_last()) ^ (bytes.last() as u32), 8)
    }
}

/// The IEEE CRC32 of `bytes`.
pub open spec fn crc32_of(bytes: Seq<u8>) -> u32 {
    !crc_over(0xffff_ffff, bytes)
}

/// Feeding a byte string to the CRC in two parts is feeding it whole.
pub proof fn crc_over_concatenation(crc: u32, head: Seq<u8>, tail: Seq<u8>)
    ensures
        crc_over(crc, head + tail) == crc_over(crc_over(crc, head), tail),
    decreases tail.len(),
{
    if tail.len() == 0 {
        assert(head + tail =~= head);
    } else {
        assert((head + tail).drop_last() =~= head + tail.drop_last());
        crc_over_concatenation(crc, head, tail.drop_last());
    }
}

/// Updates an in-progress IEEE CRC32 with `bytes`.
fn crc32_update(crc: u32, bytes: &[u8]) -> (updated: u32)
    ensures
        updated == crc_over(crc, bytes@),
{
    let mut current: u32 = crc;
    let mut index: usize = 0;
    assert(bytes@.take(0) =~= Seq::<u8>::empty());
    while index < bytes.len()
        invariant
            index <= bytes@.len(),
            current == crc_over(crc, bytes@.take(index as int)),
        decreases bytes@.len() - index,
    {
        let ghost before = current;
        current = current ^ (bytes[index] as u32);
        let ghost mixed = current;
        let mut bit: usize = 0;
        while bit < 8
            invariant
                bit <= 8,
                current == crc_bits(mixed, bit as nat),
            decreases 8 - bit,
        {
            if (current & 1) != 0 {
                current = (current >> 1) ^ 0xedb8_8320;
            } else {
                current = current >> 1;
            }
            bit += 1;
        }
        proof {
            let longer = bytes@.take(index + 1);
            assert(longer.drop_last() =~= bytes@.take(index as int));
            assert(longer.last() == bytes@[index as int]);
        }
        index += 1;
    }
    assert(bytes@.take(index as int) =~= bytes@);
    current
}

/// Finalizes one in-progress CRC32 state.
fn crc32_finalize(crc: u32) -> (value: u32)
    ensures
        value == !crc,
{
    !crc
}

/// Computes one GPT-style IEEE CRC32 over `bytes`.
pub fn crc32(bytes: &[u8]) -> (value: u32)
    ensures
        value == crc32_of(bytes@),
{
    crc32_finalize(crc32_update(0xffff_ffff, bytes))
}

/// A header of `size` bytes with zeros in place of its own CRC.
pub open spec fn header_without_crc(sector: Seq<u8>, size: int) -> Seq<u8> {
    sector.take(16) + seq![0u8, 0u8, 0u8, 0u8] + sector.subrange(20, size)
}

/// Bytes of the partition entry array that a header sector announces.
pub open spec fn entry_array_bytes(sector: Seq<u8>) -> int {
    le32(sector, 80) * le32(sector, 84)
}

/// First LBA behind the partition entry array that a header sector announces.
pub open spec fn entry_array_end(sector: Seq<u8>) -> int {
    le64(sector, 72) + (entry_array_bytes(sector) + 511) / 512
}

/// Contents of the partition entry array that a header sector announces.
pub open spec fn entry_array(medium: Seq<u8>, sector: Seq<u8>) -> Seq<u8> {
    let start = le64(sector, 72) * 512;
    window(medium, start, entry_array_bytes(sector))
}

/// Whether the header sector itself is sound: its signature, size, CRC, places
/// and entry format.
pub open spec fn header_sound(sector: Seq<u8>, sectors: u64, lba: u64) -> bool {
    &&& sector.take(8) == "EFI PART".spec_bytes()
    &&& 92 <= le32(sector, 12) <= 512
    &&& crc32_of(header_without_crc(sector, le32(sector, 12) as int)) == le32(sector, 16)
    &&& le64(sector, 24) == lba
    &&& le64(sector, 32) < sectors
    &&& le64(sector, 32) != lba
    &&& le64(sector, 40) <= le64(sector, 48) < sectors
    &&& le32(sector, 80) != 0
    &&& le32(sector, 84) >= 128
    &&& le32(sector, 84) % 128 == 0
    &&& le64(sector, 72) != 0
    &&& entry_array_end(sector) <= sectors
    &&& !(le64(sector, 72) <= lba < entry_array_end(sector))
}

/// The header at `lba`, if the sector there is a sound header and the entry
/// array has the CRC that it announces.
pub open spec fn header_at(medium: Seq<u8>, sectors: u64, lba: u64) -> Option<GptHeader> {
    let sector = sector_at(medium, lba as int);
    if header_sound(sector, sectors, lba) && crc32_of(entry_array(medium, sector)) == le32(
        sector,
        88,
    ) {
        Some(
            GptHeader {
                partition_entry_lba: le64(sector, 72),
                partition_entry_count: le32(sector, 80),
                partition_entry_size: le32(sector, 84),
            },
        )
    } else {
        None
    }
}

/// The header in the last sector of a device.
pub open spec fn backup_header(medium: Seq<u8>, sectors: u64) -> Option<GptHeader> {
    if sectors == 0 {
        None
    } else {
        header_at(medium, sectors, (sectors - 1) as u64)
    }
}

/// The header that counts: the primary one, else the backup.
pub open spec fn table_header(medium: Seq<u8>, sectors: u64) -> Option<GptHeader> {
    match header_at(medium, sectors, 1) {
        Some(header) => Some(header),
        None => backup_header(medium, sectors),
    }
}

/// Whether the entry array of `header` ends on a 64-bit LBA.
pub open spec fn header_in_range(header: GptHeader) -> bool {
    header.partition_entry_lba + header.partition_entry_count * header.partition_entry_size / 512
        <= u64::MAX
}

/// A header that was accepted has its entries on the device.
pub proof fn accepted_header_in_range(medium: Seq<u8>, sectors: u64, lba: u64)
    ensures
        header_at(medium, sectors, lba) matches Some(header) ==> header_in_range(header)
            && header.partition_entry_count > 0 && header.partition_entry_size >= 128,
{
}

/// A device whose primary header is damaged still shows its partitions when the
/// backup header is intact.
pub proof fn backup_stands_in(medium: Seq<u8>, sectors: u64)
    requires
        header_at(medium, sectors, 1) is None,
    ensures
        table_header(medium, sectors) == backup_header(medium, sectors),
{
}

/// A header whose own CRC does not match is never accepted.
pub proof fn wrong_header_crc_rejected(medium: Seq<u8>, sectors: u64, lba: u64)
    requires
        ({
            let sector = sector_at(medium, lba as int);
            crc32_of(header_without_crc(sector, le32(sector, 12) as int)) != le32(sector, 16)
        }),
    ensures
        header_at(medium, sectors, lba) is None,
{
}

/// A header is never accepted when the entry array has another CRC.
pub proof fn wrong_array_crc_rejected(medium: Seq<u8>, sectors: u64, lba: u64)
    requires
        ({
            let sector = sector_at(medium, lba as int);
            crc32_of(entry_array(medium, sector)) != le32(sector, 88)
        }),
    ensures
        header_at(medium, sectors, lba) is None,
{
}

/// Computes the CRC32 of the GPT entry array and returns it where it is the
/// expected one.
fn validate_entry_array_crc<D: BlockDevice>(
    device: &mut D,
    start_lba: u64,
    byte_len: u64,
    expected_crc: u32,
) -> (crc: Option<u32>)
    requires
        start_lba + (byte_len + 511) / 512 <= u64::MAX,
    ensures
        final(device).medium() == old(device).medium(),
        final(device).sectors() == old(device).sectors(),
        final(device).faults().len() >= old(device).faults().len(),
        final(device).faults().len() == old(device).faults().len() ==> final(device).faults()
            == old(device).faults() && crc == if crc32_of(
            window(old(device).medium(), start_lba * 512, byte_len as int),
        ) == expected_crc {
            Some(expected_crc)
        } else {
            None
        },
        final(device).faults().len() > old(device).faults().len() ==> crc is None
            && final(device).faults().len() == old(device).faults().len() + 1,
{
    let ghost medium = device.medium();
    let ghost start = start_lba * 512;
    let mut current_lba: u64 = start_lba;
    let mut remaining: u64 = byte_len;
    let mut crc: u32 = 0xffff_ffff;
    assert(window(medium, start, 0) =~= Seq::<u8>::empty());
    while remaining != 0
        invariant
            start_lba + (byte_len + 511) / 512 <= u64::MAX,
            device.medium() == medium,
            medium == old(device).medium(),
            device.sectors() == old(device).sectors(),
            device.faults() == old(device).faults(),
            start == start_lba * 512,
            remaining <= byte_len,
            remaining != 0 ==> current_lba * 512 + remaining == start + byte_len,
            start_lba <= current_lba,
            crc == crc_over(0xffff_ffff, window(medium, start, byte_len - remaining)),
        decreases remaining,
    {
        let sector = match read_sector(device, current_lba) {
            Ok(bytes) => bytes,
            Err(_) => return None,
        };
        let take: usize = if remaining < 512 {
            remaining as usize
        } else {
            512
        };
        let part = &sector.as_slice()[0..take];
        proof {
            let done = byte_len - remaining;
            crc_over_concatenation(0xffff_ffff, window(medium, start, done), part@);
            assert(window(medium, start, done) + part@ =~= window(medium, start, done + take));
        }
        crc = crc32_update(crc, part);
        remaining -= take as u64;
        current_lba += 1;
    }
    let computed = crc32_finalize(crc);
    if computed == expected_crc {
        Some(computed)
    } else {
        None
    }
}

/// Reads and validates one GPT header at an explicit LBA.
pub fn read_header_at<D: BlockDevice>(device: &mut D, header_lba: u64) -> (header: Option<GptHeader>)
    ensures
        final(device).medium() == old(device).medium(),
        final(device).sectors() == old(device).sectors(),
        final(device).faults().len() >= old(device).faults().len(),
        final(device).faults().len() == old(device).faults().len() ==> final(device).faults()
            == old(device).faults() && header == header_at(
            old(device).medium(),
            old(device).sectors(),
            header_lba,
        ),
        final(device).faults().len() > old(device).faults().len() ==> header is None
            && final(device).faults().len() == old(device).faults().len() + 1,
{
    let sector_bytes = match read_sector(device, header_lba) {
        Ok(bytes) => bytes,
        Err(_) => return None,
    };
    let sector = sector_bytes.as_slice();
    let ghost medium = device.medium();
    assert(sector@ == sector_at(medium, header_lba as int));
    assert(sector@.subrange(0, 8) =~= sector@.take(8));
    if !bytes_equal(&sector[0..8], "EFI PART".as_bytes()) {
        return None;
    }
    let header_size: u32 = read_le_u32(sector, 12);
    if header_size < GPT_HEADER_MIN_SIZE || header_size > 512 {
        return None;
    }
    let header_crc: u32 = read_le_u32(sector, 16);
    let blank: [u8; 4] = [0u8; 4];
    let mut crc: u32 = crc32_update(0xffff_ffff, &sector[0..16]);
    crc = crc32_update(crc, blank.as_slice());
    crc = crc32_update(crc, &sector[20..header_size as usize]);
    proof {
        let head = sector@.take(16);
        let rest = sector@.subrange(20, header_size as int);
        assert(sector@.subrange(0, 16) =~= head);
        assert(blank@ =~= seq![0u8, 0u8, 0u8, 0u8]);
        crc_over_concatenation(0xffff_ffff, head, blank@);
        crc_over_concatenation(0xffff_ffff, head + blank@, rest);
    }
    if crc32_finalize(crc) != header_crc {
        return None;
    }
    let current_lba: u64 = read_le_u64(sector, 24);
    if current_lba != header_lba {
        return None;
    }
    let sector_count: u64 = device.sector_count();
    let backup_lba: u64 = read_le_u64(sector, 32);
    if backup_lba >= sector_count || backup_lba == current_lba {
        return None;
    }
    let first_usable_lba: u64 = read_le_u64(sector, 40);
    let last_usable_lba: u64 = read_le_u64(sector, 48);
    if first_usable_lba > last_usable_lba || last_usable_lba >= sector_count {
        return None;
    }
    let partition_entry_lba: u64 = read_le_u64(sector, 72);
    let partition_entry_count: u32 = read_le_u32(sector, 80);
    let entry_size: u32 = read_le_u32(sector, 84);
    if partition_entry_count == 0 || entry_size < GPT_ENTRY_MIN_SIZE || entry_size
        % GPT_ENTRY_MIN_SIZE != 0 {
        return None;
    }
    assert(0 <= partition_entry_count * entry_size <= 0xffff_ffff * 0xffff_ffff)
        by (nonlinear_arith)
        requires
            0 <= partition_entry_count <= 0xffff_ffff,
            0 <= entry_size <= 0xffff_ffff,
    ;
    let array_bytes: u64 = partition_entry_count as u64 * entry_size as u64;
    let array_sectors: u64 = (array_bytes + 511) / 512;
    if partition_entry_lba > u64::MAX - array_sectors {
        return None;
    }
    let array_end_lba: u64 = partition_entry_lba + array_sectors;
    if partition_entry_lba == 0 || array_end_lba > sector_count {
        return None;
    }
    if header_lba >= partition_entry_lba && header_lba < array_end_lba {
        return None;
    }
    assert(header_sound(sector@, device.sectors(), header_lba));
    let array_crc: u32 = read_le_u32(sector, 88);
    match validate_entry_array_crc(device, partition_entry_lba, array_bytes, array_crc) {
        Some(_) => Some(
            GptHeader {
                partition_entry_lba,
                partition_entry_count,
                partition_entry_size: entry_size,
            },
        ),
        None => None,
    }
}

/// Reads the primary GPT header from LBA 1.
pub fn read_primary_header<D: BlockDevice>(device: &mut D) -> (header: Option<GptHeader>)
    ensures
        final(device).medium() == old(device).medium(),
        final(device).sectors() == old(device).sectors(),
        final(device).faults().len() >= old(device).faults().len(),
        final(device).faults().len() == old(device).faults().len() ==> final(device).faults()
            == old(device).faults() && header == header_at(
            old(device).medium(),
            old(device).sectors(),
            1,
        ),
        final(device).faults().len() > old(device).faults().len() ==> header is None
            && final(device).faults().len() == old(device).faults().len() + 1,
{
    read_header_at(device, 1)
}

/// Reads the backup GPT header from the last sector of the device.
fn read_backup_header<D: BlockDevice>(device: &mut D) -> (header: Option<GptHeader>)
    ensures
        final(device).medium() == old(device).medium(),
        final(device).sectors() == old(device).sectors(),
        final(device).faults().len() >= old(device).faults().len(),
        final(device).faults().len() == old(device).faults().len() ==> final(device).faults()
            == old(device).faults() && header == backup_header(
            old(device).medium(),
            old(device).sectors(),
        ),
        final(device).faults().len() > old(device).faults().len() ==> header is None
            && final(device).faults().len() == old(device).faults().len() + 1,
{
    let count: u64 = device.sector_count();
    if count == 0 {
        return None;
    }
    read_header_at(device, count - 1)
}

/// Byte position of entry `index` on the device.
pub open spec fn entry_position(header: GptHeader, index: u32) -> int {
    header.partition_entry_lba * 512 + index * header.partition_entry_size
}

/// The 128 bytes of entry `index` that this firmware reads.
pub open spec fn entry_bytes(medium: Seq<u8>, header: GptHeader, index: u32) -> Seq<u8> {
    window(medium, entry_position(header, index), 128)
}

/// Whether `entry` holds what the bytes of a stored entry say.
pub open spec fn entry_decodes(entry: GptPartitionEntry, bytes: Seq<u8>) -> bool {
    &&& entry.partition_type_guid@ == bytes.subrange(0, 16)
    &&& entry.unique_partition_guid@ == bytes.subrange(16, 32)
    &&& entry.first_lba == le64(bytes, 32)
    &&& entry.last_lba == le64(bytes, 40)
    &&& entry.attributes == le64(bytes, 48)
    &&& entry.partition_name@ == Seq::new(36, |i: int| le16(bytes, 56 + 2 * i))
}

/// Returns the number of sectors that must be read to decode one GPT entry that
/// starts `sector_offset` bytes into its first sector.
fn required_entry_sectors(sector_offset: usize) -> (sectors: usize)
    requires
        sector_offset < 512,
    ensures
        sectors == (sector_offset + 128 + 511) / 512,
        1 <= sectors <= 2,
{
    (sector_offset + 128 + 511) / 512
}

/// Copies 16 bytes from `bytes` starting at `offset`.
fn copy_16(bytes: &[u8], offset: usize) -> (value: [u8; 16])
    requires
        offset + 16 <= bytes@.len(),
    ensures
        value@ == bytes@.subrange(offset as int, offset + 16),
{
    assert(bytes.len() >= offset + 16);
    let mut value: [u8; 16] = [0u8; 16];
    let mut index: usize = 0;
    while index < 16
        invariant
            index <= 16,
            offset + 16 <= bytes@.len() <= usize::MAX,
            forall|i: int| 0 <= i < index ==> value@[i] == bytes@[offset + i],
        decreases 16 - index,
    {
        value[index] = bytes[offset + index];
        index += 1;
    }
    assert(value@ =~= bytes@.subrange(offset as int, offset + 16));
    value
}

/// Decodes the 128 bytes of one stored partition entry.
fn decode_entry(entry: &[u8]) -> (decoded: GptPartitionEntry)
    requires
        entry@.len() == 128,
    ensures
        entry_decodes(decoded, entry@),
{
    let mut partition_name: [u16; 36] = [0u16; 36];
    let mut name_index: usize = 0;
    while name_index < 36
        invariant
            name_index <= 36,
            entry@.len() == 128,
            forall|i: int|
                0 <= i < name_index ==> #[trigger] partition_name@[i] == le16(
                    entry@,
                    56 + 2 * i,
                ),
        decreases 36 - name_index,
    {
        partition_name[name_index] = read_le_u16(entry, 56 + name_index * 2);
        name_index += 1;
    }
    assert(partition_name@ =~= Seq::new(36, |i: int| le16(entry@, 56 + 2 * i)));
    GptPartitionEntry {
        partition_type_guid: copy_16(entry, 0),
        unique_partition_guid: copy_16(entry, 16),
        first_lba: read_le_u64(entry, 32),
        last_lba: read_le_u64(entry, 40),
        attributes: read_le_u64(entry, 48),
        partition_name,
    }
}

/// Reads one GPT partition entry by zero-based index. There is none past the
/// announced count, and none where the device fails.
pub fn read_partition_entry<D: BlockDevice>(
    device: &mut D,
    header: &GptHeader,
    index: u32,
) -> (entry: Option<GptPartitionEntry>)
    requires
        header_in_range(*header),
    ensures
        final(device).medium() == old(device).medium(),
        final(device).sectors() == old(device).sectors(),
        match entry {
            Some(read) => index < header.partition_entry_count && entry_decodes(
                read,
                entry_bytes(old(device).medium(), *header, index),
            ) && final(device).faults() == old(device).faults(),
            None => if index < header.partition_entry_count {
                final(device).faults().len() == old(device).faults().len() + 1
            } else {
                *final(device) == *old(device)
            },
        },
{
    if index >= header.partition_entry_count {
        return None;
    }
    assert(0 <= index * header.partition_entry_size <= header.partition_entry_count
        * header.partition_entry_size <= 0xffff_ffff * 0xffff_ffff) by (nonlinear_arith)
        requires
            0 <= index < header.partition_entry_count <= 0xffff_ffff,
            0 <= header.partition_entry_size <= 0xffff_ffff,
    ;
    let entry_offset: u64 = index as u64 * header.partition_entry_size as u64;
    let sector_lba: u64 = header.partition_entry_lba + entry_offset / 512;
    let sector_offset = (entry_offset % 512) as usize;
    let sectors_to_read = required_entry_sectors(sector_offset);
    let ghost medium = device.medium();
    let mut sectors: [u8; 1024] = [0u8; 1024];
    let mut single: [u8; 512] = [0u8; 512];
    let outcome = if sectors_to_read == 1 {
        device.read_blocks(sector_lba, &mut single)
    } else {
        device.read_blocks(sector_lba, &mut sectors)
    };
    match outcome {
        Ok(()) => {},
        Err(_) => return None,
    }
    let loaded = if sectors_to_read == 1 {
        single.as_slice()
    } else {
        sectors.as_slice()
    };
    let entry = &loaded[sector_offset..sector_offset + 128];
    assert(entry@ =~= entry_bytes(medium, *header, index));
    Some(decode_entry(entry))
}

/// What one UTF-16 code unit of a label is printed as.
pub open spec fn label_byte(code_unit: u16) -> u8 {
    if code_unit <= 0x7f {
        code_unit as u8
    } else {
        0x3f
    }
}

/// Number of code units before the first zero, from place `from` on.
pub open spec fn units_before_zero(name: Seq<u16>, from: int) -> nat
    decreases name.len() - from,
{
    if from < 0 || from >= name.len() || name[from] == 0 {
        0
    } else {
        1 + units_before_zero(name, from + 1)
    }
}

/// The printable label of a stored name: the code units up to the first zero,
/// those outside of ASCII as question marks, and a dash where there are none.
pub open spec fn printable_label(name: Seq<u16>) -> Seq<u8> {
    let count = units_before_zero(name, 0);
    if count == 0 {
        seq![0x2du8]
    } else {
        Seq::new(count, |i: int| label_byte(name[i]))
    }
}

/// The lower-case hexadecimal digit of a value below sixteen.
pub open spec fn hex_digit(value: int) -> u8 {
    if value < 10 {
        (0x30 + value) as u8
    } else {
        (0x61 + value - 10) as u8
    }
}

/// The two hexadecimal digits of one byte.
pub open spec fn hex_pair(byte: u8) -> Seq<u8> {
    seq![hex_digit(byte as int / 16), hex_digit(byte as int % 16)]
}

/// The canonical text of a GUID stored in GPT byte order: the first three
/// fields are little-endian, the last two are in stored order.
pub open spec fn guid_text(guid: Seq<u8>) -> Seq<u8> {
    let dash = seq![0x2du8];
    hex_pair(guid[3]) + hex_pair(guid[2]) + hex_pair(guid[1]) + hex_pair(guid[0]) + dash + hex_pair(
        guid[5],
    ) + hex_pair(guid[4]) + dash + hex_pair(guid[7]) + hex_pair(guid[6]) + dash + hex_pair(guid[8])
        + hex_pair(guid[9]) + dash + hex_pair(guid[10]) + hex_pair(guid[11]) + hex_pair(guid[12])
        + hex_pair(guid[13]) + hex_pair(guid[14]) + hex_pair(guid[15])
}

/// The name of a partition type: a friendly one for known GUIDs, else the GUID.
pub open spec fn partition_type_text(guid: Seq<u8>) -> Seq<u8> {
    if guid == GPT_TYPE_GUID_LINUX_FILESYSTEM@ {
        "Linux filesystem".spec_bytes()
    } else if guid == GPT_TYPE_GUID_ESP@ {
        "ESP".spec_bytes()
    } else {
        guid_text(guid)
    }
}

/// ASCII bytes are UTF-8.
pub proof fn ascii_is_utf8(bytes: Seq<u8>)
    requires
        forall|i: int| 0 <= i < bytes.len() ==> bytes[i] <= 0x7f,
    ensures
        valid_utf8(bytes),
{
    assert(bytes.subrange(0, 0) =~= Seq::<u8>::empty());
    assert(partial_valid_utf8(bytes, 0));
    partial_valid_utf8_extend_ascii_block(bytes, 0, bytes.len() as int);
    assert(bytes.subrange(0, bytes.len() as int) =~= bytes);
}

/// Writes the two hexadecimal digits of `byte` at `at`.
fn put_hex(buffer: &mut [u8; 36], at: usize, byte: u8)
    requires
        at + 2 <= 36,
    ensures
        final(buffer)@.take(at + 2) == old(buffer)@.take(at as int) + hex_pair(byte),
{
    let ghost before = buffer@;
    let high: u8 = byte / 16;
    let low: u8 = byte % 16;
    buffer[at] = if high < 10 {
        0x30 + high
    } else {
        0x61 + (high - 10)
    };
    buffer[at + 1] = if low < 10 {
        0x30 + low
    } else {
        0x61 + (low - 10)
    };
    assert(buffer@.take(at + 2) =~= before.take(at as int) + hex_pair(byte));
}

/// Writes a dash at `at`.
fn put_dash(buffer: &mut [u8; 36], at: usize)
    requires
        at < 36,
    ensures
        final(buffer)@.take(at + 1) == old(buffer)@.take(at as int) + seq![0x2du8],
{
    let ghost before = buffer@;
    buffer[at] = 0x2d;
    assert(buffer@.take(at + 1) =~= before.take(at as int) + seq![0x2du8]);
}

impl GptPartitionEntry {
    /// Returns `true` when the partition slot is unused.
    pub fn is_unused(&self) -> (answer: bool)
        ensures
            answer == (self.partition_type_guid@ == Seq::new(16, |i: int| 0u8)),
    {
        let ghost empty = Seq::new(16, |i: int| 0u8);
        let mut index: usize = 0;
        while index < 16
            invariant
                index <= 16,
                empty == Seq::new(16, |i: int| 0u8),
                forall|i: int| 0 <= i < index ==> self.partition_type_guid@[i] == 0,
            decreases 16 - index,
        {
            if self.partition_type_guid[index] != 0 {
                assert(self.partition_type_guid@[index as int] != empty[index as int]);
                return false;
            }
            index += 1;
        }
        assert(self.partition_type_guid@ =~= empty);
        true
    }

    /// Returns the number of sectors covered by the partition.
    pub fn sector_count(&self) -> (count: u64)
        requires
            self.first_lba <= self.last_lba,
            self.last_lba - self.first_lba < u64::MAX,
        ensures
            count == self.last_lba - self.first_lba + 1,
    {
        self.last_lba - self.first_lba + 1
    }

    /// Returns `true` when the legacy BIOS bootable attribute is set.
    pub fn bootable(&self) -> (answer: bool)
        ensures
            answer == ((self.attributes & 4) != 0),
    {
        (self.attributes & GPT_ATTRIBUTE_LEGACY_BIOS_BOOTABLE) != 0
    }

    /// Decodes the UTF-16 partition label into a printable ASCII string.
    pub fn label<'a>(&self, buffer: &'a mut [u8; 72]) -> (text: &'a str)
        ensures
            text.spec_bytes() == printable_label(self.partition_name@),
    {
        let ghost name = self.partition_name@;
        let mut out: usize = 0;
        while out < 36 && self.partition_name[out] != 0
            invariant
                out <= 36,
                name == self.partition_name@,
                units_before_zero(name, 0) == out + units_before_zero(name, out as int),
                forall|i: int| 0 <= i < out ==> buffer@[i] == label_byte(name[i]),
            decreases 36 - out,
        {
            let code_unit: u16 = self.partition_name[out];
            buffer[out] = if code_unit <= 0x7f {
                code_unit as u8
            } else {
                0x3f
            };
            out += 1;
        }
        if out == 0 {
            buffer[0] = 0x2d;
            out = 1;
        }
        let printed = &buffer.as_slice()[0..out];
        assert(printed@ =~= printable_label(name));
        proof {
            ascii_is_utf8(printed@);
        }
        match utf8_text(printed) {
            Some(text) => text,
            None => "-",
        }
    }

    /// Returns a friendly partition type name for known GUIDs and the raw GUID
    /// string for unknown ones.
    pub fn partition_type<'a>(&self, buffer: &'a mut [u8; 36]) -> (text: &'a str)
        ensures
            text.spec_bytes() == partition_type_text(self.partition_type_guid@),
    {
        if bytes_equal(
            self.partition_type_guid.as_slice(),
            GPT_TYPE_GUID_LINUX_FILESYSTEM.as_slice(),
        ) {
            return "Linux filesystem";
        }
        if bytes_equal(self.partition_type_guid.as_slice(), GPT_TYPE_GUID_ESP.as_slice()) {
            return "ESP";
        }
        self.guid(buffer)
    }

    /// Formats the raw partition-type GUID as a canonical string.
    fn guid<'a>(&self, buffer: &'a mut [u8; 36]) -> (text: &'a str)
        ensures
            text.spec_bytes() == guid_text(self.partition_type_guid@),
    {
        let guid = self.partition_type_guid;
        let ghost empty = Seq::<u8>::empty();
        assert(buffer@.take(0) =~= empty);
        assert(empty + hex_pair(guid[3]) =~= hex_pair(guid[3]));
        put_hex(buffer, 0, guid[3]);
        put_hex(buffer, 2, guid[2]);
        put_hex(buffer, 4, guid[1]);
        put_hex(buffer, 6, guid[0]);
        put_dash(buffer, 8);
        put_hex(buffer, 9, guid[5]);
        put_hex(buffer, 11, guid[4]);
        put_dash(buffer, 13);
        put_hex(buffer, 14, guid[7]);
        put_hex(buffer, 16, guid[6]);
        put_dash(buffer, 18);
        put_hex(buffer, 19, guid[8]);
        put_hex(buffer, 21, guid[9]);
        put_dash(buffer, 23);
        put_hex(buffer, 24, guid[10]);
        put_hex(buffer, 26, guid[11]);
        put_hex(buffer, 28, guid[12]);
        put_hex(buffer, 30, guid[13]);
        put_hex(buffer, 32, guid[14]);
        put_hex(buffer, 34, guid[15]);
        let printed = buffer.as_slice();
        assert(printed@ =~= printed@.take(36));
        assert(printed@ == guid_text(guid@));
        proof {
            ascii_is_utf8(printed@);
        }
        match utf8_text(printed) {
            Some(text) => text,
            None => "-",
        }
    }
}

impl PartitionEntry for GptPartitionEntry {
    open spec fn present(&self) -> bool {
        self.partition_type_guid@ != Seq::new(16, |i: int| 0u8)
    }

    open spec fn first(&self) -> u64 {
        self.first_lba
    }

    open spec fn last(&self) -> u64 {
        self.last_lba
    }

    open spec fn marked_bootable(&self) -> bool {
        (self.attributes & 4) != 0
    }

    open spec fn efi_system(&self) -> bool {
        self.partition_type_guid@ == GPT_TYPE_GUID_ESP@
    }

    open spec fn label_text(&self) -> Seq<u8> {
        printable_label(self.partition_name@)
    }

    open spec fn type_text(&self) -> Seq<u8> {
        partition_type_text(self.partition_type_guid@)
    }

    /// Returns `true` when the GPT slot is populated.
    fn is_present(&self) -> (answer: bool) {
        !self.is_unused()
    }

    /// Returns the first logical block address of the partition.
    fn first_lba(&self) -> (lba: u64) {
        self.first_lba
    }

    /// Returns the last logical block address of the partition.
    fn last_lba(&self) -> (lba: u64) {
        self.last_lba
    }

    /// Returns the number of sectors covered by the partition.
    fn sector_count(&self) -> (count: u64) {
        GptPartitionEntry::sector_count(self)
    }

    /// Returns `true` when the legacy BIOS bootable attribute is set.
    fn bootable(&self) -> (answer: bool) {
        GptPartitionEntry::bootable(self)
    }

    /// Returns `true` when the partition type GUID is the ESP GUID.
    fn is_efi_system_partition(&self) -> (answer: bool) {
        bytes_equal(self.partition_type_guid.as_slice(), GPT_TYPE_GUID_ESP.as_slice())
    }

    /// Formats the partition label into the provided scratch buffer.
    fn label<'a>(&self, buffer: &'a mut [u8; 72]) -> (text: &'a str) {
        GptPartitionEntry::label(self, buffer)
    }

    /// Formats the partition type into the provided scratch buffer.
    fn partition_type<'a>(&self, buffer: &'a mut [u8; 36]) -> (text: &'a str) {
        GptPartitionEntry::partition_type(self, buffer)
    }
}

/// What is known of the header that is accepted. With a fault it is the backup header, as
/// the primary one could not be read.
pub open spec fn header_read(
    medium: Seq<u8>,
    sectors: u64,
    header: GptHeader,
    faults_before: Seq<VirtioError>,
    faults_after: Seq<VirtioError>,
) -> bool {
    let met = faults_after.len() - faults_before.len();
    &&& 0 <= met <= 1
    &&& met == 0 ==> faults_after == faults_before && Some(header) == table_header(medium, sectors)
    &&& met == 1 ==> Some(header) == backup_header(medium, sectors)
}

/// What is known where no partition table is accepted. Reading a header stops
/// at the first fault, so no fault means that neither header is sound, one
/// that one of them was read and is not, and there are at most two.
pub open spec fn no_table(
    medium: Seq<u8>,
    sectors: u64,
    faults_before: Seq<VirtioError>,
    faults_after: Seq<VirtioError>,
) -> bool {
    let met = faults_after.len() - faults_before.len();
    &&& 0 <= met <= 2
    &&& met == 0 ==> faults_after == faults_before && table_header(medium, sectors) is None
    &&& met == 1 ==> header_at(medium, sectors, 1) is None || backup_header(medium, sectors) is None
}

/// Reads the header that locates the partition entries: the primary one, or the
/// backup header where the primary one is not accepted or cannot be read.
pub fn read_table_header<D: BlockDevice>(device: &mut D) -> (header: Option<GptHeader>)
    ensures
        final(device).medium() == old(device).medium(),
        final(device).sectors() == old(device).sectors(),
        match header {
            Some(found) => header_in_range(found) && header_read(
                old(device).medium(),
                old(device).sectors(),
                found,
                old(device).faults(),
                final(device).faults(),
            ),
            None => no_table(
                old(device).medium(),
                old(device).sectors(),
                old(device).faults(),
                final(device).faults(),
            ),
        },
{
    proof {
        accepted_header_in_range(device.medium(), device.sectors(), 1);
        if device.sectors() > 0 {
            accepted_header_in_range(
                device.medium(),
                device.sectors(),
                (device.sectors() - 1) as u64,
            );
        }
    }
    match read_primary_header(device) {
        Some(header) => Some(header),
        None => read_backup_header(device),
    }
}

/// GPT-backed partition table.
pub struct GptPartitionTable<'a, D: BlockDevice> {
    /// Device containing the GPT metadata and partition-entry array.
    device: &'a mut D,
    /// Parsed header used to locate partition entries.
    header: GptHeader,
}

impl<'a, D: BlockDevice> GptPartitionTable<'a, D> {
    /// The device under the table.
    pub closed spec fn device(&self) -> &'a mut D {
        self.device
    }

    /// The header that locates the entries.
    pub closed spec fn header(&self) -> GptHeader {
        self.header
    }

    /// A table that is not used any more leaves the device as it then is.
    pub proof fn device_released(table: Self)
        requires
            has_resolved(table),
        ensures
            *final(table.device()) == *table.device(),
    {
    }

    /// Creates a GPT partition table view from the primary header, or from the
    /// backup header where the primary one is not accepted or cannot be read.
    pub fn new(device: &'a mut D) -> (table: Option<Self>)
        ensures
            match table {
                Some(view) => view.well_formed() && view.device().medium() == old(device).medium()
                    && view.device().sectors() == old(device).sectors() && *final(view.device())
                    == *final(device) && header_read(
                    old(device).medium(),
                    old(device).sectors(),
                    view.header(),
                    old(device).faults(),
                    view.device().faults(),
                ),
                None => final(device).medium() == old(device).medium() && final(device).sectors()
                    == old(device).sectors() && no_table(
                    old(device).medium(),
                    old(device).sectors(),
                    old(device).faults(),
                    final(device).faults(),
                ),
            },
    {
        match read_table_header(device) {
            Some(header) => Some(GptPartitionTable { device, header }),
            None => None,
        }
    }
}

impl<'a, D: BlockDevice> PartitionTable for GptPartitionTable<'a, D> {
    type Entry = GptPartitionEntry;

    open spec fn well_formed(&self) -> bool {
        header_in_range(self.header())
    }

    open spec fn slots(&self) -> u32 {
        self.header().partition_entry_count
    }

    open spec fn slot_holds(&self, index: u32, entry: GptPartitionEntry) -> bool {
        entry_decodes(entry, entry_bytes(self.device().medium(), self.header(), index))
    }

    open spec fn device_faults(&self) -> Seq<VirtioError> {
        self.device().faults()
    }

    /// Returns the number of GPT partition-entry slots.
    fn partition_count(&self) -> (count: u32) {
        self.header.partition_entry_count
    }

    /// Reads one GPT partition entry by zero-based index.
    fn partition(&mut self, index: u32) -> (entry: Option<GptPartitionEntry>)
        ensures
            final(self).header() == old(self).header(),
            final(self).device().medium() == old(self).device().medium(),
            final(self).device().sectors() == old(self).device().sectors(),
            *final(final(self).device()) == *final(old(self).device()),
    {
        let header = self.header;
        read_partition_entry(self.device, &header, index)
    }
}

} // verus!
