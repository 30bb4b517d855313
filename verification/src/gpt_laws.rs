//! A GUID partition table that is written to a disk is what is read from it.

use vstd::prelude::*;
use vstd::string::*;
use vstd::utf8::*;
use crate::bytes::{le16, le32, le64, window};
use crate::gpt::{
    crc32_of, crc_bit, crc_bits, crc_over, crc_over_concatenation, entry_array, entry_bytes,
    entry_decodes, guid_text, header_at, header_sound, header_without_crc, hex_digit, hex_pair,
    printable_label, table_header, units_before_zero, GptHeader, GptPartitionEntry,
    GPT_TYPE_GUID_ESP, GPT_TYPE_GUID_LINUX_FILESYSTEM,
};
use crate::linux::literal_bytes;
use crate::partition::PartitionEntry;
use crate::print_laws::number_of;
use crate::records::{
    le16_stored, le32_stored, le64_stored, stored, stored_is_there, stored_parts, stored_whole,
    stored_within, window_is_part, zeros,
};
use crate::virtio::sector_at;
use crate::virtqueue_memory::{le16_bytes, le32_bytes, le64_bytes};

verus! {

/// The code units of a name, one behind the other.
pub open spec fn name_image(units: Seq<u16>) -> Seq<u8>
    decreases units.len(),
{
    if units.len() == 0 {
        Seq::empty()
    } else {
        name_image(units.drop_last()) + le16_bytes(units.last())
    }
}

/// The 128 bytes of a partition entry.
#[verifier::opaque]
pub open spec fn entry_image(entry: GptPartitionEntry) -> Seq<u8> {
    entry.partition_type_guid@ + entry.unique_partition_guid@ + le64_bytes(entry.first_lba)
        + le64_bytes(entry.last_lba) + le64_bytes(entry.attributes) + name_image(
        entry.partition_name@,
    )
}

/// Partition entries one behind the other, each in `entry_size` bytes.
#[verifier::opaque]
pub open spec fn array_image(entries: Seq<GptPartitionEntry>, entry_size: nat) -> Seq<u8>
    decreases entries.len(),
{
    if entries.len() == 0 {
        Seq::empty()
    } else {
        array_image(entries.drop_last(), entry_size) + (entry_image(entries.last()) + zeros(
            (entry_size - 128) as nat,
        ))
    }
}

/// What a header tells.
pub struct HeaderFields {
    pub revision: u32,
    pub own_lba: u64,
    pub other_lba: u64,
    pub first_usable: u64,
    pub last_usable: u64,
    pub disk_guid: Seq<u8>,
    pub entry_lba: u64,
    pub entry_count: u32,
    pub entry_size: u32,
    pub array_crc: u32,
    pub extra: Seq<u8>,
}

/// The letters `EFI PART`, with which a header starts.
pub open spec fn signature() -> Seq<u8> {
    seq![0x45u8, 0x46u8, 0x49u8, 0x20u8, 0x50u8, 0x41u8, 0x52u8, 0x54u8]
}

/// The bytes of a header before its own CRC.
#[verifier::opaque]
pub open spec fn header_front(fields: HeaderFields) -> Seq<u8> {
    signature() + le32_bytes(fields.revision) + le32_bytes(
        (92 + fields.extra.len()) as u32,
    )
}

/// The bytes of a header behind its own CRC.
#[verifier::opaque]
pub open spec fn header_back(fields: HeaderFields) -> Seq<u8> {
    le32_bytes(0) + le64_bytes(fields.own_lba) + le64_bytes(fields.other_lba) + le64_bytes(
        fields.first_usable,
    ) + le64_bytes(fields.last_usable) + fields.disk_guid + le64_bytes(fields.entry_lba)
        + le32_bytes(fields.entry_count) + le32_bytes(fields.entry_size) + le32_bytes(
        fields.array_crc,
    ) + fields.extra
}

/// The bytes of a header with a given CRC of its own.
#[verifier::opaque]
pub open spec fn header_image(fields: HeaderFields, crc: u32) -> Seq<u8> {
    header_front(fields) + le32_bytes(crc) + header_back(fields)
}

/// Whether the places that a header names make sense on a disk of `sectors` sectors.
pub open spec fn fields_fit(fields: HeaderFields, sectors: u64) -> bool {
    let array_end = fields.entry_lba + (fields.entry_count * fields.entry_size + 511) / 512;
    &&& fields.disk_guid.len() == 16
    &&& fields.extra.len() <= 420
    &&& fields.other_lba < sectors
    &&& fields.other_lba != fields.own_lba
    &&& fields.first_usable <= fields.last_usable < sectors
    &&& fields.entry_count > 0
    &&& fields.entry_size >= 128
    &&& fields.entry_size % 128 == 0
    &&& fields.entry_lba > 0
    &&& array_end <= sectors
    &&& fields.own_lba < fields.entry_lba || array_end <= fields.own_lba
}

/// Whether a disk holds a header at its own place and the entry array that it tells of, both
/// with their CRCs.
pub open spec fn table_stored(
    medium: Seq<u8>,
    fields: HeaderFields,
    entries: Seq<GptPartitionEntry>,
) -> bool {
    let array = array_image(entries, fields.entry_size as nat);
    &&& entries.len() == fields.entry_count
    &&& fields.array_crc == crc32_of(array)
    &&& (fields.own_lba + 1) * 512 <= medium.len()
    &&& stored(
        medium,
        fields.own_lba * 512,
        header_image(fields, crc32_of(header_image(fields, 0))),
    )
    &&& stored(medium, fields.entry_lba * 512, array)
}

/// The entries of an accepted table stand one behind the other in the array that the CRC of
/// the header covers.
pub proof fn entries_stand_in_array(medium: Seq<u8>, sectors: u64, lba: u64, index: u32)
    requires
        header_at(medium, sectors, lba) matches Some(header) && index
            < header.partition_entry_count,
    ensures
        ({
            let header = header_at(medium, sectors, lba)->0;
            let array = entry_array(medium, sector_at(medium, lba as int));
            &&& array.len() == header.partition_entry_count * header.partition_entry_size
            &&& (index + 1) * header.partition_entry_size <= array.len()
            &&& entry_bytes(medium, header, index) == array.subrange(
                index * header.partition_entry_size,
                index * header.partition_entry_size + 128,
            )
        }),
{
    let header = header_at(medium, sectors, lba)->0;
    let array = entry_array(medium, sector_at(medium, lba as int));
    let size = header.partition_entry_size as int;
    assert((index + 1) * size <= header.partition_entry_count * size) by (nonlinear_arith)
        requires
            index + 1 <= header.partition_entry_count,
            size >= 0,
    ;
    assert((index + 1) * size == index * size + size) by (nonlinear_arith);
    assert(index * size >= 0) by (nonlinear_arith)
        requires
            index >= 0,
            size >= 0,
    ;
    assert(entry_bytes(medium, header, index) =~= array.subrange(
        index * size,
        index * size + 128,
    ));
}

/// Length of a name and its units.
proof fn name_units_stored(bytes: Seq<u8>, at: int, units: Seq<u16>)
    requires
        stored(bytes, at, name_image(units)),
    ensures
        name_image(units).len() == 2 * units.len(),
        forall|i: int| 0 <= i < units.len() ==> #[trigger] le16(bytes, at + 2 * i) == units[i],
    decreases units.len(),
{
    if units.len() > 0 {
        let earlier = units.drop_last();
        stored_parts(bytes, at, name_image(earlier), le16_bytes(units.last()));
        name_units_stored(bytes, at, earlier);
        le16_stored(bytes, at + 2 * earlier.len(), units.last());
        assert forall|i: int| 0 <= i < units.len() implies #[trigger] le16(bytes, at + 2 * i)
            == units[i] by {
            if i < earlier.len() {
                assert(earlier[i] == units[i]);
            }
        }
    }
}

proof fn name_image_length(units: Seq<u16>)
    ensures
        name_image(units).len() == 2 * units.len(),
    decreases units.len(),
{
    if units.len() > 0 {
        name_image_length(units.drop_last());
    }
}

/// A partition entry that is written is read back field by field.
#[verifier::spinoff_prover]
#[verifier::rlimit(40)]
pub proof fn written_entry_decodes(entry: GptPartitionEntry)
    ensures
        entry_image(entry).len() == 128,
        entry_decodes(entry, entry_image(entry)),
{
    reveal(entry_image);
    let image = entry_image(entry);
    let kind = entry.partition_type_guid@;
    let unique = entry.unique_partition_guid@;
    let first = le64_bytes(entry.first_lba);
    let last = le64_bytes(entry.last_lba);
    let attributes = le64_bytes(entry.attributes);
    let name = name_image(entry.partition_name@);
    name_image_length(entry.partition_name@);
    stored_whole(image);
    stored_parts(image, 0, kind + unique + first + last + attributes, name);
    stored_parts(image, 0, kind + unique + first + last, attributes);
    stored_parts(image, 0, kind + unique + first, last);
    stored_parts(image, 0, kind + unique, first);
    stored_parts(image, 0, kind, unique);
    stored_is_there(image, 0, kind);
    stored_is_there(image, 16, unique);
    le64_stored(image, 32, entry.first_lba);
    le64_stored(image, 40, entry.last_lba);
    le64_stored(image, 48, entry.attributes);
    name_units_stored(image, 56, entry.partition_name@);
    assert(entry.partition_name@ =~= Seq::new(36, |i: int| le16(image, 56 + 2 * i)));
}

/// Two entries that the same bytes stand for are the same.
pub proof fn entry_is_determined(bytes: Seq<u8>, a: GptPartitionEntry, b: GptPartitionEntry)
    requires
        entry_decodes(a, bytes),
        entry_decodes(b, bytes),
    ensures
        entry_image(a) == entry_image(b),
{
    reveal(entry_image);
}

/// Where an entry stands in an array of entries.
#[verifier::spinoff_prover]
#[verifier::rlimit(40)]
proof fn array_image_holds(entries: Seq<GptPartitionEntry>, entry_size: nat, index: int)
    requires
        entry_size >= 128,
    ensures
        array_image(entries, entry_size).len() == entries.len() * entry_size,
        0 <= index < entries.len() ==> stored(
            array_image(entries, entry_size),
            index * entry_size,
            entry_image(entries[index]),
        ),
    decreases entries.len(),
{
    reveal_with_fuel(array_image, 2);
    if entries.len() > 0 {
        let earlier = entries.drop_last();
        let whole = array_image(entries, entry_size);
        let before = array_image(earlier, entry_size);
        let part = entry_image(entries.last());
        let rest = zeros((entry_size - 128) as nat);
        array_image_holds(earlier, entry_size, index);
        written_entry_decodes(entries.last());
        assert(entries.len() * entry_size == earlier.len() * entry_size + entry_size)
            by (nonlinear_arith)
            requires
                entries.len() == earlier.len() + 1,
        ;
        if 0 <= index < earlier.len() {
            written_entry_decodes(entries[index]);
            assert(earlier[index] == entries[index]);
            assert(whole.subrange(0, before.len() as int) =~= before);
            stored_within(
                whole,
                0,
                before.len() as int,
                index * entry_size,
                entry_image(entries[index]),
            );
        } else if index == earlier.len() {
            stored_whole(whole);
            stored_parts(whole, 0, before, part + rest);
            stored_parts(whole, before.len() as int, part, rest);
        }
    } else {
        assert(0 * entry_size == 0) by (nonlinear_arith);
    }
}

/// The bytes of a header before its own CRC, where they stand in its sector.
#[verifier::spinoff_prover]
#[verifier::rlimit(40)]
proof fn header_front_stored(sector: Seq<u8>, fields: HeaderFields)
    requires
        fields.extra.len() <= 420,
        stored(sector, 0, header_front(fields)),
    ensures
        header_front(fields).len() == 16,
        sector.take(8) == "EFI PART".spec_bytes(),
        le32(sector, 12) == 92 + fields.extra.len(),
        sector.take(16) == header_front(fields),
{
    reveal(header_front);
    signature_is_literal();
    let mark = signature();
    let front = header_front(fields);
    let size = (92 + fields.extra.len()) as u32;
    stored_is_there(sector, 0, front);
    stored_parts(sector, 0, mark + le32_bytes(fields.revision), le32_bytes(size));
    stored_parts(sector, 0, mark, le32_bytes(fields.revision));
    stored_is_there(sector, 0, mark);
    le32_stored(sector, 12, size);
    assert(sector.take(8) =~= sector.subrange(0, 8));
    assert(sector.take(16) =~= sector.subrange(0, 16));
}

/// The bytes of a header behind its own CRC, where they stand in its sector.
#[verifier::spinoff_prover]
#[verifier::rlimit(40)]
proof fn header_back_stored(sector: Seq<u8>, fields: HeaderFields)
    requires
        fields.disk_guid.len() == 16,
        stored(sector, 20, header_back(fields)),
    ensures
        header_back(fields).len() == 72 + fields.extra.len(),
        le64(sector, 24) == fields.own_lba,
        le64(sector, 32) == fields.other_lba,
        le64(sector, 40) == fields.first_usable,
        le64(sector, 48) == fields.last_usable,
        le64(sector, 72) == fields.entry_lba,
        le32(sector, 80) == fields.entry_count,
        le32(sector, 84) == fields.entry_size,
        le32(sector, 88) == fields.array_crc,
        sector.subrange(20, (92 + fields.extra.len()) as int) == header_back(fields),
{
    reveal(header_back);
    let back = header_back(fields);
    let p0 = le32_bytes(0);
    let p1 = p0 + le64_bytes(fields.own_lba);
    let p2 = p1 + le64_bytes(fields.other_lba);
    let p3 = p2 + le64_bytes(fields.first_usable);
    let p4 = p3 + le64_bytes(fields.last_usable);
    let p5 = p4 + fields.disk_guid;
    let p6 = p5 + le64_bytes(fields.entry_lba);
    let p7 = p6 + le32_bytes(fields.entry_count);
    let p8 = p7 + le32_bytes(fields.entry_size);
    let p9 = p8 + le32_bytes(fields.array_crc);
    assert(back == p9 + fields.extra);
    stored_is_there(sector, 20, back);
    stored_parts(sector, 20, p9, fields.extra);
    stored_parts(sector, 20, p8, le32_bytes(fields.array_crc));
    stored_parts(sector, 20, p7, le32_bytes(fields.entry_size));
    stored_parts(sector, 20, p6, le32_bytes(fields.entry_count));
    stored_parts(sector, 20, p5, le64_bytes(fields.entry_lba));
    stored_parts(sector, 20, p4, fields.disk_guid);
    stored_parts(sector, 20, p3, le64_bytes(fields.last_usable));
    stored_parts(sector, 20, p2, le64_bytes(fields.first_usable));
    stored_parts(sector, 20, p1, le64_bytes(fields.other_lba));
    stored_parts(sector, 20, p0, le64_bytes(fields.own_lba));
    le64_stored(sector, 24, fields.own_lba);
    le64_stored(sector, 32, fields.other_lba);
    le64_stored(sector, 40, fields.first_usable);
    le64_stored(sector, 48, fields.last_usable);
    le64_stored(sector, 72, fields.entry_lba);
    le32_stored(sector, 80, fields.entry_count);
    le32_stored(sector, 84, fields.entry_size);
    le32_stored(sector, 88, fields.array_crc);
}

/// The bytes of a header that stand in its sector.
#[verifier::spinoff_prover]
#[verifier::rlimit(40)]
proof fn header_fields_stored(sector: Seq<u8>, fields: HeaderFields, crc: u32)
    requires
        fields.disk_guid.len() == 16,
        fields.extra.len() <= 420,
        stored(sector, 0, header_image(fields, crc)),
    ensures
        header_image(fields, crc).len() == 92 + fields.extra.len(),
        sector.take(8) == "EFI PART".spec_bytes(),
        le32(sector, 12) == 92 + fields.extra.len(),
        le32(sector, 16) == crc,
        le64(sector, 24) == fields.own_lba,
        le64(sector, 32) == fields.other_lba,
        le64(sector, 40) == fields.first_usable,
        le64(sector, 48) == fields.last_usable,
        le64(sector, 72) == fields.entry_lba,
        le32(sector, 80) == fields.entry_count,
        le32(sector, 84) == fields.entry_size,
        le32(sector, 88) == fields.array_crc,
        header_without_crc(sector, (92 + fields.extra.len()) as int) == header_image(fields, 0),
{
    reveal(header_image);
    let front = header_front(fields);
    let back = header_back(fields);
    stored_parts(sector, 0, front + le32_bytes(crc), back);
    stored_parts(sector, 0, front, le32_bytes(crc));
    header_front_stored(sector, fields);
    le32_stored(sector, 16, crc);
    header_back_stored(sector, fields);
    assert(seq![0u8, 0u8, 0u8, 0u8] =~= le32_bytes(0));
}

proof fn signature_is_literal()
    ensures
        "EFI PART".spec_bytes() == signature(),
{
    reveal_strlit("EFI PART");
    literal_bytes("EFI PART");
    assert forall|i: int| 0 <= i < 8 implies "EFI PART".spec_bytes()[i] == signature()[i] by {
        assert("EFI PART".spec_bytes()[i] == "EFI PART"@[i] as u8);
    }
    assert("EFI PART".spec_bytes() =~= signature());
}

/// A table that was written to a disk is accepted, and each of its entries is read back from
/// its slot.
#[verifier::spinoff_prover]
#[verifier::rlimit(40)]
pub proof fn written_table_is_read(
    medium: Seq<u8>,
    sectors: u64,
    fields: HeaderFields,
    entries: Seq<GptPartitionEntry>,
)
    requires
        fields_fit(fields, sectors),
        table_stored(medium, fields, entries),
    ensures
        header_at(medium, sectors, fields.own_lba) matches Some(header)
            && header.partition_entry_lba == fields.entry_lba && header.partition_entry_count
            == entries.len() && header.partition_entry_size == fields.entry_size && forall|
            index: u32,
        |
            index < entries.len() ==> entry_decodes(
                entries[index as int],
                #[trigger] entry_bytes(medium, header, index),
            ),
{
    let lba = fields.own_lba as int;
    let sector = sector_at(medium, lba);
    let size = fields.entry_size as nat;
    let array = array_image(entries, size);
    let image = header_image(fields, crc32_of(header_image(fields, 0)));
    stored_within(medium, lba * 512, lba * 512 + 512, 0, image);
    header_length(fields, crc32_of(header_image(fields, 0)));
    header_fields_stored(sector, fields, crc32_of(header_image(fields, 0)));
    array_image_holds(entries, size, 0);
    stored_is_there(medium, fields.entry_lba * 512, array);
    window_is_part(medium, fields.entry_lba * 512, array.len() as int);
    assert(entry_array(medium, sector) =~= array);
    assert(header_sound(sector, sectors, fields.own_lba));
    let header = header_at(medium, sectors, fields.own_lba)->0;
    assert forall|index: u32| index < entries.len() implies entry_decodes(
        entries[index as int],
        #[trigger] entry_bytes(medium, header, index),
    ) by {
        array_image_holds(entries, size, index as int);
        written_entry_decodes(entries[index as int]);
        stored_is_there(array, index * size, entry_image(entries[index as int]));
        entries_stand_in_array(medium, sectors, fields.own_lba, index);
        assert(entry_bytes(medium, header, index) == entry_image(entries[index as int]));
    }
}

#[verifier::spinoff_prover]
proof fn header_length(fields: HeaderFields, crc: u32)
    requires
        fields.disk_guid.len() == 16,
    ensures
        header_image(fields, crc).len() == 92 + fields.extra.len(),
{
    reveal(header_image);
    reveal(header_front);
    reveal(header_back);
}

/// A disk with a table in its second sector shows that table, and one whose second sector
/// holds none shows the table in its last sector.
pub proof fn written_table_counts(
    medium: Seq<u8>,
    sectors: u64,
    fields: HeaderFields,
    entries: Seq<GptPartitionEntry>,
)
    requires
        fields_fit(fields, sectors),
        table_stored(medium, fields, entries),
        fields.own_lba == 1 || (fields.own_lba == sectors - 1 && header_at(medium, sectors, 1)
            is None),
    ensures
        table_header(medium, sectors) == Some(
            GptHeader {
                partition_entry_lba: fields.entry_lba,
                partition_entry_count: entries.len() as u32,
                partition_entry_size: fields.entry_size,
            },
        ),
{
    written_table_is_read(medium, sectors, fields, entries);
}

/// The steps of the CRC lose nothing.
proof fn crc_bits_differ(a: u32, b: u32, bits: nat)
    requires
        a != b,
    ensures
        crc_bits(a, bits) != crc_bits(b, bits),
    decreases bits,
{
    if bits > 0 {
        crc_bits_differ(a, b, (bits - 1) as nat);
        let x = crc_bits(a, (bits - 1) as nat);
        let y = crc_bits(b, (bits - 1) as nat);
        assert(crc_bit(x) != crc_bit(y)) by {
            assert(x != y ==> (if x & 1 != 0 {
                (x >> 1) ^ 0xedb8_8320
            } else {
                x >> 1
            }) != (if y & 1 != 0 {
                (y >> 1) ^ 0xedb8_8320
            } else {
                y >> 1
            })) by (bit_vector);
        }
    }
}

proof fn crc_over_differs(a: u32, b: u32, bytes: Seq<u8>)
    requires
        a != b,
    ensures
        crc_over(a, bytes) != crc_over(b, bytes),
    decreases bytes.len(),
{
    if bytes.len() > 0 {
        crc_over_differs(a, b, bytes.drop_last());
        let x = crc_over(a, bytes.drop_last());
        let y = crc_over(b, bytes.drop_last());
        let byte = bytes.last() as u32;
        assert(x != y ==> x ^ byte != y ^ byte) by (bit_vector);
        crc_bits_differ(x ^ byte, y ^ byte, 8);
    }
}

/// A byte string in which one byte is damaged has another CRC.
pub proof fn damaged_byte_changes_crc(bytes: Seq<u8>, at: int, value: u8)
    requires
        0 <= at < bytes.len(),
        bytes[at] != value,
    ensures
        crc32_of(bytes.update(at, value)) != crc32_of(bytes),
    decreases bytes.len(),
{
    let damaged = bytes.update(at, value);
    damage_stays(0xffff_ffff, bytes, at, value);
    let x = crc_over(0xffff_ffff, bytes);
    let y = crc_over(0xffff_ffff, damaged);
    assert(x != y ==> !x != !y) by (bit_vector);
}

proof fn damage_stays(crc: u32, bytes: Seq<u8>, at: int, value: u8)
    requires
        0 <= at < bytes.len(),
        bytes[at] != value,
    ensures
        crc_over(crc, bytes.update(at, value)) != crc_over(crc, bytes),
    decreases bytes.len(),
{
    let damaged = bytes.update(at, value);
    let last = bytes.len() - 1;
    if at == last {
        assert(damaged.drop_last() =~= bytes.drop_last());
        let x = crc_over(crc, bytes.drop_last());
        let a = bytes.last() as u32;
        let b = value as u32;
        assert(a != b ==> x ^ a != x ^ b) by (bit_vector);
        crc_bits_differ(x ^ a, x ^ b, 8);
    } else {
        damage_stays(crc, bytes.drop_last(), at, value);
        assert(damaged.drop_last() =~= bytes.drop_last().update(at, value));
        let x = crc_over(crc, bytes.drop_last());
        let y = crc_over(crc, damaged.drop_last());
        let byte = bytes.last() as u32;
        assert(x != y ==> x ^ byte != y ^ byte) by (bit_vector);
        crc_bits_differ(x ^ byte, y ^ byte, 8);
    }
}

/// Eight steps divide the low byte and shift the other bytes down.
#[verifier::spinoff_prover]
proof fn low_byte_is_divided(c0: u32)
    ensures
        crc_bits(c0, 8) == (c0 >> 8) ^ crc_bits(c0 & 0xff, 8),
{
    reveal_with_fuel(crc_bits, 9);
    let t0 = c0 & 0xff;
    let c1 = crc_bit(c0);
    let c2 = crc_bit(c1);
    let c3 = crc_bit(c2);
    let c4 = crc_bit(c3);
    let c5 = crc_bit(c4);
    let c6 = crc_bit(c5);
    let c7 = crc_bit(c6);
    let c8 = crc_bit(c7);
    let t1 = crc_bit(t0);
    let t2 = crc_bit(t1);
    let t3 = crc_bit(t2);
    let t4 = crc_bit(t3);
    let t5 = crc_bit(t4);
    let t6 = crc_bit(t5);
    let t7 = crc_bit(t6);
    let t8 = crc_bit(t7);
    assert(c8 == (c0 >> 8) ^ t8) by (bit_vector)
        requires
            t0 == c0 & 0xff,
            c1 == crc_bit(c0),
            c2 == crc_bit(c1),
            c3 == crc_bit(c2),
            c4 == crc_bit(c3),
            c5 == crc_bit(c4),
            c6 == crc_bit(c5),
            c7 == crc_bit(c6),
            c8 == crc_bit(c7),
            t1 == crc_bit(t0),
            t2 == crc_bit(t1),
            t3 == crc_bit(t2),
            t4 == crc_bit(t3),
            t5 == crc_bit(t4),
            t6 == crc_bit(t5),
            t7 == crc_bit(t6),
            t8 == crc_bit(t7),
    ;
}

/// The remainders of the bytes that a stored CRC leaves.
proof fn remainders()
    ensures
        crc_bits(0xff, 8) == 0x2d02_ef8d,
        crc_bits(0x72, 8) == 0xbe0b_1010,
        crc_bits(0, 8) == 0,
        crc_bits(0xed, 8) == 0xdebb_9ec5,
{
    reveal_with_fuel(crc_bits, 9);
    assert(crc_bit(crc_bit(crc_bit(crc_bit(crc_bit(crc_bit(crc_bit(crc_bit(0xffu32))))))))
        == 0x2d02_ef8du32) by (bit_vector);
    assert(crc_bit(crc_bit(crc_bit(crc_bit(crc_bit(crc_bit(crc_bit(crc_bit(0x72u32))))))))
        == 0xbe0b_1010u32) by (bit_vector);
    assert(crc_bit(crc_bit(crc_bit(crc_bit(crc_bit(crc_bit(crc_bit(crc_bit(0u32))))))))
        == 0u32) by (bit_vector);
    assert(crc_bit(crc_bit(crc_bit(crc_bit(crc_bit(crc_bit(crc_bit(crc_bit(0xedu32))))))))
        == 0xdebb_9ec5u32) by (bit_vector);
}

/// The CRC of a byte string with its own CRC behind it is the same for all byte strings.
#[verifier::spinoff_prover]
#[verifier::rlimit(30)]
pub proof fn stored_crc_is_recognised(bytes: Seq<u8>)
    ensures
        crc32_of(bytes + le32_bytes(crc32_of(bytes))) == 0x2144_df1c,
{
    let s0 = crc_over(0xffff_ffff, bytes);
    let crc = !s0;
    let tail = le32_bytes(crc);
    crc_over_concatenation(0xffff_ffff, bytes, tail);
    let b0 = tail[0] as u32;
    let b1 = tail[1] as u32;
    let b2 = tail[2] as u32;
    let b3 = tail[3] as u32;
    assert(b0 == crc % 0x100);
    assert(b1 == (crc / 0x100) % 0x100);
    assert(b2 == (crc / 0x1_0000) % 0x100);
    assert(b3 == crc / 0x100_0000);
    let three = tail.drop_last();
    let two = three.drop_last();
    let one = two.drop_last();
    assert(one.drop_last() =~= Seq::<u8>::empty());
    let s1 = crc_bits(s0 ^ b0, 8);
    let s2 = crc_bits(s1 ^ b1, 8);
    let s3 = crc_bits(s2 ^ b2, 8);
    let s4 = crc_bits(s3 ^ b3, 8);
    assert(crc_over(s0, one.drop_last()) == s0);
    assert(crc_over(s0, one) == s1);
    assert(crc_over(s0, two) == s2);
    assert(crc_over(s0, three) == s3);
    assert(crc_over(s0, tail) == s4);
    remainders();
    low_byte_is_divided(s0 ^ b0);
    low_byte_is_divided(s1 ^ b1);
    low_byte_is_divided(s2 ^ b2);
    low_byte_is_divided(s3 ^ b3);
    assert((s0 ^ b0) & 0xff == 0xff && (s0 ^ b0) >> 8 == s0 >> 8) by (bit_vector)
        requires
            b0 == (!s0) % 0x100,
    ;
    assert((s1 ^ b1) & 0xff == 0x72 && ((s1 ^ b1) >> 8) ^ 0xbe0b_1010 == (s0 >> 16) ^ 0xbe26_12ff)
        by (bit_vector)
        requires
            s1 == (s0 >> 8) ^ 0x2d02_ef8d,
            b1 == ((!s0) / 0x100) % 0x100,
    ;
    assert((s2 ^ b2) & 0xff == 0 && ((s2 ^ b2) >> 8) ^ 0 == (s0 >> 24) ^ 0xbe_2612) by (bit_vector)
        requires
            s2 == (s0 >> 16) ^ 0xbe26_12ff,
            b2 == ((!s0) / 0x1_0000) % 0x100,
    ;
    assert((s3 ^ b3) & 0xff == 0xed && !(((s3 ^ b3) >> 8) ^ 0xdebb_9ec5) == 0x2144_df1cu32)
        by (bit_vector)
        requires
            s3 == (s0 >> 24) ^ 0xbe_2612,
            b3 == (!s0) / 0x100_0000,
    ;
}

/// A sector that holds a header is accepted exactly when it is the one that the header names,
/// the CRC of the header is right, the places that it names make sense on the disk, and the
/// entry array has the CRC that it names.
#[verifier::spinoff_prover]
#[verifier::rlimit(40)]
pub proof fn stored_header_is_judged(
    medium: Seq<u8>,
    sectors: u64,
    lba: u64,
    fields: HeaderFields,
    crc: u32,
)
    requires
        fields.disk_guid.len() == 16,
        fields.extra.len() <= 420,
        (lba + 1) * 512 <= medium.len(),
        stored(medium, lba * 512, header_image(fields, crc)),
    ensures
        header_at(medium, sectors, lba) is Some <==> lba == fields.own_lba && crc == crc32_of(
            header_image(fields, 0),
        ) && fields_fit(fields, sectors) && fields.array_crc == crc32_of(
            window(medium, fields.entry_lba * 512, fields.entry_count * fields.entry_size),
        ),
{
    let sector = sector_at(medium, lba as int);
    header_length(fields, crc);
    stored_within(medium, lba * 512, lba * 512 + 512, 0, header_image(fields, crc));
    header_fields_stored(sector, fields, crc);
    assert(entry_array(medium, sector) == window(
        medium,
        fields.entry_lba * 512,
        fields.entry_count * fields.entry_size,
    ));
}

/// A sector that does not start with the letters of a header, or tells of a header that is too
/// short or longer than a sector, is none.
pub proof fn other_sectors_are_no_headers(medium: Seq<u8>, sectors: u64, lba: u64)
    requires
        (lba + 1) * 512 <= medium.len(),
    ensures
        header_at(medium, sectors, lba) is Some ==> stored(
            sector_at(medium, lba as int),
            0,
            signature(),
        ) && 92 <= le32(sector_at(medium, lba as int), 12) <= 512,
{
    signature_is_literal();
    let sector = sector_at(medium, lba as int);
    if header_at(medium, sectors, lba) is Some {
        reveal(stored);
        assert(sector.take(8).len() == 8);
        assert(sector.subrange(0, 8) =~= sector.take(8));
    }
}

/// A partition is marked for booting by the third lowest bit of its attributes.
pub proof fn third_bit_marks_bootable(entry: GptPartitionEntry)
    ensures
        entry.marked_bootable() <==> entry.attributes as int / 4 % 2 == 1,
{
    let attributes = entry.attributes;
    assert((attributes & 4 != 0) <==> attributes / 4 % 2 == 1) by (bit_vector);
}

/// The printable label of a name that ends with a terminator, or fills its field, is one
/// letter for each code unit before the end: the same letter where it is ASCII, else a
/// question mark. A dash stands for no letters.
pub proof fn label_has_letter_for_each_unit(name: Seq<u16>, length: int)
    requires
        0 <= length <= name.len(),
        forall|i: int| 0 <= i < length ==> name[i] != 0,
        length < name.len() ==> name[length] == 0,
    ensures
        length == 0 ==> printable_label(name) == seq![0x2du8],
        length > 0 ==> printable_label(name).len() == length && forall|i: int|
            0 <= i < length ==> #[trigger] printable_label(name)[i] == if name[i] < 128 {
                name[i] as int
            } else {
                0x3f
            },
{
    units_are_counted(name, 0, length);
}

proof fn units_are_counted(name: Seq<u16>, from: int, length: int)
    requires
        0 <= from <= length <= name.len(),
        forall|i: int| from <= i < length ==> name[i] != 0,
        length < name.len() ==> name[length] == 0,
    ensures
        units_before_zero(name, from) == length - from,
    decreases length - from,
{
    if from < length {
        units_are_counted(name, from + 1, length);
    }
}

/// Where the two digits of each byte of a GUID stand in its text.
proof fn guid_digits(guid: Seq<u8>)
    requires
        guid.len() == 16,
    ensures
        guid_text(guid).len() == 36,
        guid_text(guid)[8] == 0x2d && guid_text(guid)[13] == 0x2d && guid_text(guid)[18] == 0x2d
            && guid_text(guid)[23] == 0x2d,
        guid_text(guid)[6] == hex_digit(guid[0] as int / 16) && guid_text(guid)[7] == hex_digit(
            guid[0] as int % 16,
        ),
        guid_text(guid)[4] == hex_digit(guid[1] as int / 16) && guid_text(guid)[5] == hex_digit(
            guid[1] as int % 16,
        ),
        guid_text(guid)[2] == hex_digit(guid[2] as int / 16) && guid_text(guid)[3] == hex_digit(
            guid[2] as int % 16,
        ),
        guid_text(guid)[0] == hex_digit(guid[3] as int / 16) && guid_text(guid)[1] == hex_digit(
            guid[3] as int % 16,
        ),
        guid_text(guid)[11] == hex_digit(guid[4] as int / 16) && guid_text(guid)[12] == hex_digit(
            guid[4] as int % 16,
        ),
        guid_text(guid)[9] == hex_digit(guid[5] as int / 16) && guid_text(guid)[10] == hex_digit(
            guid[5] as int % 16,
        ),
        guid_text(guid)[16] == hex_digit(guid[6] as int / 16) && guid_text(guid)[17] == hex_digit(
            guid[6] as int % 16,
        ),
        guid_text(guid)[14] == hex_digit(guid[7] as int / 16) && guid_text(guid)[15] == hex_digit(
            guid[7] as int % 16,
        ),
        guid_text(guid)[19] == hex_digit(guid[8] as int / 16) && guid_text(guid)[20] == hex_digit(
            guid[8] as int % 16,
        ),
        guid_text(guid)[21] == hex_digit(guid[9] as int / 16) && guid_text(guid)[22] == hex_digit(
            guid[9] as int % 16,
        ),
        guid_text(guid)[24] == hex_digit(guid[10] as int / 16) && guid_text(guid)[25] == hex_digit(
            guid[10] as int % 16,
        ),
        guid_text(guid)[26] == hex_digit(guid[11] as int / 16) && guid_text(guid)[27] == hex_digit(
            guid[11] as int % 16,
        ),
        guid_text(guid)[28] == hex_digit(guid[12] as int / 16) && guid_text(guid)[29] == hex_digit(
            guid[12] as int % 16,
        ),
        guid_text(guid)[30] == hex_digit(guid[13] as int / 16) && guid_text(guid)[31] == hex_digit(
            guid[13] as int % 16,
        ),
        guid_text(guid)[32] == hex_digit(guid[14] as int / 16) && guid_text(guid)[33] == hex_digit(
            guid[14] as int % 16,
        ),
        guid_text(guid)[34] == hex_digit(guid[15] as int / 16) && guid_text(guid)[35] == hex_digit(
            guid[15] as int % 16,
        ),
{
}

/// The digits of a byte tell the byte.
proof fn hex_digits_differ(first: u8, second: u8)
    requires
        hex_digit(first as int / 16) == hex_digit(second as int / 16),
        hex_digit(first as int % 16) == hex_digit(second as int % 16),
    ensures
        first == second,
{
}

/// Digits before those of a byte are the higher ones of the number.
proof fn pair_is_read(high: Seq<u8>, value: int, byte: u8)
    requires
        number_of(high, 16) == Some(value),
    ensures
        number_of(high + hex_pair(byte), 16) == Some(value * 256 + byte),
{
    let whole = high + hex_pair(byte);
    assert(whole.drop_last().drop_last() =~= high);
    reveal_with_fuel(number_of, 3);
}

/// A GUID as it is stored: three fields with their low bytes first, and eight bytes.
pub open spec fn guid_image(first: u32, second: u16, third: u16, rest: Seq<u8>) -> Seq<u8> {
    le32_bytes(first) + le16_bytes(second) + le16_bytes(third) + rest
}

/// The text of a GUID has its three fields and its eight bytes as hexadecimal numbers, with
/// dashes between the fields, before the third byte and nowhere else.
#[verifier::spinoff_prover]
#[verifier::rlimit(40)]
pub proof fn guid_text_is_read(first: u32, second: u16, third: u16, rest: Seq<u8>, index: int)
    requires
        rest.len() == 8,
        0 <= index < 8,
    ensures
        ({
            let text = guid_text(guid_image(first, second, third, rest));
            let at = if index < 2 {
                19 + 2 * index
            } else {
                20 + 2 * index
            };
            &&& text.len() == 36
            &&& text[8] == 0x2d && text[13] == 0x2d && text[18] == 0x2d && text[23] == 0x2d
            &&& number_of(text.subrange(0, 8), 16) == Some(first as int)
            &&& number_of(text.subrange(9, 13), 16) == Some(second as int)
            &&& number_of(text.subrange(14, 18), 16) == Some(third as int)
            &&& number_of(text.subrange(at, at + 2), 16) == Some(rest[index] as int)
        }),
{
    let guid = guid_image(first, second, third, rest);
    let text = guid_text(guid);
    let none = Seq::<u8>::empty();
    guid_digits(guid);
    assert(number_of(none, 16) == Some(0int));
    assert(guid[0] == first % 0x100 && guid[1] == (first / 0x100) % 0x100);
    assert(guid[2] == (first / 0x1_0000) % 0x100 && guid[3] == first / 0x100_0000);
    assert(guid[4] == second % 0x100 && guid[5] == second / 0x100);
    assert(guid[6] == third % 0x100 && guid[7] == third / 0x100);
    let one = none + hex_pair(guid[3]);
    let two = one + hex_pair(guid[2]);
    let three = two + hex_pair(guid[1]);
    pair_is_read(none, 0, guid[3]);
    pair_is_read(one, guid[3] as int, guid[2]);
    pair_is_read(two, guid[3] * 256 + guid[2], guid[1]);
    pair_is_read(three, (guid[3] * 256 + guid[2]) * 256 + guid[1], guid[0]);
    assert(text.subrange(0, 8) =~= three + hex_pair(guid[0]));
    pair_is_read(none, 0, guid[5]);
    pair_is_read(none + hex_pair(guid[5]), guid[5] as int, guid[4]);
    assert(text.subrange(9, 13) =~= none + hex_pair(guid[5]) + hex_pair(guid[4]));
    pair_is_read(none, 0, guid[7]);
    pair_is_read(none + hex_pair(guid[7]), guid[7] as int, guid[6]);
    assert(text.subrange(14, 18) =~= none + hex_pair(guid[7]) + hex_pair(guid[6]));
    let at = if index < 2 {
        19 + 2 * index
    } else {
        20 + 2 * index
    };
    assert(guid[8 + index] == rest[index]);
    pair_is_read(none, 0, rest[index]);
    assert(text.subrange(at, at + 2) =~= none + hex_pair(rest[index]));
}

/// GUIDs with the same text are the same.
pub proof fn guid_text_tells_guid(first: Seq<u8>, second: Seq<u8>)
    requires
        first.len() == 16,
        second.len() == 16,
        guid_text(first) == guid_text(second),
    ensures
        first == second,
{
    guid_digits(first);
    guid_digits(second);
    hex_digits_differ(first[0], second[0]);
    hex_digits_differ(first[1], second[1]);
    hex_digits_differ(first[2], second[2]);
    hex_digits_differ(first[3], second[3]);
    hex_digits_differ(first[4], second[4]);
    hex_digits_differ(first[5], second[5]);
    hex_digits_differ(first[6], second[6]);
    hex_digits_differ(first[7], second[7]);
    hex_digits_differ(first[8], second[8]);
    hex_digits_differ(first[9], second[9]);
    hex_digits_differ(first[10], second[10]);
    hex_digits_differ(first[11], second[11]);
    hex_digits_differ(first[12], second[12]);
    hex_digits_differ(first[13], second[13]);
    hex_digits_differ(first[14], second[14]);
    hex_digits_differ(first[15], second[15]);
    assert(first =~= second);
}

/// The type of an EFI system partition is C12A7328-F81F-11D2-BA4B-00A0C93EC93B.
#[verifier::spinoff_prover]
proof fn system_type_is_known(first: u32, second: u16, third: u16, rest: Seq<u8>)
    requires
        rest.len() == 8,
    ensures
        guid_image(first, second, third, rest) == GPT_TYPE_GUID_ESP@ <==> first == 0xc12a_7328 && second
            == 0xf81f && third == 0x11d2 && rest
            == seq![0xbau8, 0x4bu8, 0x00u8, 0xa0u8, 0xc9u8, 0x3eu8, 0xc9u8, 0x3bu8],
{
    let guid = guid_image(first, second, third, rest);
    let known = GPT_TYPE_GUID_ESP@;
    let tail = seq![0xbau8, 0x4bu8, 0x00u8, 0xa0u8, 0xc9u8, 0x3eu8, 0xc9u8, 0x3bu8];
    assert(guid[0] == first % 0x100 && guid[1] == (first / 0x100) % 0x100);
    assert(guid[2] == (first / 0x1_0000) % 0x100 && guid[3] == first / 0x100_0000);
    assert(guid[4] == second % 0x100 && guid[5] == second / 0x100);
    assert(guid[6] == third % 0x100 && guid[7] == third / 0x100);
    assert(guid.skip(8) =~= rest);
    assert(known.skip(8) =~= tail);
    if first == 0xc12a_7328 && second == 0xf81f && third == 0x11d2 && rest == tail {
        assert(guid.take(8) =~= known.take(8));
        assert(guid =~= guid.take(8) + guid.skip(8));
        assert(known =~= known.take(8) + known.skip(8));
    }
}

/// The type of a Linux partition is 0FC63DAF-8483-4772-8E79-3D69D8477DE4.
#[verifier::spinoff_prover]
proof fn linux_type_is_known(first: u32, second: u16, third: u16, rest: Seq<u8>)
    requires
        rest.len() == 8,
    ensures
        guid_image(first, second, third, rest) == GPT_TYPE_GUID_LINUX_FILESYSTEM@ <==> first == 0x0fc6_3daf && second
            == 0x8483 && third == 0x4772 && rest
            == seq![0x8eu8, 0x79u8, 0x3du8, 0x69u8, 0xd8u8, 0x47u8, 0x7du8, 0xe4u8],
{
    let guid = guid_image(first, second, third, rest);
    let known = GPT_TYPE_GUID_LINUX_FILESYSTEM@;
    let tail = seq![0x8eu8, 0x79u8, 0x3du8, 0x69u8, 0xd8u8, 0x47u8, 0x7du8, 0xe4u8];
    assert(guid[0] == first % 0x100 && guid[1] == (first / 0x100) % 0x100);
    assert(guid[2] == (first / 0x1_0000) % 0x100 && guid[3] == first / 0x100_0000);
    assert(guid[4] == second % 0x100 && guid[5] == second / 0x100);
    assert(guid[6] == third % 0x100 && guid[7] == third / 0x100);
    assert(guid.skip(8) =~= rest);
    assert(known.skip(8) =~= tail);
    if first == 0x0fc6_3daf && second == 0x8483 && third == 0x4772 && rest == tail {
        assert(guid.take(8) =~= known.take(8));
        assert(guid =~= guid.take(8) + guid.skip(8));
        assert(known =~= known.take(8) + known.skip(8));
    }
}

/// A partition is an EFI system partition exactly when its type is
/// C12A7328-F81F-11D2-BA4B-00A0C93EC93B. That type and the one of a Linux partition,
/// 0FC63DAF-8483-4772-8E79-3D69D8477DE4, are named, all others are printed.
pub proof fn known_types_have_their_guids(
    entry: GptPartitionEntry,
    first: u32,
    second: u16,
    third: u16,
    rest: Seq<u8>,
)
    requires
        rest.len() == 8,
        entry.partition_type_guid@ == guid_image(first, second, third, rest),
    ensures
        ({
            let system = first == 0xc12a_7328 && second == 0xf81f && third == 0x11d2 && rest
                == seq![0xbau8, 0x4bu8, 0x00u8, 0xa0u8, 0xc9u8, 0x3eu8, 0xc9u8, 0x3bu8];
            let linux = first == 0x0fc6_3daf && second == 0x8483 && third == 0x4772 && rest
                == seq![0x8eu8, 0x79u8, 0x3du8, 0x69u8, 0xd8u8, 0x47u8, 0x7du8, 0xe4u8];
            &&& entry.efi_system() <==> system
            &&& entry.type_text() == if system {
                "ESP".spec_bytes()
            } else if linux {
                "Linux filesystem".spec_bytes()
            } else {
                guid_text(guid_image(first, second, third, rest))
            }
        }),
{
    system_type_is_known(first, second, third, rest);
    linux_type_is_known(first, second, third, rest);
}

} // verus!
