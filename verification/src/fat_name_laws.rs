//! Names that are written to a FAT directory are what is read from it.

use vstd::prelude::*;
use vstd::utf8::*;
use crate::bytes::le16;
use crate::fat::{entry_of, entry_scanned, FatDirectoryEntry, FatListing, FatNamed};
use crate::fat_laws::records_scanned;
use crate::fat_names::{
    before_space, checksum_of, entry_units, long_name_after, long_name_belongs, short_name_text,
    unit_positions, units_text, LongName,
};
use crate::gpt_laws::name_image;
use crate::records::{le16_stored, le32_stored, stored, stored_is_there, stored_parts, stored_whole};
use crate::virtqueue_memory::{le16_bytes, le32_bytes};

verus! {

/// The UTF-16 form of characters.
pub open spec fn utf16_units(text: Seq<char>) -> Seq<u16>
    decreases text.len(),
{
    if text.len() == 0 {
        Seq::empty()
    } else {
        let scalar = text[0] as u32;
        let units = if scalar < 0x1_0000 {
            seq![scalar as u16]
        } else {
            seq![
                (0xd800 + (scalar - 0x1_0000) / 0x400) as u16,
                (0xdc00 + (scalar - 0x1_0000) % 0x400) as u16,
            ]
        };
        units + utf16_units(text.drop_first())
    }
}

/// Whether characters can stand in a long name: no terminator, and not the filler behind it.
pub open spec fn can_be_named(text: Seq<char>) -> bool {
    forall|i: int| 0 <= i < text.len() ==> (#[trigger] text[i]) as u32 != 0 && text[i] as u32 != 0xffff
}

/// Characters that are written in UTF-16 from a place on, up to a terminator, a filler or the
/// end, are read as UTF-8.
#[verifier::spinoff_prover]
#[verifier::rlimit(30)]
pub proof fn written_units_are_read(units: Seq<u16>, from: int, text: Seq<char>)
    requires
        can_be_named(text),
        0 <= from,
        from + utf16_units(text).len() <= units.len(),
        forall|i: int|
            0 <= i < utf16_units(text).len() ==> #[trigger] units[from + i] == utf16_units(text)[i],
        from + utf16_units(text).len() == units.len() || units[from + utf16_units(text).len()] == 0
            || units[from + utf16_units(text).len()] == 0xffff,
    ensures
        units_text(units, from) == Some(encode_utf8(text)),
    decreases text.len(),
{
    let all = utf16_units(text);
    if text.len() == 0 {
        assert(from + all.len() == from);
        assert(encode_utf8(text) =~= Seq::<u8>::empty());
    } else {
        let letter = text[0];
        let scalar = letter as u32;
        let rest = text.drop_first();
        let more = utf16_units(rest);
        let width: int = if scalar < 0x1_0000 {
            1
        } else {
            2
        };
        char_is_scalar(letter);
        assert(all.len() == width + more.len());
        assert(units[from + 0] == all[0]);
        if width == 2 {
            assert(units[from + 1] == all[1]);
        }
        assert forall|i: int| 0 <= i < rest.len() implies (#[trigger] rest[i]) as u32 != 0
            && rest[i] as u32 != 0xffff by {
            assert(rest[i] == text[i + 1]);
        }
        assert(text[0] as u32 != 0);
        assert forall|i: int| 0 <= i < more.len() implies #[trigger] units[from + width + i]
            == more[i] by {
            assert(units[from + (width + i)] == all[width + i]);
        }
        written_units_are_read(units, from + width, rest);
    }
}

/// The eleven bytes of a short name: eight of the name and three of the extension, filled up
/// with spaces.
pub open spec fn padded_name(name: Seq<u8>, extension: Seq<u8>) -> Seq<u8> {
    name + Seq::new((8 - name.len()) as nat, |i: int| 0x20u8) + extension + Seq::new(
        (3 - extension.len()) as nat,
        |i: int| 0x20u8,
    )
}

/// Whether the parts of a short name fit and hold no space.
pub open spec fn short_parts(name: Seq<u8>, extension: Seq<u8>) -> bool {
    &&& 1 <= name.len() <= 8
    &&& extension.len() <= 3
    &&& forall|i: int| 0 <= i < name.len() ==> name[i] != 0x20
    &&& forall|i: int| 0 <= i < extension.len() ==> extension[i] != 0x20
}

/// The bytes up to a place hold no space.
proof fn space_is_found(bytes: Seq<u8>, from: int, end: int, place: int)
    requires
        from <= place <= end,
        forall|i: int| from <= i < place ==> bytes[i] != 0x20,
        place < end ==> bytes[place] == 0x20,
    ensures
        before_space(bytes, from, end) == place - from,
    decreases end - from,
{
    if from < place {
        space_is_found(bytes, from + 1, end, place);
    }
}

/// A name and its extension that are written as a short name are read back with a dot between
/// them, or without where there is no extension. Only a first byte of 5 reads as another.
pub proof fn written_short_name_is_read(entry: Seq<u8>, name: Seq<u8>, extension: Seq<u8>)
    requires
        short_parts(name, extension),
        forall|i: int| 0 <= i < name.len() ==> name[i] != 0x05,
        stored(entry, 0, padded_name(name, extension)),
    ensures
        short_name_text(entry) == if extension.len() == 0 {
            name
        } else {
            name + seq![0x2eu8] + extension
        },
{
    let image = padded_name(name, extension);
    stored_is_there(entry, 0, image);
    assert forall|i: int| 0 <= i < 11 implies entry[i] == image[i] by {
        assert(entry[0 + i] == image[i]);
    }
    space_is_found(entry, 0, 8, name.len() as int);
    space_is_found(entry, 8, 11, (8 + extension.len()) as int);
    assert(Seq::new(
        before_space(entry, 0, 8),
        |i: int| crate::fat_names::stored_name_byte(entry[i]),
    ) =~= name);
    if extension.len() > 0 {
        assert(entry[8] == extension[0]);
        assert(entry.subrange(8, 8 + extension.len() as int) =~= extension);
    } else {
        assert(entry[8] == 0x20 && entry[9] == 0x20 && entry[10] == 0x20);
    }
    assert(short_name_text(entry) =~= if extension.len() == 0 {
        name
    } else {
        name + seq![0x2eu8] + extension
    });
}

/// The record of a file or directory with a short name of eleven bytes: the name, the
/// attributes, times and dates, the high half of the first cluster, more times and dates, its
/// low half, and the size.
#[verifier::opaque]
pub open spec fn short_record(
    name: Seq<u8>,
    entry: FatDirectoryEntry,
    created: Seq<u8>,
    changed: Seq<u8>,
) -> Seq<u8> {
    name + seq![entry.attributes] + created + le16_bytes((entry.first_cluster / 0x1_0000) as u16)
        + changed + le16_bytes((entry.first_cluster % 0x1_0000) as u16) + le32_bytes(
        entry.file_size,
    )
}

#[verifier::spinoff_prover]
#[verifier::rlimit(30)]
proof fn short_record_fields(
    name: Seq<u8>,
    entry: FatDirectoryEntry,
    created: Seq<u8>,
    changed: Seq<u8>,
)
    requires
        name.len() == 11,
        created.len() == 8,
        changed.len() == 4,
    ensures
        ({
            let record = short_record(name, entry, created, changed);
            &&& record.len() == 32
            &&& stored(record, 0, name)
            &&& record.take(11) == name
            &&& record[0] == name[0]
            &&& record[11] == entry.attributes
            &&& entry_of(record) == entry
        }),
{
    reveal(short_record);
    let record = short_record(name, entry, created, changed);
    let high = (entry.first_cluster / 0x1_0000) as u16;
    let low = (entry.first_cluster % 0x1_0000) as u16;
    let p1 = name + seq![entry.attributes];
    let p2 = p1 + created;
    let p3 = p2 + le16_bytes(high);
    let p4 = p3 + changed;
    let p5 = p4 + le16_bytes(low);
    stored_whole(record);
    stored_parts(record, 0, p5, le32_bytes(entry.file_size));
    stored_parts(record, 0, p4, le16_bytes(low));
    stored_parts(record, 0, p3, changed);
    stored_parts(record, 0, p2, le16_bytes(high));
    stored_parts(record, 0, p1, created);
    stored_parts(record, 0, name, seq![entry.attributes]);
    le32_stored(record, 28, entry.file_size);
    le16_stored(record, 26, low);
    le16_stored(record, 20, high);
    assert(record.take(11) =~= name);
    assert(entry.first_cluster == high * 0x1_0000 + low);
}

/// Whether a record with a short name and attributes is that of a file or directory: it is not
/// the end of the directory, not deleted, no part of a long name and no volume label.
pub open spec fn names_file(name: Seq<u8>, attributes: u8) -> bool {
    &&& name[0] != 0x00
    &&& name[0] != 0xe5
    &&& attributes != 0x0f
    &&& (attributes & 0x08) == 0
}

/// A file that is written to a directory with a short name alone is listed by that name, with
/// its attributes, first cluster and size.
pub proof fn written_file_is_listed(
    listing: FatListing,
    name: Seq<u8>,
    extension: Seq<u8>,
    entry: FatDirectoryEntry,
    created: Seq<u8>,
    changed: Seq<u8>,
)
    requires
        listing.end is None,
        !listing.state.active,
        short_parts(name, extension),
        forall|i: int| 0 <= i < name.len() ==> name[i] != 0x05,
        created.len() == 8,
        changed.len() == 4,
        names_file(padded_name(name, extension), entry.attributes),
    ensures
        ({
            let record = short_record(padded_name(name, extension), entry, created, changed);
            let text = if extension.len() == 0 {
                name
            } else {
                name + seq![0x2eu8] + extension
            };
            let after = entry_scanned(listing, record);
            &&& after.entries == listing.entries.push(FatNamed { name: text, entry })
            &&& after.end is None
            &&& !after.state.active
        }),
{
    let padded = padded_name(name, extension);
    short_record_fields(padded, entry, created, changed);
    written_short_name_is_read(
        short_record(padded, entry, created, changed),
        name,
        extension,
    );
}

/// A record that starts with zero ends a directory. A deleted record and a volume label are
/// no entries.
pub proof fn other_records_are_no_entries(listing: FatListing, record: Seq<u8>)
    requires
        listing.end is None,
        record.len() == 32,
    ensures
        record[0] == 0x00 ==> entry_scanned(listing, record).end == Some(
            Ok::<(), crate::fat::FatError>(()),
        ),
        record[0] != 0x00 ==> (record[0] == 0xe5 || (record[11] != 0x0f && (record[11] & 0x08)
            != 0)) ==> entry_scanned(listing, record).end is None && !entry_scanned(
            listing,
            record,
        ).state.active,
        record[0] == 0x00 || record[0] == 0xe5 || record[11] == 0x0f || (record[11] & 0x08) != 0
            ==> entry_scanned(listing, record).entries == listing.entries,
{
}

/// A long-name record: its ordinal, five code units, the mark of such records, the checksum of
/// the short name, six code units, two zeros, and two code units.
#[verifier::opaque]
pub open spec fn long_record(ordinal: u8, units: Seq<u16>, checksum: u8) -> Seq<u8> {
    seq![ordinal] + name_image(units.subrange(0, 5)) + seq![0x0fu8, 0u8, checksum] + name_image(
        units.subrange(5, 11),
    ) + seq![0u8, 0u8] + name_image(units.subrange(11, 13))
}

/// The code units of an image.
proof fn image_units(bytes: Seq<u8>, at: int, units: Seq<u16>)
    requires
        stored(bytes, at, name_image(units)),
    ensures
        name_image(units).len() == 2 * units.len(),
        forall|i: int| 0 <= i < units.len() ==> #[trigger] le16(bytes, at + 2 * i) == units[i],
    decreases units.len(),
{
    if units.len() > 0 {
        let earlier = units.drop_last();
        stored_parts(bytes, at, name_image(earlier), le16_bytes(units.last()));
        image_units(bytes, at, earlier);
        le16_stored(bytes, at + 2 * earlier.len(), units.last());
        assert forall|i: int| 0 <= i < units.len() implies #[trigger] le16(bytes, at + 2 * i)
            == units[i] by {
            if i < earlier.len() {
                assert(earlier[i] == units[i]);
            }
        }
    }
}

proof fn image_length(units: Seq<u16>)
    ensures
        name_image(units).len() == 2 * units.len(),
    decreases units.len(),
{
    if units.len() > 0 {
        image_length(units.drop_last());
    }
}

#[verifier::spinoff_prover]
#[verifier::rlimit(40)]
proof fn long_record_fields(ordinal: u8, units: Seq<u16>, checksum: u8)
    requires
        units.len() == 13,
    ensures
        ({
            let record = long_record(ordinal, units, checksum);
            &&& record.len() == 32
            &&& record[0] == ordinal
            &&& record[11] == 0x0f
            &&& record[13] == checksum
            &&& entry_units(record) == units
        }),
{
    reveal(long_record);
    let record = long_record(ordinal, units, checksum);
    let a = units.subrange(0, 5);
    let b = units.subrange(5, 11);
    let c = units.subrange(11, 13);
    image_length(a);
    image_length(b);
    image_length(c);
    let middle = seq![0x0fu8, 0u8, checksum];
    let p1 = seq![ordinal] + name_image(a);
    let p2 = p1 + middle;
    let p3 = p2 + name_image(b);
    let p4 = p3 + seq![0u8, 0u8];
    stored_whole(record);
    stored_parts(record, 0, p4, name_image(c));
    stored_parts(record, 0, p3, seq![0u8, 0u8]);
    stored_parts(record, 0, p2, name_image(b));
    stored_parts(record, 0, p1, middle);
    stored_parts(record, 0, seq![ordinal], name_image(a));
    stored_is_there(record, 0, seq![ordinal]);
    stored_is_there(record, 11, middle);
    assert(record[0int + 0] == seq![ordinal][0]);
    assert(record[11int + 0] == middle[0]);
    assert(record[11int + 2] == middle[2]);
    image_units(record, 1, a);
    image_units(record, 14, b);
    image_units(record, 28, c);
    let read = entry_units(record);
    assert forall|i: int| 0 <= i < 13 implies read[i] == units[i] by {
        if i < 5 {
            assert(unit_positions()[i] == 1 + 2 * i);
            assert(le16(record, 1 + 2 * i) == a[i]);
        } else if i < 11 {
            assert(unit_positions()[i] == 14 + 2 * (i - 5));
            assert(le16(record, 14 + 2 * (i - 5)) == b[i - 5]);
        } else {
            assert(unit_positions()[i] == 28 + 2 * (i - 11));
            assert(le16(record, 28 + 2 * (i - 11)) == c[i - 11]);
        }
    }
    assert(read =~= units);
}

/// The records of a long name that takes `count` records, from the one with ordinal `from`
/// down to the first. `units` holds 13 code units for each. The record of the last part comes
/// first and is marked.
pub open spec fn long_records(units: Seq<u16>, count: nat, from: nat, checksum: u8) -> Seq<Seq<u8>>
    decreases from,
{
    if from == 0 {
        Seq::empty()
    } else {
        let ordinal: u8 = if from == count {
            (from + 0x40) as u8
        } else {
            from as u8
        };
        let part = units.subrange(13 * (from - 1), 13 * from as int);
        seq![long_record(ordinal, part, checksum)] + long_records(
            units,
            count,
            (from - 1) as nat,
            checksum,
        )
    }
}

/// What is known of a long name before the record with ordinal `from` is read.
spec fn read_down_to(state: LongName, units: Seq<u16>, count: nat, from: nat, checksum: u8) -> bool {
    &&& state.active
    &&& state.max_ordinal == count
    &&& state.checksum == checksum
    &&& state.ordinal_mask == (1u32 << (count as u32)) - (1u32 << (from as u32))
    &&& state.code_units.len() == 260
    &&& forall|i: int|
        13 * from <= i < 13 * count ==> #[trigger] state.code_units[i] == units[i]
    &&& forall|i: int| 13 * count <= i < 260 ==> #[trigger] state.code_units[i] == 0xffff
}

#[verifier::spinoff_prover]
#[verifier::rlimit(40)]
proof fn long_record_is_added(
    state: LongName,
    units: Seq<u16>,
    count: nat,
    from: nat,
    checksum: u8,
)
    requires
        1 <= from <= count <= 20,
        units.len() == 13 * count,
        from < count ==> read_down_to(state, units, count, from, checksum),
    ensures
        ({
            let ordinal: u8 = if from == count {
                (from + 0x40) as u8
            } else {
                from as u8
            };
            let part = units.subrange(13 * (from - 1), 13 * from as int);
            let record = long_record(ordinal, part, checksum);
            &&& record[0] == ordinal
            &&& record[11] == 0x0f
            &&& read_down_to(
                long_name_after(state, record),
                units,
                count,
                (from - 1) as nat,
                checksum,
            )
        }),
{
    let ordinal: u8 = if from == count {
        (from + 0x40) as u8
    } else {
        from as u8
    };
    let part = units.subrange(13 * (from - 1), 13 * from as int);
    let record = long_record(ordinal, part, checksum);
    long_record_fields(ordinal, part, checksum);
    let number = from as u8;
    assert(number <= 20 ==> ((number + 0x40) as u8) & 0x1f == number && ((number + 0x40) as u8) & 0x40
        != 0 && number & 0x1f == number && number & 0x40 == 0) by (bit_vector);
    let c = count as u32;
    let j = from as u32;
    assert(1 <= j <= c <= 20 ==> ((1u32 << c) - (1u32 << j)) as u32 | (1u32 << ((j - 1) as u32))
        == ((1u32 << c) - (1u32 << ((j - 1) as u32))) as u32 && (1u32 << j) <= (1u32 << c) && (1u32
        << ((j - 1) as u32)) <= (1u32 << c)) by (bit_vector);
    assert(0u32 | (1u32 << ((j - 1) as u32)) == 1u32 << ((j - 1) as u32)) by (bit_vector);
    assert(c >= 1 && c <= 20 ==> (1u32 << ((c - 1) as u32)) == ((1u32 << c) - (1u32 << ((c
        - 1) as u32))) as u32) by (bit_vector);
    let after = long_name_after(state, record);
    assert forall|i: int|
        13 * (from - 1) <= i < 13 * count implies #[trigger] after.code_units[i] == units[i] by {
        if i < 13 * from {
            assert(part[i - 13 * (from - 1)] == units[i]);
        }
    }
}

#[verifier::spinoff_prover]
#[verifier::rlimit(30)]
proof fn long_records_are_added(
    listing: FatListing,
    units: Seq<u16>,
    count: nat,
    from: nat,
    checksum: u8,
)
    requires
        listing.end is None,
        from <= count <= 20,
        1 <= count,
        units.len() == 13 * count,
        from < count ==> read_down_to(listing.state, units, count, from, checksum),
    ensures
        ({
            let after = records_scanned(listing, long_records(units, count, from, checksum));
            &&& after.end is None
            &&& after.entries == listing.entries
            &&& read_down_to(after.state, units, count, 0, checksum)
        }),
    decreases from,
{
    if from > 0 {
        let records = long_records(units, count, from, checksum);
        let rest = long_records(units, count, (from - 1) as nat, checksum);
        long_record_is_added(listing.state, units, count, from, checksum);
        assert(records.drop_first() =~= rest);
        let next = entry_scanned(listing, records[0]);
        assert(next.end is None && next.entries == listing.entries);
        long_records_are_added(next, units, count, (from - 1) as nat, checksum);
    }
}

/// The code units of a long name, filled up to whole records: a terminator behind the name
/// where there is room, and fillers behind it.
pub open spec fn padded_units(units: Seq<u16>, count: nat) -> Seq<u16> {
    Seq::new(
        13 * count,
        |i: int|
            if i < units.len() {
                units[i]
            } else if i == units.len() {
                0u16
            } else {
                0xffffu16
            },
    )
}

/// A file that is written to a directory with a long name is listed by that name, with its
/// attributes, first cluster and size, whatever came before it.
#[verifier::spinoff_prover]
#[verifier::rlimit(30)]
pub proof fn written_long_name_is_listed(
    listing: FatListing,
    text: Seq<char>,
    count: nat,
    short: Seq<u8>,
    entry: FatDirectoryEntry,
    created: Seq<u8>,
    changed: Seq<u8>,
)
    requires
        listing.end is None,
        can_be_named(text),
        1 <= count <= 20,
        13 * (count - 1) < utf16_units(text).len() <= 13 * count,
        short.len() == 11,
        created.len() == 8,
        changed.len() == 4,
        names_file(short, entry.attributes),
    ensures
        ({
            let units = padded_units(utf16_units(text), count);
            let records = long_records(units, count, count, checksum_of(short)).push(
                short_record(short, entry, created, changed),
            );
            let after = records_scanned(listing, records);
            &&& after.entries == listing.entries.push(FatNamed { name: encode_utf8(text), entry })
            &&& after.end is None
            &&& !after.state.active
        }),
{
    let name = utf16_units(text);
    let units = padded_units(name, count);
    let front = long_records(units, count, count, checksum_of(short));
    let record = short_record(short, entry, created, changed);
    long_records_are_added(listing, units, count, count, checksum_of(short));
    short_record_fields(short, entry, created, changed);
    let middle = records_scanned(listing, front);
    crate::fat_laws::scanning_joins(listing, front, seq![record]);
    assert(front.push(record) =~= front + seq![record]);
    reveal_with_fuel(records_scanned, 2);
    assert(seq![record].drop_first() =~= Seq::empty());
    let state = middle.state;
    let c = count as u32;
    assert((1u32 << 0u32) == 1) by (bit_vector);
    assert(long_name_belongs(state, record));
    assert forall|i: int| 0 <= i < name.len() implies #[trigger] state.code_units[0 + i] == name[i] by {
        assert(state.code_units[i] == units[i]);
    }
    if name.len() < 260 {
        if name.len() < 13 * count {
            assert(state.code_units[name.len() as int] == units[name.len() as int]);
        } else {
            assert(state.code_units[name.len() as int] == 0xffff);
        }
    }
    written_units_are_read(state.code_units, 0, text);
}

/// A long name counts only for the short name whose checksum it carries, and only when all of
/// its records were there: else the file is listed by its short name.
pub proof fn orphaned_long_name_is_dropped(
    listing: FatListing,
    name: Seq<u8>,
    extension: Seq<u8>,
    entry: FatDirectoryEntry,
    created: Seq<u8>,
    changed: Seq<u8>,
)
    requires
        listing.end is None,
        listing.state.checksum != checksum_of(padded_name(name, extension))
            || listing.state.ordinal_mask != (1u32 << (listing.state.max_ordinal as u32)) - 1,
        short_parts(name, extension),
        forall|i: int| 0 <= i < name.len() ==> name[i] != 0x05,
        created.len() == 8,
        changed.len() == 4,
        names_file(padded_name(name, extension), entry.attributes),
    ensures
        ({
            let record = short_record(padded_name(name, extension), entry, created, changed);
            let text = if extension.len() == 0 {
                name
            } else {
                name + seq![0x2eu8] + extension
            };
            let after = entry_scanned(listing, record);
            &&& after.entries == listing.entries.push(FatNamed { name: text, entry })
            &&& after.end is None
            &&& !after.state.active
        }),
{
    let padded = padded_name(name, extension);
    short_record_fields(padded, entry, created, changed);
    written_short_name_is_read(
        short_record(padded, entry, created, changed),
        name,
        extension,
    );
}

/// A long-name record that continues none, or carries another checksum, ends the long name.
pub proof fn stray_long_record_is_dropped(listing: FatListing, ordinal: u8, units: Seq<u16>, checksum: u8)
    requires
        listing.end is None,
        units.len() == 13,
        1 <= ordinal < 0x20,
        !listing.state.active || listing.state.checksum != checksum || ordinal
            > listing.state.max_ordinal,
    ensures
        ({
            let after = entry_scanned(listing, long_record(ordinal, units, checksum));
            &&& after.entries == listing.entries
            &&& after.end is None
            &&& !after.state.active
        }),
{
    long_record_fields(ordinal, units, checksum);
    assert(ordinal < 0x20 ==> ordinal & 0x40 == 0 && ordinal & 0x1f == ordinal) by (bit_vector);
}

/// A directory is told by one bit of the attributes.
pub proof fn attribute_tells_directory(entry: FatDirectoryEntry)
    ensures
        entry.names_directory() <==> entry.attributes as int / 16 % 2 == 1,
{
    let attributes = entry.attributes;
    assert((attributes & 0x10 != 0) <==> attributes / 16 % 2 == 1) by (bit_vector);
}

/// One step of the checksum loses nothing.
proof fn checksum_step_differs(a: u8, b: u8, x: u8, y: u8)
    requires
        (a != b && x == y) || (a == b && x != y),
    ensures
        (a % 2 * 128 + a / 2 + x) % 256 != (b % 2 * 128 + b / 2 + y) % 256,
{
    let p = a % 2 * 128 + a / 2;
    let q = b % 2 * 128 + b / 2;
    assert(0 <= p < 256 && 0 <= q < 256);
    assert(a != b ==> p != q);
}

/// The checksum of a short name changes with each of its bytes.
pub proof fn checksum_tells_names_apart(name: Seq<u8>, at: int, byte: u8)
    requires
        0 <= at < name.len(),
        name[at] != byte,
    ensures
        checksum_of(name.update(at, byte)) != checksum_of(name),
    decreases name.len(),
{
    let other = name.update(at, byte);
    let last = name.len() - 1;
    if at == last {
        assert(other.drop_last() =~= name.drop_last());
        let sum = checksum_of(name.drop_last());
        checksum_step_differs(sum, sum, name.last(), byte);
    } else {
        assert(other.drop_last() =~= name.drop_last().update(at, byte));
        checksum_tells_names_apart(name.drop_last(), at, byte);
        checksum_step_differs(
            checksum_of(name.drop_last()),
            checksum_of(other.drop_last()),
            name.last(),
            name.last(),
        );
    }
}

} // verus!
