//! Names in FAT directory entries: the short 8.3 form and VFAT long names.

use vstd::prelude::*;
use vstd::utf8::*;
use crate::bytes::{le16, read_le_u16};
use crate::fat::FatError;

verus! {

/// What the long-name entries seen so far add up to.
pub struct LongName {
    /// UTF-16 code units, in the order of the name.
    pub code_units: Seq<u16>,
    /// Highest ordinal announced by the sequence.
    pub max_ordinal: u8,
    /// Bit `n - 1` is set when ordinal `n` has been seen.
    pub ordinal_mask: u32,
    /// Short-name checksum carried by the entries.
    pub checksum: u8,
    /// Whether a sequence is in progress.
    pub active: bool,
}

/// No long name.
pub open spec fn no_long_name() -> LongName {
    LongName {
        code_units: Seq::new(260, |i: int| 0xffffu16),
        max_ordinal: 0,
        ordinal_mask: 0,
        checksum: 0,
        active: false,
    }
}

/// Where the code units of a long-name entry stand.
pub open spec fn unit_positions() -> Seq<int> {
    seq![1, 3, 5, 7, 9, 14, 16, 18, 20, 22, 24, 28, 30]
}

/// The thirteen code units of a long-name entry.
pub open spec fn entry_units(entry: Seq<u8>) -> Seq<u16> {
    Seq::new(13, |i: int| le16(entry, unit_positions()[i]))
}

/// `units` with the thirteen places from `start` on taken by `part`.
pub open spec fn units_replaced(units: Seq<u16>, start: int, part: Seq<u16>) -> Seq<u16> {
    units.take(start) + part + units.skip(start + 13)
}

/// The ordinal of a long-name entry.
pub open spec fn entry_ordinal(entry: Seq<u8>) -> u8 {
    entry[0] & 0x1f
}

/// The sequence to which a long-name entry belongs: the entry that carries the
/// last part of the name comes first and starts a new one.
pub open spec fn joined_sequence(state: LongName, entry: Seq<u8>) -> LongName {
    if (entry[0] & 0x40) != 0 {
        LongName {
            max_ordinal: entry_ordinal(entry),
            checksum: entry[13],
            active: true,
            ..no_long_name()
        }
    } else {
        state
    }
}

/// Why a long-name entry is refused, if it is.
pub open spec fn long_name_refused(state: LongName, entry: Seq<u8>) -> Option<FatError> {
    let ordinal = entry_ordinal(entry);
    let joined = joined_sequence(state, entry);
    if ordinal == 0 || !joined.active || ordinal > joined.max_ordinal || entry[13]
        != joined.checksum {
        Some(FatError::InvalidLongName)
    } else if ordinal > 20 {
        Some(FatError::NameTooLong)
    } else {
        None
    }
}

/// The state after one more long-name entry. An entry that is refused ends the
/// sequence.
pub open spec fn long_name_after(state: LongName, entry: Seq<u8>) -> LongName {
    let ordinal = entry_ordinal(entry);
    let joined = joined_sequence(state, entry);
    if long_name_refused(state, entry) is Some {
        no_long_name()
    } else {
        LongName {
            code_units: units_replaced(joined.code_units, (ordinal - 1) * 13, entry_units(entry)),
            ordinal_mask: joined.ordinal_mask | (1u32 << ((ordinal - 1) as u32)),
            ..joined
        }
    }
}

/// The checksum of a short name that long-name entries carry.
pub open spec fn checksum_of(short_name: Seq<u8>) -> u8
    decreases short_name.len(),
{
    if short_name.len() == 0 {
        0
    } else {
        let sum = checksum_of(short_name.drop_last());
        ((sum % 2 * 128 + sum / 2 + short_name.last()) % 256) as u8
    }
}

/// Whether the long name is complete and belongs to the short entry `entry`.
pub open spec fn long_name_belongs(state: LongName, entry: Seq<u8>) -> bool {
    &&& state.active
    &&& 1 <= state.max_ordinal <= 20
    &&& state.ordinal_mask == (1u32 << (state.max_ordinal as u32)) - 1
    &&& state.checksum == checksum_of(entry.take(11))
}

/// Whether a code unit is the first half of a surrogate pair.
pub open spec fn high_surrogate(unit: u16) -> bool {
    0xd800 <= unit <= 0xdbff
}

/// Whether a code unit is the second half of a surrogate pair.
pub open spec fn low_surrogate(unit: u16) -> bool {
    0xdc00 <= unit <= 0xdfff
}

/// The scalar value that a surrogate pair stands for.
pub open spec fn pair_value(high: u16, low: u16) -> u32 {
    (0x10000 + (high - 0xd800) * 0x400 + (low - 0xdc00)) as u32
}

/// The UTF-8 form of the name from code unit `from` on. A zero or 0xffff ends
/// the name. Nothing where a surrogate stands alone.
pub open spec fn units_text(units: Seq<u16>, from: int) -> Option<Seq<u8>>
    decreases units.len() - from,
{
    if from < 0 || from >= units.len() || units[from] == 0 || units[from] == 0xffff {
        Some(Seq::empty())
    } else if high_surrogate(units[from]) {
        if from + 1 < units.len() && low_surrogate(units[from + 1]) {
            match units_text(units, from + 2) {
                Some(rest) => Some(
                    encode_scalar(pair_value(units[from], units[from + 1])) + rest,
                ),
                None => None,
            }
        } else {
            None
        }
    } else if low_surrogate(units[from]) {
        None
    } else {
        match units_text(units, from + 1) {
            Some(rest) => Some(encode_scalar(units[from] as u32) + rest),
            None => None,
        }
    }
}

/// A decoded long name is UTF-8.
pub proof fn units_text_is_utf8(units: Seq<u16>, from: int)
    ensures
        units_text(units, from) matches Some(text) ==> valid_utf8(text),
    decreases units.len() - from,
{
    if from < 0 || from >= units.len() || units[from] == 0 || units[from] == 0xffff {
    } else if high_surrogate(units[from]) {
        if from + 1 < units.len() && low_surrogate(units[from + 1]) {
            units_text_is_utf8(units, from + 2);
            let value = pair_value(units[from], units[from + 1]);
            scalar_is_utf8(value);
            if let Some(rest) = units_text(units, from + 2) {
                valid_utf8_concat(encode_scalar(value), rest);
            }
        }
    } else if !low_surrogate(units[from]) {
        units_text_is_utf8(units, from + 1);
        scalar_is_utf8(units[from] as u32);
        if let Some(rest) = units_text(units, from + 1) {
            valid_utf8_concat(encode_scalar(units[from] as u32), rest);
        }
    }
}

/// The encoding of one scalar value is UTF-8.
proof fn scalar_is_utf8(value: u32)
    requires
        is_scalar(value),
    ensures
        valid_utf8(encode_scalar(value)),
{
    let letter = value as char;
    let text = seq![letter];
    assert(letter as u32 == value);
    encode_utf8_valid_utf8(text);
    assert(encode_utf8(text) =~= encode_scalar(value)) by {
        assert(text.drop_first() =~= Seq::<char>::empty());
        assert(encode_utf8(text.drop_first()) =~= Seq::<u8>::empty());
    }
}

/// State used to assemble one VFAT long-name sequence.
pub struct LongNameState {
    code_units: [u16; 260],
    max_ordinal: u8,
    ordinal_mask: u32,
    checksum: u8,
    active: bool,
}

impl View for LongNameState {
    type V = LongName;

    closed spec fn view(&self) -> LongName {
        LongName {
            code_units: self.code_units@,
            max_ordinal: self.max_ordinal,
            ordinal_mask: self.ordinal_mask,
            checksum: self.checksum,
            active: self.active,
        }
    }
}

impl LongNameState {
    /// Creates an empty long-name assembly state.
    pub fn new() -> (state: Self)
        ensures
            state@ == no_long_name(),
    {
        let state = LongNameState {
            code_units: [0xffffu16; 260],
            max_ordinal: 0,
            ordinal_mask: 0,
            checksum: 0,
            active: false,
        };
        assert(state.code_units@ =~= no_long_name().code_units);
        state
    }

    /// Clears any partially assembled long-name sequence.
    pub fn clear(&mut self)
        ensures
            final(self)@ == no_long_name(),
    {
        self.code_units = [0xffffu16; 260];
        self.max_ordinal = 0;
        self.ordinal_mask = 0;
        self.checksum = 0;
        self.active = false;
        assert(self.code_units@ =~= no_long_name().code_units);
    }

    /// Appends one raw 32-byte VFAT long-name entry into the assembly state.
    pub fn push(&mut self, entry: &[u8]) -> (outcome: Result<(), FatError>)
        requires
            entry@.len() == 32,
        ensures
            final(self)@ == long_name_after(old(self)@, entry@),
            match outcome {
                Ok(()) => long_name_refused(old(self)@, entry@) is None,
                Err(error) => long_name_refused(old(self)@, entry@) == Some(error),
            },
    {
        let ghost before = self@;
        let ordinal: u8 = entry[0] & 0x1f;
        let is_last = (entry[0] & 0x40) != 0;
        if ordinal == 0 {
            self.clear();
            return Err(FatError::InvalidLongName);
        }
        if is_last {
            self.clear();
            self.active = true;
            self.max_ordinal = ordinal;
            self.checksum = entry[13];
        }
        assert(self@ == joined_sequence(before, entry@));
        if !self.active || ordinal > self.max_ordinal || entry[13] != self.checksum {
            self.clear();
            return Err(FatError::InvalidLongName);
        }
        if ordinal > 20 {
            self.clear();
            return Err(FatError::NameTooLong);
        }
        let ghost joined = self@;
        let start: usize = (ordinal as usize - 1) * 13;
        copy_lfn_code_units(entry, &mut self.code_units, start);
        self.ordinal_mask = self.ordinal_mask | (1u32 << ((ordinal - 1) as u32));
        assert(self@ == long_name_after(before, entry@));
        Ok(())
    }

    /// Returns `true` when the assembled long-name sequence is complete and
    /// belongs to the short entry that ends it.
    pub fn matches_entry(&self, entry: &[u8]) -> (answer: bool)
        requires
            entry@.len() == 32,
        ensures
            answer == long_name_belongs(self@, entry@),
    {
        if !self.active || self.max_ordinal == 0 || self.max_ordinal > 20 {
            return false;
        }
        let bits: u32 = self.max_ordinal as u32;
        assert((1u32 << bits) >= 1) by (bit_vector)
            requires
                bits <= 20,
        ;
        let expected_mask: u32 = (1u32 << bits) - 1;
        assert(entry@.subrange(0, 11) =~= entry@.take(11));
        self.ordinal_mask == expected_mask && self.checksum == short_name_checksum(&entry[0..11])
    }

    /// Decodes the assembled long name into UTF-8.
    pub fn to_utf8(&self) -> (text: Result<Vec<u8>, FatError>)
        ensures
            match text {
                Ok(name) => units_text(self@.code_units, 0) == Some(name@),
                Err(error) => error == FatError::InvalidLongName && units_text(
                    self@.code_units,
                    0,
                ) is None,
            },
    {
        let ghost units = self.code_units@;
        let mut name: Vec<u8> = Vec::new();
        let mut index: usize = 0;
        while index < 260 && self.code_units[index] != 0 && self.code_units[index] != 0xffff
            invariant
                index <= 260,
                units == self.code_units@,
                match units_text(units, index as int) {
                    Some(rest) => units_text(units, 0) == Some(name@ + rest),
                    None => units_text(units, 0) is None,
                },
            decreases 260 - index,
        {
            let unit: u16 = self.code_units[index];
            let ghost so_far = name@;
            let ghost here = index as int;
            if 0xd800 <= unit && unit <= 0xdbff {
                if index + 1 >= 260 {
                    return Err(FatError::InvalidLongName);
                }
                let next: u16 = self.code_units[index + 1];
                if next < 0xdc00 || next > 0xdfff {
                    return Err(FatError::InvalidLongName);
                }
                let value: u32 = 0x10000 + (unit as u32 - 0xd800) * 0x400 + (next as u32 - 0xdc00);
                push_scalar(&mut name, value);
                index += 2;
                proof {
                    if let Some(rest) = units_text(units, here + 2) {
                        assert(so_far + (encode_scalar(value) + rest) =~= name@ + rest);
                    }
                }
            } else if 0xdc00 <= unit && unit <= 0xdfff {
                return Err(FatError::InvalidLongName);
            } else {
                push_scalar(&mut name, unit as u32);
                index += 1;
                proof {
                    if let Some(rest) = units_text(units, here + 1) {
                        assert(so_far + (encode_scalar(unit as u32) + rest) =~= name@ + rest);
                    }
                }
            }
        }
        assert(name@ + Seq::<u8>::empty() =~= name@);
        Ok(name)
    }
}

/// Appends the UTF-8 form of one scalar value.
fn push_scalar(output: &mut Vec<u8>, scalar: u32)
    requires
        is_scalar(scalar),
    ensures
        final(output)@ == old(output)@ + encode_scalar(scalar),
{
    let ghost before = output@;
    assert(scalar & 0x7f <= 0xff && (scalar >> 6) & 0x1f <= 0xff && (scalar >> 12) & 0x0f <= 0xff
        && (scalar >> 18) & 0x7 <= 0xff && scalar & 0x3f <= 0xff && (scalar >> 6) & 0x3f <= 0xff
        && (scalar >> 12) & 0x3f <= 0xff) by (bit_vector);
    if scalar <= 0x7f {
        output.push((scalar & 0x7f) as u8);
    } else if scalar <= 0x7ff {
        output.push(0xc0 | ((scalar >> 6) & 0x1f) as u8);
        output.push(0x80 | (scalar & 0x3f) as u8);
    } else if scalar <= 0xffff {
        output.push(0xe0 | ((scalar >> 12) & 0x0f) as u8);
        output.push(0x80 | ((scalar >> 6) & 0x3f) as u8);
        output.push(0x80 | (scalar & 0x3f) as u8);
    } else {
        output.push(0xf0 | ((scalar >> 18) & 0x7) as u8);
        output.push(0x80 | ((scalar >> 12) & 0x3f) as u8);
        output.push(0x80 | ((scalar >> 6) & 0x3f) as u8);
        output.push(0x80 | (scalar & 0x3f) as u8);
    }
    assert(output@ =~= before + encode_scalar(scalar));
}

/// Copies the UTF-16 code units stored by one VFAT long-name entry to the
/// thirteen places from `start` on.
fn copy_lfn_code_units(entry: &[u8], output: &mut [u16; 260], start: usize)
    requires
        entry@.len() == 32,
        start + 13 <= 260,
    ensures
        final(output)@ == units_replaced(old(output)@, start as int, entry_units(entry@)),
{
    let ghost before = output@;
    let positions: [usize; 13] = [1, 3, 5, 7, 9, 14, 16, 18, 20, 22, 24, 28, 30];
    let mut index: usize = 0;
    while index < 13
        invariant
            index <= 13,
            start + 13 <= 260,
            entry@.len() == 32,
            forall|i: int|
                0 <= i < 13 ==> #[trigger] positions@[i] == unit_positions()[i] && positions@[i]
                    <= 30,
            forall|i: int| 0 <= i < start ==> output@[i] == before[i],
            forall|i: int| start + index <= i < 260 ==> output@[i] == before[i],
            forall|i: int|
                0 <= i < index ==> #[trigger] output@[start + i] == le16(
                    entry@,
                    unit_positions()[i],
                ),
        decreases 13 - index,
    {
        let ghost previous = output@;
        assert(positions@[index as int] == unit_positions()[index as int]);
        let value: u16 = read_le_u16(entry, positions[index]);
        output[start + index] = value;
        assert forall|i: int| 0 <= i < index + 1 implies #[trigger] output@[start + i] == le16(
            entry@,
            unit_positions()[i],
        ) by {
            if i < index {
                assert(previous[start + i] == le16(entry@, unit_positions()[i]));
            }
        }
        index += 1;
    }
    proof {
        let wanted = units_replaced(before, start as int, entry_units(entry@));
        assert forall|i: int| 0 <= i < 260 implies output@[i] == wanted[i] by {
            if start <= i < start + 13 {
                assert(output@[start + (i - start)] == le16(entry@, unit_positions()[i - start]));
            }
        }
        assert(output@ =~= wanted);
    }
}

/// Computes the short-name checksum referenced by a VFAT long name.
pub fn short_name_checksum(short_name: &[u8]) -> (checksum: u8)
    ensures
        checksum == checksum_of(short_name@),
{
    let mut checksum: u8 = 0;
    let mut index: usize = 0;
    while index < short_name.len()
        invariant
            index <= short_name@.len(),
            checksum == checksum_of(short_name@.take(index as int)),
        decreases short_name@.len() - index,
    {
        proof {
            let longer = short_name@.take(index + 1);
            assert(longer.drop_last() =~= short_name@.take(index as int));
            assert(longer.last() == short_name@[index as int]);
        }
        checksum = (checksum % 2 * 128 + checksum / 2).wrapping_add(short_name[index]);
        index += 1;
    }
    assert(short_name@.take(index as int) =~= short_name@);
    checksum
}

/// Number of bytes from `from` up to `end` that come before the first space.
pub open spec fn before_space(bytes: Seq<u8>, from: int, end: int) -> nat
    decreases end - from,
{
    if from >= end || bytes[from] == 0x20 {
        0
    } else {
        1 + before_space(bytes, from + 1, end)
    }
}

/// A stored byte of the name proper. The value 5 stands for 0xe5, which as a
/// first byte would mark the entry as deleted.
pub open spec fn stored_name_byte(byte: u8) -> u8 {
    if byte == 0x05 {
        0xe5
    } else {
        byte
    }
}

/// Whether an entry has an extension.
pub open spec fn has_extension(entry: Seq<u8>) -> bool {
    entry[8] != 0x20 || entry[9] != 0x20 || entry[10] != 0x20
}

/// The printable short name of an entry: the name, and a dot and the extension where
/// there is one, each up to its first space. A dash stands for an empty name.
pub open spec fn short_name_text(entry: Seq<u8>) -> Seq<u8> {
    let name = Seq::new(before_space(entry, 0, 8), |i: int| stored_name_byte(entry[i]));
    if has_extension(entry) {
        name + seq![0x2eu8] + entry.subrange(8, 8 + before_space(entry, 8, 11) as int)
    } else if name.len() == 0 {
        seq![0x2du8]
    } else {
        name
    }
}

/// Decodes one FAT short name into a printable string.
pub fn decode_short_name(entry: &[u8]) -> (name: Vec<u8>)
    requires
        entry@.len() == 32,
    ensures
        name@ == short_name_text(entry@),
{
    let mut name: Vec<u8> = Vec::new();
    let mut index: usize = 0;
    while index < 8 && entry[index] != 0x20
        invariant
            index <= 8,
            entry@.len() == 32,
            before_space(entry@, 0, 8) == index + before_space(entry@, index as int, 8),
            name@ == Seq::new(index as nat, |i: int| stored_name_byte(entry@[i])),
        decreases 8 - index,
    {
        let byte: u8 = entry[index];
        name.push(
            if byte == 0x05 {
                0xe5
            } else {
                byte
            },
        );
        index += 1;
        assert(name@ =~= Seq::new(index as nat, |i: int| stored_name_byte(entry@[i])));
    }
    if entry[8] == 0x20 && entry[9] == 0x20 && entry[10] == 0x20 {
        if name.len() == 0 {
            name.push(0x2d);
        }
        assert(name@ =~= short_name_text(entry@));
        return name;
    }
    name.push(0x2e);
    let ghost head = name@;
    let mut place: usize = 8;
    while place < 11 && entry[place] != 0x20
        invariant
            8 <= place <= 11,
            entry@.len() == 32,
            before_space(entry@, 8, 11) == place - 8 + before_space(entry@, place as int, 11),
            name@ == head + entry@.subrange(8, place as int),
        decreases 11 - place,
    {
        name.push(entry[place]);
        place += 1;
        assert(name@ =~= head + entry@.subrange(8, place as int));
    }
    assert(name@ =~= short_name_text(entry@));
    name
}

} // verus!
