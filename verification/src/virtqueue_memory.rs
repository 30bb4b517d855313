//! Contents of virtqueue memory.

use vstd::prelude::*;
use crate::bytes::{le16, le32, le64, overwritten, read_le_u16, read_le_u32, read_le_u64};
use crate::virtqueue::{VirtQueue, VirtqDescriptor, VirtqUsedElem};

verus! {

/// The two little-endian bytes of `value`.
pub open spec fn le16_bytes(value: u16) -> Seq<u8> {
    seq![(value % 0x100) as u8, (value / 0x100) as u8]
}

/// The four little-endian bytes of `value`.
pub open spec fn le32_bytes(value: u32) -> Seq<u8> {
    le16_bytes((value % 0x1_0000) as u16) + le16_bytes((value / 0x1_0000) as u16)
}

/// The eight little-endian bytes of `value`.
pub open spec fn le64_bytes(value: u64) -> Seq<u8> {
    le32_bytes((value % 0x1_0000_0000) as u32) + le32_bytes((value / 0x1_0000_0000) as u32)
}

/// The descriptor that starts at `at`.
pub open spec fn descriptor_at(memory: Seq<u8>, at: int) -> VirtqDescriptor {
    VirtqDescriptor {
        addr: le64(memory, at),
        len: le32(memory, at + 8),
        flags: le16(memory, at + 12),
        next: le16(memory, at + 14),
    }
}

/// The bytes of a descriptor.
pub open spec fn descriptor_bytes(descriptor: VirtqDescriptor) -> Seq<u8> {
    le64_bytes(descriptor.addr) + le32_bytes(descriptor.len) + le16_bytes(descriptor.flags)
        + le16_bytes(descriptor.next)
}

/// The element of the used ring that starts at `at`.
pub open spec fn used_elem_at(memory: Seq<u8>, at: int) -> VirtqUsedElem {
    VirtqUsedElem { id: le32(memory, at), len: le32(memory, at + 4) }
}

/// The bytes of an element of the used ring.
pub open spec fn used_elem_bytes(elem: VirtqUsedElem) -> Seq<u8> {
    le32_bytes(elem.id) + le32_bytes(elem.len)
}

/// Writes a little-endian 16-bit number.
fn put_u16(memory: &mut [u8], at: usize, value: u16)
    requires
        at + 2 <= old(memory)@.len(),
    ensures
        final(memory)@ == overwritten(old(memory)@, at as int, le16_bytes(value)),
{
    let ghost before = memory@;
    memory[at] = (value % 0x100) as u8;
    memory[at + 1] = (value / 0x100) as u8;
    assert(memory@ =~= overwritten(before, at as int, le16_bytes(value)));
}

/// Writes a little-endian 32-bit number.
fn put_u32(memory: &mut [u8], at: usize, value: u32)
    requires
        at + 4 <= old(memory)@.len(),
    ensures
        final(memory)@ == overwritten(old(memory)@, at as int, le32_bytes(value)),
{
    let ghost before = memory@;
    assert(at + 4 <= memory.len());
    put_u16(memory, at, (value % 0x1_0000) as u16);
    put_u16(memory, at + 2, (value / 0x1_0000) as u16);
    assert(memory@ =~= overwritten(before, at as int, le32_bytes(value)));
}

/// Writes a little-endian 64-bit number.
fn put_u64(memory: &mut [u8], at: usize, value: u64)
    requires
        at + 8 <= old(memory)@.len(),
    ensures
        final(memory)@ == overwritten(old(memory)@, at as int, le64_bytes(value)),
{
    let ghost before = memory@;
    assert(at + 8 <= memory.len());
    put_u32(memory, at, (value % 0x1_0000_0000) as u32);
    put_u32(memory, at + 4, (value / 0x1_0000_0000) as u32);
    assert(memory@ =~= overwritten(before, at as int, le64_bytes(value)));
}

/// The functions take the memory of the queue, from its base address on.
impl VirtQueue {
    /// Reads one descriptor entry from the descriptor table.
    pub fn read_descriptor(&self, memory: &[u8], index: u16) -> (descriptor: VirtqDescriptor)
        requires
            self.well_formed(),
            self.shape().total_size <= memory@.len(),
            index < self.shape().queue_size,
        ensures
            descriptor == descriptor_at(memory@, 16 * index),
    {
        let at = self.descriptor_ptr(index) - self.base_address();
        VirtqDescriptor {
            addr: read_le_u64(memory, at),
            len: read_le_u32(memory, at + 8),
            flags: read_le_u16(memory, at + 12),
            next: read_le_u16(memory, at + 14),
        }
    }

    /// Writes one descriptor entry into the descriptor table.
    pub fn write_descriptor(&self, memory: &mut [u8], index: u16, descriptor: VirtqDescriptor)
        requires
            self.well_formed(),
            self.shape().total_size <= old(memory)@.len(),
            index < self.shape().queue_size,
        ensures
            final(memory)@ == overwritten(
                old(memory)@,
                16 * index,
                descriptor_bytes(descriptor),
            ),
    {
        let ghost before = memory@;
        let at = self.descriptor_ptr(index) - self.base_address();
        put_u64(memory, at, descriptor.addr);
        put_u32(memory, at + 8, descriptor.len);
        put_u16(memory, at + 12, descriptor.flags);
        put_u16(memory, at + 14, descriptor.next);
        assert(memory@ =~= overwritten(before, 16 * index, descriptor_bytes(descriptor)));
    }

    /// Returns the available-ring flags field.
    pub fn avail_flags(&self, memory: &[u8]) -> (value: u16)
        requires
            self.well_formed(),
            self.shape().total_size <= memory@.len(),
        ensures
            value == le16(memory@, self.shape().avail_offset as int),
    {
        read_le_u16(memory, self.avail_flags_ptr() - self.base_address())
    }

    /// Writes the available-ring flags field.
    pub fn set_avail_flags(&self, memory: &mut [u8], value: u16)
        requires
            self.well_formed(),
            self.shape().total_size <= old(memory)@.len(),
        ensures
            final(memory)@ == overwritten(
                old(memory)@,
                self.shape().avail_offset as int,
                le16_bytes(value),
            ),
    {
        put_u16(memory, self.avail_flags_ptr() - self.base_address(), value);
    }

    /// Returns the available-ring index field.
    pub fn avail_idx(&self, memory: &[u8]) -> (value: u16)
        requires
            self.well_formed(),
            self.shape().total_size <= memory@.len(),
        ensures
            value == le16(memory@, self.shape().avail_offset + 2),
    {
        read_le_u16(memory, self.avail_idx_ptr() - self.base_address())
    }

    /// Writes the available-ring index field.
    pub fn set_avail_idx(&self, memory: &mut [u8], value: u16)
        requires
            self.well_formed(),
            self.shape().total_size <= old(memory)@.len(),
        ensures
            final(memory)@ == overwritten(
                old(memory)@,
                self.shape().avail_offset + 2,
                le16_bytes(value),
            ),
    {
        put_u16(memory, self.avail_idx_ptr() - self.base_address(), value);
    }

    /// Returns one available-ring entry.
    pub fn avail_ring(&self, memory: &[u8], slot: u16) -> (value: u16)
        requires
            self.well_formed(),
            self.shape().total_size <= memory@.len(),
            slot < self.shape().queue_size,
        ensures
            value == le16(memory@, self.shape().avail_offset + 4 + 2 * slot),
    {
        read_le_u16(memory, self.avail_ring_ptr(slot) - self.base_address())
    }

    /// Writes one available-ring entry.
    pub fn set_avail_ring(&self, memory: &mut [u8], slot: u16, value: u16)
        requires
            self.well_formed(),
            self.shape().total_size <= old(memory)@.len(),
            slot < self.shape().queue_size,
        ensures
            final(memory)@ == overwritten(
                old(memory)@,
                self.shape().avail_offset + 4 + 2 * slot,
                le16_bytes(value),
            ),
    {
        put_u16(memory, self.avail_ring_ptr(slot) - self.base_address(), value);
    }

    /// Returns the used-ring flags field.
    pub fn used_flags(&self, memory: &[u8]) -> (value: u16)
        requires
            self.well_formed(),
            self.shape().total_size <= memory@.len(),
        ensures
            value == le16(memory@, self.shape().used_offset as int),
    {
        read_le_u16(memory, self.used_flags_ptr() - self.base_address())
    }

    /// Writes the used-ring flags field.
    pub fn set_used_flags(&self, memory: &mut [u8], value: u16)
        requires
            self.well_formed(),
            self.shape().total_size <= old(memory)@.len(),
        ensures
            final(memory)@ == overwritten(
                old(memory)@,
                self.shape().used_offset as int,
                le16_bytes(value),
            ),
    {
        put_u16(memory, self.used_flags_ptr() - self.base_address(), value);
    }

    /// Returns the used-ring index field.
    pub fn used_idx(&self, memory: &[u8]) -> (value: u16)
        requires
            self.well_formed(),
            self.shape().total_size <= memory@.len(),
        ensures
            value == le16(memory@, self.shape().used_offset + 2),
    {
        read_le_u16(memory, self.used_idx_ptr() - self.base_address())
    }

    /// Writes the used-ring index field.
    pub fn set_used_idx(&self, memory: &mut [u8], value: u16)
        requires
            self.well_formed(),
            self.shape().total_size <= old(memory)@.len(),
        ensures
            final(memory)@ == overwritten(
                old(memory)@,
                self.shape().used_offset + 2,
                le16_bytes(value),
            ),
    {
        put_u16(memory, self.used_idx_ptr() - self.base_address(), value);
    }

    /// Returns one used-ring element.
    pub fn used_elem(&self, memory: &[u8], slot: u16) -> (elem: VirtqUsedElem)
        requires
            self.well_formed(),
            self.shape().total_size <= memory@.len(),
            slot < self.shape().queue_size,
        ensures
            elem == used_elem_at(memory@, self.shape().used_offset + 4 + 8 * slot),
    {
        let at = self.used_ring_ptr(slot) - self.base_address();
        VirtqUsedElem { id: read_le_u32(memory, at), len: read_le_u32(memory, at + 4) }
    }

    /// Writes one used-ring element.
    pub fn set_used_elem(&self, memory: &mut [u8], slot: u16, elem: VirtqUsedElem)
        requires
            self.well_formed(),
            self.shape().total_size <= old(memory)@.len(),
            slot < self.shape().queue_size,
        ensures
            final(memory)@ == overwritten(
                old(memory)@,
                self.shape().used_offset + 4 + 8 * slot,
                used_elem_bytes(elem),
            ),
    {
        let ghost before = memory@;
        let at = self.used_ring_ptr(slot) - self.base_address();
        put_u32(memory, at, elem.id);
        put_u32(memory, at + 4, elem.len);
        assert(memory@ =~= overwritten(before, at as int, used_elem_bytes(elem)));
    }

    /// Returns the used-event field, which is there when EVENT_IDX is enabled.
    pub fn used_event(&self, memory: &[u8]) -> (value: Option<u16>)
        requires
            self.well_formed(),
            self.shape().total_size <= memory@.len(),
        ensures
            value == if self.shape().event_idx {
                Some(le16(memory@, self.shape().avail_offset + 4 + 2 * self.shape().queue_size))
            } else {
                None
            },
    {
        match self.used_event_ptr() {
            Some(address) => Some(read_le_u16(memory, address - self.base_address())),
            None => None,
        }
    }

    /// Writes the used-event field, which is there when EVENT_IDX is enabled.
    pub fn set_used_event(&self, memory: &mut [u8], event: u16)
        requires
            self.well_formed(),
            self.shape().total_size <= old(memory)@.len(),
            self.shape().event_idx,
        ensures
            final(memory)@ == overwritten(
                old(memory)@,
                self.shape().avail_offset + 4 + 2 * self.shape().queue_size,
                le16_bytes(event),
            ),
    {
        if let Some(address) = self.used_event_ptr() {
            put_u16(memory, address - self.base_address(), event);
        }
    }

    /// Returns the available-event field, which is there when EVENT_IDX is enabled.
    pub fn avail_event(&self, memory: &[u8]) -> (value: Option<u16>)
        requires
            self.well_formed(),
            self.shape().total_size <= memory@.len(),
        ensures
            value == if self.shape().event_idx {
                Some(le16(memory@, self.shape().used_offset + 4 + 8 * self.shape().queue_size))
            } else {
                None
            },
    {
        match self.avail_event_ptr() {
            Some(address) => Some(read_le_u16(memory, address - self.base_address())),
            None => None,
        }
    }

    /// Writes the available-event field, which is there when EVENT_IDX is enabled.
    pub fn set_avail_event(&self, memory: &mut [u8], event: u16)
        requires
            self.well_formed(),
            self.shape().total_size <= old(memory)@.len(),
            self.shape().event_idx,
        ensures
            final(memory)@ == overwritten(
                old(memory)@,
                self.shape().used_offset + 4 + 8 * self.shape().queue_size,
                le16_bytes(event),
            ),
    {
        if let Some(address) = self.avail_event_ptr() {
            put_u16(memory, address - self.base_address(), event);
        }
    }
}

/// A 16-bit number that was written is read back.
pub proof fn le16_reads_back(memory: Seq<u8>, at: int, value: u16)
    requires
        0 <= at,
        at + 2 <= memory.len(),
    ensures
        le16(overwritten(memory, at, le16_bytes(value)), at) == value,
{
    let after = overwritten(memory, at, le16_bytes(value));
    assert(after[at] == le16_bytes(value)[0]);
    assert(after[at + 1] == le16_bytes(value)[1]);
}

/// The little-endian bytes of a 32-bit number hold it.
proof fn le32_holds(bytes: Seq<u8>, at: int, value: u32)
    requires
        forall|i: int| 0 <= i < 4 ==> bytes[at + i] == #[trigger] le32_bytes(value)[i],
    ensures
        le32(bytes, at) == value,
{
    let low = (value % 0x1_0000) as u16;
    let high = (value / 0x1_0000) as u16;
    assert(le32_bytes(value)[0] == low % 0x100);
    assert(le32_bytes(value)[1] == low / 0x100);
    assert(le32_bytes(value)[2] == high % 0x100);
    assert(le32_bytes(value)[3] == high / 0x100);
    assert(bytes[at + 0] == le32_bytes(value)[0]);
    assert(bytes[at + 1] == le32_bytes(value)[1]);
    assert(bytes[at + 2] == le32_bytes(value)[2]);
    assert(bytes[at + 3] == le32_bytes(value)[3]);
    assert(low == low / 0x100 * 0x100 + low % 0x100);
    assert(high == high / 0x100 * 0x100 + high % 0x100);
    assert(value == high * 0x1_0000 + low);
}

/// A descriptor that was written is read back.
pub proof fn descriptor_reads_back(memory: Seq<u8>, at: int, descriptor: VirtqDescriptor)
    requires
        0 <= at,
        at + 16 <= memory.len(),
    ensures
        descriptor_at(overwritten(memory, at, descriptor_bytes(descriptor)), at) == descriptor,
{
    let bytes = descriptor_bytes(descriptor);
    let after = overwritten(memory, at, bytes);
    let low = (descriptor.addr % 0x1_0000_0000) as u32;
    let high = (descriptor.addr / 0x1_0000_0000) as u32;
    assert forall|i: int| 0 <= i < 4 implies after[at + i] == #[trigger] le32_bytes(low)[i] by {
        assert(bytes[i] == le32_bytes(low)[i]);
    }
    le32_holds(after, at, low);
    assert forall|i: int| 0 <= i < 4 implies after[at + 4 + i] == #[trigger] le32_bytes(
        high,
    )[i] by {
        assert(after[at + (4 + i)] == bytes[4 + i]);
        assert(bytes[4 + i] == le32_bytes(high)[i]);
    }
    le32_holds(after, at + 4, high);
    assert forall|i: int| 0 <= i < 4 implies after[at + 8 + i] == #[trigger] le32_bytes(
        descriptor.len,
    )[i] by {
        assert(after[at + (8 + i)] == bytes[8 + i]);
    }
    le32_holds(after, at + 8, descriptor.len);
    assert(after[at + 12] == bytes[12] && after[at + 13] == bytes[13]);
    assert(after[at + 14] == bytes[14] && after[at + 15] == bytes[15]);
    assert(bytes[12] == descriptor.flags % 0x100 && bytes[13] == descriptor.flags / 0x100);
    assert(bytes[14] == descriptor.next % 0x100 && bytes[15] == descriptor.next / 0x100);
}

/// An element of the used ring that was written is read back.
pub proof fn used_elem_reads_back(memory: Seq<u8>, at: int, elem: VirtqUsedElem)
    requires
        0 <= at,
        at + 8 <= memory.len(),
    ensures
        used_elem_at(overwritten(memory, at, used_elem_bytes(elem)), at) == elem,
{
    let bytes = used_elem_bytes(elem);
    let after = overwritten(memory, at, bytes);
    assert forall|i: int| 0 <= i < 4 implies after[at + i] == #[trigger] le32_bytes(
        elem.id,
    )[i] by {
        assert(bytes[i] == le32_bytes(elem.id)[i]);
    }
    le32_holds(after, at, elem.id);
    assert forall|i: int| 0 <= i < 4 implies after[at + 4 + i] == #[trigger] le32_bytes(
        elem.len,
    )[i] by {
        assert(after[at + (4 + i)] == bytes[4 + i]);
    }
    le32_holds(after, at + 4, elem.len);
}

/// What is written to queue memory changes no field, element or descriptor apart from
/// it.
pub proof fn writing_keeps_the_rest(memory: Seq<u8>, at: int, bytes: Seq<u8>, other: int)
    requires
        0 <= at,
        at + bytes.len() <= memory.len(),
        0 <= other,
    ensures
        other + 2 <= memory.len() && (other + 2 <= at || at + bytes.len() <= other) ==> le16(
            overwritten(memory, at, bytes),
            other,
        ) == le16(memory, other),
        other + 8 <= memory.len() && (other + 8 <= at || at + bytes.len() <= other)
            ==> used_elem_at(overwritten(memory, at, bytes), other) == used_elem_at(memory, other),
        other + 16 <= memory.len() && (other + 16 <= at || at + bytes.len() <= other)
            ==> descriptor_at(overwritten(memory, at, bytes), other) == descriptor_at(
            memory,
            other,
        ),
{
    let after = overwritten(memory, at, bytes);
    assert(forall|i: int|
        0 <= i < memory.len() && (i < at || at + bytes.len() <= i) ==> #[trigger] after[i]
            == memory[i]);
}

} // verus!
