//! Layout of virtqueues in memory that is shared with a device.

use vstd::prelude::*;

verus! {

/// Virtqueue descriptor flag indicating a continuation descriptor.
pub const VIRTQ_DESC_F_NEXT: u16 = 1;

/// Virtqueue descriptor flag indicating that the device writes into the buffer.
pub const VIRTQ_DESC_F_WRITE: u16 = 2;

/// Virtqueue descriptor flag indicating an indirect descriptor table.
pub const VIRTQ_DESC_F_INDIRECT: u16 = 4;

/// Avail ring flag suppressing interrupts from the device.
pub const VIRTQ_AVAIL_F_NO_INTERRUPT: u16 = 1;

/// Used ring flag suppressing notifications to the device.
pub const VIRTQ_USED_F_NO_NOTIFY: u16 = 1;

/// One virtqueue descriptor entry. It takes 16 bytes of queue memory.
#[derive(Clone, Copy, Debug, PartialEq, Eq, Structural)]
pub struct VirtqDescriptor {
    /// Guest-physical address of the buffer described by this entry.
    pub addr: u64,
    /// Length in bytes of the described buffer.
    pub len: u32,
    /// Descriptor flags such as NEXT or WRITE.
    pub flags: u16,
    /// Index of the next descriptor when `VIRTQ_DESC_F_NEXT` is set.
    pub next: u16,
}

/// One element written by the device into the used ring. It takes eight bytes of
/// queue memory.
#[derive(Clone, Copy, Debug, PartialEq, Eq, Structural)]
pub struct VirtqUsedElem {
    /// Head descriptor index returned by the device.
    pub id: u32,
    /// Total number of bytes the device reported as written.
    pub len: u32,
}

/// Computed layout of a packed virtqueue memory block.
#[derive(Clone, Copy, Debug, PartialEq, Eq, Structural)]
pub struct VirtQueueLayout {
    /// Number of descriptors in the queue.
    pub queue_size: u16,
    /// Whether event index fields are included in the rings.
    pub event_idx: bool,
    /// Byte offset of the descriptor table from the queue base.
    pub desc_offset: usize,
    /// Byte offset of the available ring from the queue base.
    pub avail_offset: usize,
    /// Byte offset of the used ring from the queue base.
    pub used_offset: usize,
    /// Total queue memory size in bytes, including alignment padding.
    pub total_size: usize,
}

/// Size in bytes of the event field behind a ring.
pub open spec fn event_size(event_idx: bool) -> int {
    if event_idx {
        2
    } else {
        0
    }
}

/// The layout of a queue: descriptors of 16 bytes, the available ring of a header
/// of four bytes and entries of two, and at the next multiple of four the used ring
/// of a header of four bytes and elements of eight.
pub open spec fn queue_layout(queue_size: u16, event_idx: bool) -> VirtQueueLayout {
    let avail_end = 16 * queue_size + 4 + 2 * queue_size + event_size(event_idx);
    let used_offset = (avail_end + 3) / 4 * 4;
    VirtQueueLayout {
        queue_size,
        event_idx,
        desc_offset: 0,
        avail_offset: (16 * queue_size) as usize,
        used_offset: used_offset as usize,
        total_size: (used_offset + 4 + 8 * queue_size + event_size(event_idx)) as usize,
    }
}

/// Rounds a value up to a multiple of `align`.
pub fn align_up(value: usize, align: usize) -> (rounded: usize)
    requires
        align > 0,
        value + align - 1 <= usize::MAX,
    ensures
        rounded as int == (value + align - 1) / align as int * align,
        value <= rounded < value + align,
        rounded % align == 0,
{
    let sum: usize = value + (align - 1);
    let rest: usize = sum % align;
    proof {
        vstd::arithmetic::div_mod::lemma_fundamental_div_mod(sum as int, align as int);
        vstd::arithmetic::mul::lemma_mul_is_commutative(align as int, sum as int / align as int);
        vstd::arithmetic::div_mod::lemma_mod_multiples_basic(
            sum as int / align as int,
            align as int,
        );
    }
    sum - rest
}

impl VirtQueueLayout {
    /// Computes the in-memory layout of a queue.
    pub fn new(queue_size: u16, event_idx: bool) -> (layout: Self)
        ensures
            layout == queue_layout(queue_size, event_idx),
    {
        let count: usize = queue_size as usize;
        let event: usize = if event_idx {
            2
        } else {
            0
        };
        let avail_offset: usize = 16 * count;
        let avail_size: usize = 4 + count * 2 + event;
        let used_offset = align_up(avail_offset + avail_size, 4);
        let used_size: usize = 4 + count * 8 + event;
        VirtQueueLayout {
            queue_size,
            event_idx,
            desc_offset: 0,
            avail_offset,
            used_offset,
            total_size: used_offset + used_size,
        }
    }
}

/// One virtqueue stored in guest memory: where each of its fields is.
#[derive(Clone, Copy, Debug, PartialEq, Eq, Structural)]
pub struct VirtQueue {
    /// Address of the queue memory block.
    base: usize,
    /// Precomputed offsets and size information for this queue.
    layout: VirtQueueLayout,
}

impl VirtQueue {
    /// Address of the queue memory block.
    pub closed spec fn address(&self) -> usize {
        self.base
    }

    /// Layout of the queue.
    pub closed spec fn shape(&self) -> VirtQueueLayout {
        self.layout
    }

    /// Whether the whole queue lies in the address space.
    pub open spec fn well_formed(&self) -> bool {
        &&& self.address() != 0
        &&& self.shape() == queue_layout(self.shape().queue_size, self.shape().event_idx)
        &&& self.address() + self.shape().total_size <= usize::MAX
    }

    /// Computes the layout needed for a queue with the given parameters.
    pub fn layout(queue_size: u16, event_idx: bool) -> (layout: VirtQueueLayout)
        ensures
            layout == queue_layout(queue_size, event_idx),
    {
        VirtQueueLayout::new(queue_size, event_idx)
    }

    /// Creates a queue accessor from the address of guest memory, which must be
    /// large enough for the layout. There is none at address zero.
    pub fn from_ptr(base: usize, queue_size: u16, event_idx: bool) -> (queue: Option<Self>)
        requires
            base + queue_layout(queue_size, event_idx).total_size <= usize::MAX,
        ensures
            match queue {
                Some(created) => base != 0 && created.well_formed() && created.address() == base
                    && created.shape() == queue_layout(queue_size, event_idx),
                None => base == 0,
            },
    {
        if base == 0 {
            return None;
        }
        Some(VirtQueue { base, layout: VirtQueueLayout::new(queue_size, event_idx) })
    }

    /// Returns the address of the queue memory block.
    pub fn base_address(&self) -> (address: usize)
        ensures
            address == self.address(),
    {
        self.base
    }

    /// Returns the configured queue size.
    pub fn queue_size(&self) -> (size: u16)
        ensures
            size == self.shape().queue_size,
    {
        self.layout.queue_size
    }

    /// Returns whether EVENT_IDX fields are present.
    pub fn event_idx(&self) -> (present: bool)
        ensures
            present == self.shape().event_idx,
    {
        self.layout.event_idx
    }

    /// Returns the total number of bytes required by the queue layout.
    pub fn total_size(&self) -> (size: usize)
        ensures
            size == self.shape().total_size,
    {
        self.layout.total_size
    }

    /// Returns the address of one descriptor.
    pub fn descriptor_ptr(&self, index: u16) -> (address: usize)
        requires
            self.well_formed(),
            index < self.shape().queue_size,
        ensures
            address == self.address() + 16 * index,
    {
        self.base + self.layout.desc_offset + index as usize * 16
    }

    /// Returns the address of the available-ring flags.
    pub fn avail_flags_ptr(&self) -> (address: usize)
        requires
            self.well_formed(),
        ensures
            address == self.address() + self.shape().avail_offset,
    {
        self.base + self.layout.avail_offset
    }

    /// Returns the address of the available-ring index.
    pub fn avail_idx_ptr(&self) -> (address: usize)
        requires
            self.well_formed(),
        ensures
            address == self.address() + self.shape().avail_offset + 2,
    {
        self.base + self.layout.avail_offset + 2
    }

    /// Returns the address of one available-ring entry.
    pub fn avail_ring_ptr(&self, slot: u16) -> (address: usize)
        requires
            self.well_formed(),
            slot < self.shape().queue_size,
        ensures
            address == self.address() + self.shape().avail_offset + 4 + 2 * slot,
    {
        self.base + self.layout.avail_offset + 4 + slot as usize * 2
    }

    /// Returns the address of the used-ring flags.
    pub fn used_flags_ptr(&self) -> (address: usize)
        requires
            self.well_formed(),
        ensures
            address == self.address() + self.shape().used_offset,
    {
        self.base + self.layout.used_offset
    }

    /// Returns the address of the used-ring index.
    pub fn used_idx_ptr(&self) -> (address: usize)
        requires
            self.well_formed(),
        ensures
            address == self.address() + self.shape().used_offset + 2,
    {
        self.base + self.layout.used_offset + 2
    }

    /// Returns the address of one used-ring element.
    pub fn used_ring_ptr(&self, slot: u16) -> (address: usize)
        requires
            self.well_formed(),
            slot < self.shape().queue_size,
        ensures
            address == self.address() + self.shape().used_offset + 4 + 8 * slot,
    {
        self.base + self.layout.used_offset + 4 + slot as usize * 8
    }

    /// Returns the address of the used-event field, which lies behind the available
    /// ring when EVENT_IDX is enabled.
    pub fn used_event_ptr(&self) -> (address: Option<usize>)
        requires
            self.well_formed(),
        ensures
            match address {
                Some(place) => self.shape().event_idx && place == self.address()
                    + self.shape().avail_offset + 4 + 2 * self.shape().queue_size,
                None => !self.shape().event_idx,
            },
    {
        if !self.layout.event_idx {
            return None;
        }
        Some(self.base + self.layout.avail_offset + 4 + self.layout.queue_size as usize * 2)
    }

    /// Returns the address of the available-event field, which lies behind the used
    /// ring when EVENT_IDX is enabled.
    pub fn avail_event_ptr(&self) -> (address: Option<usize>)
        requires
            self.well_formed(),
        ensures
            match address {
                Some(place) => self.shape().event_idx && place == self.address()
                    + self.shape().used_offset + 4 + 8 * self.shape().queue_size,
                None => !self.shape().event_idx,
            },
    {
        if !self.layout.event_idx {
            return None;
        }
        Some(self.base + self.layout.used_offset + 4 + self.layout.queue_size as usize * 8)
    }
}

/// The descriptor table, the available ring and the used ring of a queue follow each
/// other without overlap, the used ring starts at a multiple of four, and fewer than
/// four bytes are lost between the rings.
#[verifier::spinoff_prover]
pub proof fn rings_are_apart(queue_size: u16, event_idx: bool)
    ensures
        ({
            let layout = queue_layout(queue_size, event_idx);
            let avail_end = layout.avail_offset + 4 + 2 * queue_size + event_size(event_idx);
            &&& layout.desc_offset + 16 * queue_size <= layout.avail_offset
            &&& avail_end <= layout.used_offset < avail_end + 4
            &&& layout.used_offset % 4 == 0
            &&& layout.used_offset + 4 + 8 * queue_size + event_size(event_idx)
                == layout.total_size
        }),
{
    let size = queue_size as int;
    let avail_end = 16 * size + 4 + 2 * size + event_size(event_idx);
    assert(avail_end <= (avail_end + 3) / 4 * 4 < avail_end + 4);
    assert((avail_end + 3) / 4 * 4 <= 0x20_0000);
}

} // verus!
