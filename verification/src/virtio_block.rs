//! Polling VirtIO block driver: which registers it writes, what it accepts of a
//! device, and how it asks for sectors. Registers and shared memory are read and
//! written by the caller.

use vstd::prelude::*;
use crate::virtio::{VirtioError, VIRTIO_SECTOR_SIZE};
use crate::virtio_mmio::{
    RegisterWrite, VirtioMmioDevice, MMIO_CONFIG, MMIO_DEVICE_FEATURES, MMIO_DEVICE_FEATURES_SEL,
    MMIO_DEVICE_ID, MMIO_DRIVER_FEATURES, MMIO_DRIVER_FEATURES_SEL, MMIO_MAGIC_VALUE,
    MMIO_QUEUE_DESC_LOW, MMIO_QUEUE_DEVICE_LOW, MMIO_QUEUE_DRIVER_LOW, MMIO_QUEUE_NOTIFY,
    MMIO_QUEUE_NUM, MMIO_QUEUE_NUM_MAX, MMIO_QUEUE_READY, MMIO_QUEUE_SEL, MMIO_STATUS, MMIO_VERSION,
    VIRTIO_DEVICE_ID_BLOCK, VIRTIO_MMIO_MAGIC, VIRTIO_MMIO_VERSION_1,
};
use crate::virtqueue::{
    queue_layout, VirtQueue, VirtqDescriptor, VirtqUsedElem, VIRTQ_DESC_F_NEXT, VIRTQ_DESC_F_WRITE,
};

verus! {

/// Driver status bit indicating that the guest acknowledged the device.
pub const VIRTIO_STATUS_ACKNOWLEDGE: u32 = 1;

/// Driver status bit indicating that a driver is present.
pub const VIRTIO_STATUS_DRIVER: u32 = 2;

/// Driver status bit indicating that the device is fully operational.
pub const VIRTIO_STATUS_DRIVER_OK: u32 = 4;

/// Driver status bit indicating that feature negotiation completed.
pub const VIRTIO_STATUS_FEATURES_OK: u32 = 8;

/// Driver status bit indicating that the device requests a reset.
pub const VIRTIO_STATUS_DEVICE_NEEDS_RESET: u32 = 64;

/// Driver status bit indicating that the driver has failed.
pub const VIRTIO_STATUS_FAILED: u32 = 128;

/// Feature word selector containing `VIRTIO_F_VERSION_1`.
pub const VIRTIO_F_VERSION_1_SELECTOR: u32 = 1;

/// Bit mask for `VIRTIO_F_VERSION_1` within the selected feature word.
pub const VIRTIO_F_VERSION_1_BIT: u32 = 1;

/// VirtIO block request type for device-to-driver reads.
pub const VIRTIO_BLK_REQUEST_TYPE_IN: u32 = 0;

/// Successful completion status byte for a block request.
pub const VIRTIO_BLK_STATUS_OK: u8 = 0;

/// Queue number used for block requests.
pub const VIRTIO_BLOCK_QUEUE: u32 = 0;

/// Queue size provisioned for the polling block driver.
pub const VIRTIO_BLOCK_QUEUE_SIZE: u16 = 4;

/// Maximum completion-poll iterations before one block request times out.
pub const VIRTIO_BLOCK_REQUEST_POLL_LIMIT: usize = 10_000_000;

/// Size in bytes of the memory page that holds the queue.
pub const VIRTIO_BLOCK_QUEUE_BYTES: usize = 4096;

/// One line of the sequence by which a block device is brought up.
#[derive(Clone, Copy, Debug, PartialEq, Eq, Structural)]
pub enum SetupLine {
    /// Read a register that must hold a value of a block device.
    Match { register: usize, value: u32 },
    /// Read the number of sectors from the configuration area.
    Capacity,
    /// Write a value to a register.
    Put { register: usize, value: u32 },
    /// Read the status register.
    ReadStatus,
    /// Write the status register with bits beside those that were read.
    PutStatus { bits: u32 },
    /// Read a register in which a bit must be set.
    RequireBit { register: usize, bit: u32, error: VirtioError },
    /// Read a register that must hold at least a value.
    RequireAtLeast { register: usize, least: u32, error: VirtioError },
    /// Fill the queue memory with zeros.
    ClearQueue,
    /// Nothing more is to be done.
    End,
}

/// Where a ring of the queue is.
pub open spec fn ring_address(queue_base: usize, ring: int) -> u64 {
    let layout = queue_layout(VIRTIO_BLOCK_QUEUE_SIZE, false);
    (queue_base + if ring == 0 {
        layout.desc_offset as int
    } else if ring == 1 {
        layout.avail_offset as int
    } else {
        layout.used_offset as int
    }) as u64
}

/// A line that writes the low or the high half of the address of a ring.
pub open spec fn ring_line(queue_base: usize, ring: int, high: bool) -> SetupLine {
    let register = if ring == 0 {
        MMIO_QUEUE_DESC_LOW
    } else if ring == 1 {
        MMIO_QUEUE_DRIVER_LOW
    } else {
        MMIO_QUEUE_DEVICE_LOW
    };
    let address = ring_address(queue_base, ring);
    if high {
        SetupLine::Put {
            register: (register + 4) as usize,
            value: (address / 0x1_0000_0000) as u32,
        }
    } else {
        SetupLine::Put { register, value: (address % 0x1_0000_0000) as u32 }
    }
}

/// Number of lines before the end.
pub const SETUP_LINES: usize = 31;

/// The lines by which a block device with a queue at `queue_base` is brought up:
/// identify it, read its capacity, reset it, acknowledge it, negotiate version 1 and
/// nothing else, set up queue zero, and declare the driver ready.
pub open spec fn setup_line(queue_base: usize, line: int) -> SetupLine {
    if line == 0 {
        SetupLine::Match { register: MMIO_MAGIC_VALUE, value: VIRTIO_MMIO_MAGIC }
    } else if line == 1 {
        SetupLine::Match { register: MMIO_VERSION, value: VIRTIO_MMIO_VERSION_1 }
    } else if line == 2 {
        SetupLine::Match { register: MMIO_DEVICE_ID, value: VIRTIO_DEVICE_ID_BLOCK }
    } else if line == 3 {
        SetupLine::Capacity
    } else if line == 4 {
        SetupLine::Put { register: MMIO_STATUS, value: 0 }
    } else if line == 5 {
        SetupLine::ReadStatus
    } else if line == 6 {
        SetupLine::PutStatus { bits: VIRTIO_STATUS_ACKNOWLEDGE }
    } else if line == 7 {
        SetupLine::ReadStatus
    } else if line == 8 {
        SetupLine::PutStatus { bits: VIRTIO_STATUS_DRIVER }
    } else if line == 9 {
        SetupLine::Put { register: MMIO_DEVICE_FEATURES_SEL, value: VIRTIO_F_VERSION_1_SELECTOR }
    } else if line == 10 {
        SetupLine::RequireBit {
            register: MMIO_DEVICE_FEATURES,
            bit: VIRTIO_F_VERSION_1_BIT,
            error: VirtioError::MissingVersion1,
        }
    } else if line == 11 {
        SetupLine::Put { register: MMIO_DRIVER_FEATURES_SEL, value: 0 }
    } else if line == 12 {
        SetupLine::Put { register: MMIO_DRIVER_FEATURES, value: 0 }
    } else if line == 13 {
        SetupLine::Put { register: MMIO_DRIVER_FEATURES_SEL, value: VIRTIO_F_VERSION_1_SELECTOR }
    } else if line == 14 {
        SetupLine::Put { register: MMIO_DRIVER_FEATURES, value: VIRTIO_F_VERSION_1_BIT }
    } else if line == 15 {
        SetupLine::ReadStatus
    } else if line == 16 {
        SetupLine::PutStatus { bits: VIRTIO_STATUS_FEATURES_OK }
    } else if line == 17 {
        SetupLine::RequireBit {
            register: MMIO_STATUS,
            bit: VIRTIO_STATUS_FEATURES_OK,
            error: VirtioError::FeatureNegotiationFailed,
        }
    } else if line == 18 {
        SetupLine::Put { register: MMIO_QUEUE_SEL, value: VIRTIO_BLOCK_QUEUE }
    } else if line == 19 {
        SetupLine::RequireAtLeast {
            register: MMIO_QUEUE_NUM_MAX,
            least: VIRTIO_BLOCK_QUEUE_SIZE as u32,
            error: VirtioError::QueueTooSmall,
        }
    } else if line == 20 {
        SetupLine::ClearQueue
    } else if line == 21 {
        SetupLine::Put { register: MMIO_QUEUE_NUM, value: VIRTIO_BLOCK_QUEUE_SIZE as u32 }
    } else if 22 <= line < 28 {
        ring_line(queue_base, (line - 22) / 2, (line - 22) % 2 == 1)
    } else if line == 28 {
        SetupLine::Put { register: MMIO_QUEUE_READY, value: 1 }
    } else if line == 29 {
        SetupLine::ReadStatus
    } else if line == 30 {
        SetupLine::PutStatus { bits: VIRTIO_STATUS_DRIVER_OK }
    } else {
        SetupLine::End
    }
}

/// Why a reply to a line ends the setup.
pub open spec fn line_fault(line: SetupLine, queue_base: usize, reply: u64) -> Option<VirtioError> {
    match line {
        SetupLine::Match { value, .. } => if reply == value {
            None
        } else {
            Some(VirtioError::NotBlockDevice)
        },
        SetupLine::RequireBit { bit, error, .. } => if (reply as u32) & bit == 0 {
            Some(error)
        } else {
            None
        },
        SetupLine::RequireAtLeast { least, error, .. } => if reply < least {
            Some(error)
        } else {
            None
        },
        SetupLine::ClearQueue => if queue_base == 0 {
            Some(VirtioError::QueueCreationFailed)
        } else {
            None
        },
        _ => None,
    }
}

/// What the driver asks for while it is set up.
#[derive(Clone, Copy, Debug, PartialEq, Eq, Structural)]
pub enum SetupRequest {
    /// Read the 32-bit register at an address.
    Read(usize),
    /// Read the 64-bit value of the configuration area at an address.
    ReadConfig(usize),
    /// Write a register.
    Write(RegisterWrite),
    /// Fill the queue memory with zeros.
    ClearQueue,
    /// The driver is ready.
    Ready(VirtioBlockDriver),
    /// The device cannot be driven.
    Failed(VirtioError),
}

/// Minimal polling VirtIO block driver backed by queue `0`.
#[derive(Clone, Copy, Debug, PartialEq, Eq, Structural)]
pub struct VirtioBlockDriver {
    /// Transport handle for the underlying MMIO device.
    pub device: VirtioMmioDevice,
    /// Total number of 512-byte sectors reported by the device.
    pub capacity_sectors: u64,
    /// Address of the configured request queue.
    pub queue_base: usize,
    /// Next available-ring index to publish.
    pub avail_idx: u16,
    /// Last used-ring index consumed by the driver.
    pub used_idx: u16,
}

/// A block driver that is being set up.
#[derive(Clone, Copy, Debug, PartialEq, Eq, Structural)]
pub struct DriverSetup {
    /// Transport of the device.
    pub device: VirtioMmioDevice,
    /// Address of the queue memory.
    pub queue_base: usize,
    /// Line that is being carried out.
    pub line: usize,
    /// Number of sectors that was read.
    pub capacity_sectors: u64,
    /// Status that was read.
    pub status: u32,
    /// Why the setup ended, if it failed.
    pub failure: Option<VirtioError>,
}

impl DriverSetup {
    /// Whether the registers and the queue lie in the address space.
    pub open spec fn well_formed(&self) -> bool {
        &&& self.device.well_formed()
        &&& self.queue_base <= usize::MAX - VIRTIO_BLOCK_QUEUE_BYTES
        &&& self.line <= SETUP_LINES
    }

    /// The setup before its first line.
    pub open spec fn begun(device: VirtioMmioDevice, queue_base: usize) -> Self {
        DriverSetup {
            device,
            queue_base,
            line: 0,
            capacity_sectors: 0,
            status: 0,
            failure: None,
        }
    }

    /// What is to be done for the current line.
    pub open spec fn wanted(&self) -> SetupRequest {
        let base = self.device.address();
        if self.failure is Some {
            SetupRequest::Failed(self.failure->0)
        } else {
            match setup_line(self.queue_base, self.line as int) {
                SetupLine::Match { register, .. } => SetupRequest::Read((base + register) as usize),
                SetupLine::Capacity => SetupRequest::ReadConfig((base + MMIO_CONFIG) as usize),
                SetupLine::Put { register, value } => SetupRequest::Write(
                    RegisterWrite { address: (base + register) as usize, value },
                ),
                SetupLine::ReadStatus => SetupRequest::Read((base + MMIO_STATUS) as usize),
                SetupLine::PutStatus { bits } => SetupRequest::Write(
                    RegisterWrite {
                        address: (base + MMIO_STATUS) as usize,
                        value: self.status | bits,
                    },
                ),
                SetupLine::RequireBit { register, .. } => SetupRequest::Read(
                    (base + register) as usize,
                ),
                SetupLine::RequireAtLeast { register, .. } => SetupRequest::Read(
                    (base + register) as usize,
                ),
                SetupLine::ClearQueue => SetupRequest::ClearQueue,
                SetupLine::End => SetupRequest::Ready(
                    VirtioBlockDriver {
                        device: self.device,
                        capacity_sectors: self.capacity_sectors,
                        queue_base: self.queue_base,
                        avail_idx: 0,
                        used_idx: 0,
                    },
                ),
            }
        }
    }

    /// The setup after a reply to the current line. A write is replied to by any
    /// value.
    pub open spec fn answered(&self, reply: u64) -> Self {
        let line = setup_line(self.queue_base, self.line as int);
        let fault = line_fault(line, self.queue_base, reply);
        if self.failure is Some || line is End {
            *self
        } else if fault is Some {
            DriverSetup { failure: fault, ..*self }
        } else {
            DriverSetup {
                line: (self.line + 1) as usize,
                capacity_sectors: if line is Capacity {
                    reply
                } else {
                    self.capacity_sectors
                },
                status: if line is ReadStatus {
                    reply as u32
                } else {
                    self.status
                },
                ..*self
            }
        }
    }

    /// Starts the setup of a block device whose queue memory is at `queue_base`.
    pub fn new(device: VirtioMmioDevice, queue_base: usize) -> (setup: Self)
        requires
            device.well_formed(),
            queue_base <= usize::MAX - VIRTIO_BLOCK_QUEUE_BYTES,
        ensures
            setup.well_formed(),
            setup == DriverSetup::begun(device, queue_base),
    {
        DriverSetup { device, queue_base, line: 0, capacity_sectors: 0, status: 0, failure: None }
    }

    /// Returns what is to be done next.
    pub fn request(&self) -> (request: SetupRequest)
        requires
            self.well_formed(),
        ensures
            request == self.wanted(),
    {
        if let Some(error) = self.failure {
            return SetupRequest::Failed(error);
        }
        match current_line(self.queue_base, self.line) {
            SetupLine::Match { register, .. } => SetupRequest::Read(
                self.device.register_ptr(register),
            ),
            SetupLine::Capacity => SetupRequest::ReadConfig(self.device.config_byte(0)),
            SetupLine::Put { register, value } => SetupRequest::Write(
                self.device.write_reg(register, value),
            ),
            SetupLine::ReadStatus => SetupRequest::Read(self.device.status()),
            SetupLine::PutStatus { bits } => SetupRequest::Write(
                self.device.add_status(self.status, bits),
            ),
            SetupLine::RequireBit { register, .. } => SetupRequest::Read(
                self.device.register_ptr(register),
            ),
            SetupLine::RequireAtLeast { register, .. } => SetupRequest::Read(
                self.device.register_ptr(register),
            ),
            SetupLine::ClearQueue => SetupRequest::ClearQueue,
            SetupLine::End => SetupRequest::Ready(
                VirtioBlockDriver {
                    device: self.device,
                    capacity_sectors: self.capacity_sectors,
                    queue_base: self.queue_base,
                    avail_idx: 0,
                    used_idx: 0,
                },
            ),
        }
    }

    /// Takes the reply to the last request: the value of a register or of the
    /// configuration area, and anything for a write.
    pub fn answer(&mut self, reply: u64)
        requires
            old(self).well_formed(),
        ensures
            final(self).well_formed(),
            *final(self) == old(self).answered(reply),
    {
        if self.failure.is_some() {
            return;
        }
        let fault: Option<VirtioError> = match current_line(self.queue_base, self.line) {
            SetupLine::End => return,
            SetupLine::Match { value, .. } => if reply == value as u64 {
                None
            } else {
                Some(VirtioError::NotBlockDevice)
            },
            SetupLine::RequireBit { bit, error, .. } => if (reply as u32) & bit == 0 {
                Some(error)
            } else {
                None
            },
            SetupLine::RequireAtLeast { least, error, .. } => if reply < least as u64 {
                Some(error)
            } else {
                None
            },
            SetupLine::ClearQueue => match VirtQueue::from_ptr(
                self.queue_base,
                VIRTIO_BLOCK_QUEUE_SIZE,
                false,
            ) {
                Some(_) => None,
                None => Some(VirtioError::QueueCreationFailed),
            },
            SetupLine::Capacity => {
                self.capacity_sectors = reply;
                None
            },
            SetupLine::ReadStatus => {
                self.status = reply as u32;
                None
            },
            SetupLine::Put { .. } => None,
            SetupLine::PutStatus { .. } => None,
        };
        if fault.is_some() {
            self.failure = fault;
        } else {
            self.line = self.line + 1;
        }
    }
}

/// Returns the current line of the setup.
fn current_line(queue_base: usize, line: usize) -> (current: SetupLine)
    requires
        queue_base <= usize::MAX - VIRTIO_BLOCK_QUEUE_BYTES,
    ensures
        current == setup_line(queue_base, line as int),
        current matches SetupLine::Put { register, .. } ==> register < 0x1000,
        current matches SetupLine::Match { register, .. } ==> register < 0x1000,
        current matches SetupLine::RequireBit { register, .. } ==> register < 0x1000,
        current matches SetupLine::RequireAtLeast { register, .. } ==> register < 0x1000,
        current is End <==> line >= SETUP_LINES,
{
    match line {
        0 => SetupLine::Match { register: MMIO_MAGIC_VALUE, value: VIRTIO_MMIO_MAGIC },
        1 => SetupLine::Match { register: MMIO_VERSION, value: VIRTIO_MMIO_VERSION_1 },
        2 => SetupLine::Match { register: MMIO_DEVICE_ID, value: VIRTIO_DEVICE_ID_BLOCK },
        3 => SetupLine::Capacity,
        4 => SetupLine::Put { register: MMIO_STATUS, value: 0 },
        5 => SetupLine::ReadStatus,
        6 => SetupLine::PutStatus { bits: VIRTIO_STATUS_ACKNOWLEDGE },
        7 => SetupLine::ReadStatus,
        8 => SetupLine::PutStatus { bits: VIRTIO_STATUS_DRIVER },
        9 => SetupLine::Put {
            register: MMIO_DEVICE_FEATURES_SEL,
            value: VIRTIO_F_VERSION_1_SELECTOR,
        },
        10 => SetupLine::RequireBit {
            register: MMIO_DEVICE_FEATURES,
            bit: VIRTIO_F_VERSION_1_BIT,
            error: VirtioError::MissingVersion1,
        },
        11 => SetupLine::Put { register: MMIO_DRIVER_FEATURES_SEL, value: 0 },
        12 => SetupLine::Put { register: MMIO_DRIVER_FEATURES, value: 0 },
        13 => SetupLine::Put {
            register: MMIO_DRIVER_FEATURES_SEL,
            value: VIRTIO_F_VERSION_1_SELECTOR,
        },
        14 => SetupLine::Put { register: MMIO_DRIVER_FEATURES, value: VIRTIO_F_VERSION_1_BIT },
        15 => SetupLine::ReadStatus,
        16 => SetupLine::PutStatus { bits: VIRTIO_STATUS_FEATURES_OK },
        17 => SetupLine::RequireBit {
            register: MMIO_STATUS,
            bit: VIRTIO_STATUS_FEATURES_OK,
            error: VirtioError::FeatureNegotiationFailed,
        },
        18 => SetupLine::Put { register: MMIO_QUEUE_SEL, value: VIRTIO_BLOCK_QUEUE },
        19 => SetupLine::RequireAtLeast {
            register: MMIO_QUEUE_NUM_MAX,
            least: VIRTIO_BLOCK_QUEUE_SIZE as u32,
            error: VirtioError::QueueTooSmall,
        },
        20 => SetupLine::ClearQueue,
        21 => SetupLine::Put { register: MMIO_QUEUE_NUM, value: VIRTIO_BLOCK_QUEUE_SIZE as u32 },
        22 => current_ring_line(queue_base, 0, false),
        23 => current_ring_line(queue_base, 0, true),
        24 => current_ring_line(queue_base, 1, false),
        25 => current_ring_line(queue_base, 1, true),
        26 => current_ring_line(queue_base, 2, false),
        27 => current_ring_line(queue_base, 2, true),
        28 => SetupLine::Put { register: MMIO_QUEUE_READY, value: 1 },
        29 => SetupLine::ReadStatus,
        30 => SetupLine::PutStatus { bits: VIRTIO_STATUS_DRIVER_OK },
        _ => SetupLine::End,
    }
}

/// Returns the line that writes one half of the address of a ring.
fn current_ring_line(queue_base: usize, ring: usize, high: bool) -> (line: SetupLine)
    requires
        queue_base <= usize::MAX - VIRTIO_BLOCK_QUEUE_BYTES,
    ensures
        line == ring_line(queue_base, ring as int, high),
        line matches SetupLine::Put { register, .. } && register < 0x1000,
{
    let layout = VirtQueue::layout(VIRTIO_BLOCK_QUEUE_SIZE, false);
    let (register, offset) = if ring == 0 {
        (MMIO_QUEUE_DESC_LOW, layout.desc_offset)
    } else if ring == 1 {
        (MMIO_QUEUE_DRIVER_LOW, layout.avail_offset)
    } else {
        (MMIO_QUEUE_DEVICE_LOW, layout.used_offset)
    };
    let address: u64 = (queue_base + offset) as u64;
    if high {
        SetupLine::Put { register: register + 4, value: (address / 0x1_0000_0000) as u32 }
    } else {
        SetupLine::Put { register, value: (address % 0x1_0000_0000) as u32 }
    }
}

/// The setup after all of the replies, in turn.
pub open spec fn setup_after(setup: DriverSetup, replies: Seq<u64>) -> DriverSetup
    decreases replies.len(),
{
    if replies.len() == 0 {
        setup
    } else {
        setup_after(setup, replies.drop_last()).answered(replies.last())
    }
}

/// A setup passes a line only when the reply to it is in order: after as many replies
/// as there are lines the driver is ready exactly when no reply had a fault, and it
/// then tells the capacity that the device replied.
pub proof fn ready_when_replies_are_in_order(
    device: VirtioMmioDevice,
    queue_base: usize,
    replies: Seq<u64>,
)
    requires
        replies.len() <= SETUP_LINES,
    ensures
        ({
            let setup = setup_after(DriverSetup::begun(device, queue_base), replies);
            let in_order = forall|i: int|
                0 <= i < replies.len() ==> line_fault(
                    setup_line(queue_base, i),
                    queue_base,
                    #[trigger] replies[i],
                ) is None;
            &&& setup.device == device
            &&& setup.queue_base == queue_base
            &&& setup.failure is None <==> in_order
            &&& in_order ==> setup.line == replies.len()
            &&& in_order && replies.len() > 3 ==> setup.capacity_sectors == replies[3]
            &&& setup.wanted() is Ready <==> in_order && replies.len() == SETUP_LINES
            &&& setup.wanted() matches SetupRequest::Ready(driver) ==> driver.idle()
                && driver.queue_base != 0
        }),
    decreases replies.len(),
{
    if replies.len() == SETUP_LINES {
        assert(line_fault(setup_line(queue_base, 20), queue_base, replies[20]) is None
            <==> queue_base != 0);
    }
    if replies.len() > 0 {
        let earlier = replies.drop_last();
        ready_when_replies_are_in_order(device, queue_base, earlier);
        let before = setup_after(DriverSetup::begun(device, queue_base), earlier);
        let setup = setup_after(DriverSetup::begun(device, queue_base), replies);
        let last = replies.len() - 1;
        assert(setup == before.answered(replies[last]));
        assert forall|i: int| 0 <= i < last implies earlier[i] == #[trigger] replies[i] by {}
        if setup.failure is None {
            assert(before.failure is None);
            assert forall|i: int| 0 <= i < replies.len() implies line_fault(
                setup_line(queue_base, i),
                queue_base,
                #[trigger] replies[i],
            ) is None by {
                if i < last {
                    assert(earlier[i] == replies[i]);
                }
            }
        } else if before.failure is Some {
            let i = choose|i: int|
                0 <= i < last && !(line_fault(
                    setup_line(queue_base, i),
                    queue_base,
                    #[trigger] earlier[i],
                ) is None);
            assert(replies[i] == earlier[i]);
        } else {
            assert(line_fault(setup_line(queue_base, last), queue_base, replies[last]) is Some);
        }
    }
}

/// Header placed at the front of each VirtIO block request. It takes 16 bytes.
#[derive(Clone, Copy, Debug, PartialEq, Eq, Structural)]
pub struct VirtioBlkReqHeader {
    /// VirtIO block request operation code.
    pub request_type: u32,
    /// Reserved field that must be zero.
    pub reserved: u32,
    /// Starting sector targeted by the request.
    pub sector: u64,
}

/// Where the parts of a request are in memory that is shared with the device.
#[derive(Clone, Copy, Debug, PartialEq, Eq, Structural)]
pub struct RequestPlaces {
    /// Address of the request header.
    pub header: u64,
    /// Address of the buffer that the device fills.
    pub buffer: u64,
    /// Address of the status byte.
    pub status: u64,
}

/// What is written to shared memory to ask for sectors, in this order: the header,
/// the status byte `0xff`, the descriptors, the head of the chain in the slot of the
/// available ring, and then the index of the ring.
#[derive(Clone, Copy, Debug, PartialEq, Eq, Structural)]
pub struct ReadRequest {
    /// Request header.
    pub header: VirtioBlkReqHeader,
    /// Descriptor of the header.
    pub first: VirtqDescriptor,
    /// Descriptor of the buffer.
    pub second: VirtqDescriptor,
    /// Descriptor of the status byte.
    pub third: VirtqDescriptor,
    /// Slot of the available ring.
    pub ring_slot: u16,
    /// Index of the available ring that publishes the request.
    pub avail_idx: u16,
}

/// What polling for the end of a request comes to.
#[derive(Clone, Copy, Debug, PartialEq, Eq, Structural)]
pub enum PollStep {
    /// The device has not finished.
    Wait,
    /// The device has finished.
    Finished,
    /// The device has not finished in time.
    TimedOut,
}

/// A ring index after one more entry.
pub open spec fn next_index(index: u16) -> u16 {
    if index == u16::MAX {
        0
    } else {
        (index + 1) as u16
    }
}

/// Whether a buffer holds a whole number of sectors that one request can ask for.
pub open spec fn buffer_fits(buffer_len: usize) -> bool {
    0 < buffer_len <= u32::MAX && buffer_len % 512 == 0
}

/// The request for sectors into a buffer: a chain of three descriptors, of which the
/// device reads the first and writes the others.
pub open spec fn request_for(
    driver: VirtioBlockDriver,
    sector: u64,
    buffer_len: usize,
    places: RequestPlaces,
) -> ReadRequest {
    ReadRequest {
        header: VirtioBlkReqHeader {
            request_type: VIRTIO_BLK_REQUEST_TYPE_IN,
            reserved: 0,
            sector,
        },
        first: VirtqDescriptor { addr: places.header, len: 16, flags: VIRTQ_DESC_F_NEXT, next: 1 },
        second: VirtqDescriptor {
            addr: places.buffer,
            len: buffer_len as u32,
            flags: 3,
            next: 2,
        },
        third: VirtqDescriptor { addr: places.status, len: 1, flags: VIRTQ_DESC_F_WRITE, next: 0 },
        ring_slot: driver.avail_idx % VIRTIO_BLOCK_QUEUE_SIZE,
        avail_idx: next_index(driver.avail_idx),
    }
}

impl VirtioBlockDriver {
    /// Whether the registers and the queue lie in the address space.
    pub open spec fn well_formed(&self) -> bool {
        &&& self.device.well_formed()
        &&& 0 < self.queue_base <= usize::MAX - VIRTIO_BLOCK_QUEUE_BYTES
    }

    /// Whether no request is under way.
    pub open spec fn idle(&self) -> bool {
        self.avail_idx == self.used_idx
    }

    /// The driver after a request was published.
    pub open spec fn asked(&self) -> Self {
        VirtioBlockDriver { avail_idx: next_index(self.avail_idx), ..*self }
    }

    /// The driver after an element of the used ring was taken.
    pub open spec fn taken(&self) -> Self {
        VirtioBlockDriver { used_idx: next_index(self.used_idx), ..*self }
    }

    /// Returns the total number of 512-byte sectors exposed by the device.
    pub fn sector_count(&self) -> (count: u64)
        ensures
            count == self.capacity_sectors,
    {
        self.capacity_sectors
    }

    /// Prepares the request to read contiguous sectors into a buffer.
    pub fn begin_read(&mut self, sector: u64, buffer_len: usize, places: RequestPlaces) -> (request:
        Result<ReadRequest, VirtioError>)
        ensures
            match request {
                Ok(prepared) => buffer_fits(buffer_len) && prepared == request_for(
                    *old(self),
                    sector,
                    buffer_len,
                    places,
                ) && *final(self) == old(self).asked(),
                Err(error) => !buffer_fits(buffer_len) && error == VirtioError::InvalidBufferLength
                    && *final(self) == *old(self),
            },
    {
        if buffer_len == 0 || buffer_len % VIRTIO_SECTOR_SIZE != 0 {
            return Err(VirtioError::InvalidBufferLength);
        }
        if buffer_len as u64 > u32::MAX as u64 {
            return Err(VirtioError::InvalidBufferLength);
        }
        let ring_slot: u16 = self.avail_idx % VIRTIO_BLOCK_QUEUE_SIZE;
        self.avail_idx = self.avail_idx.wrapping_add(1);
        assert(VIRTQ_DESC_F_WRITE | VIRTQ_DESC_F_NEXT == 3) by {
            assert(2u16 | 1u16 == 3) by (bit_vector);
        }
        Ok(
            ReadRequest {
                header: VirtioBlkReqHeader {
                    request_type: VIRTIO_BLK_REQUEST_TYPE_IN,
                    reserved: 0,
                    sector,
                },
                first: VirtqDescriptor {
                    addr: places.header,
                    len: 16,
                    flags: VIRTQ_DESC_F_NEXT,
                    next: 1,
                },
                second: VirtqDescriptor {
                    addr: places.buffer,
                    len: buffer_len as u32,
                    flags: VIRTQ_DESC_F_WRITE | VIRTQ_DESC_F_NEXT,
                    next: 2,
                },
                third: VirtqDescriptor {
                    addr: places.status,
                    len: 1,
                    flags: VIRTQ_DESC_F_WRITE,
                    next: 0,
                },
                ring_slot,
                avail_idx: self.avail_idx,
            },
        )
    }

    /// Judges the index of the used ring that was read after `spins` reads without
    /// an end of the request.
    pub fn poll(&self, used_idx: u16, spins: usize) -> (step: PollStep)
        ensures
            step == if used_idx != self.used_idx {
                PollStep::Finished
            } else if spins >= VIRTIO_BLOCK_REQUEST_POLL_LIMIT {
                PollStep::TimedOut
            } else {
                PollStep::Wait
            },
    {
        if used_idx != self.used_idx {
            PollStep::Finished
        } else if spins >= VIRTIO_BLOCK_REQUEST_POLL_LIMIT {
            PollStep::TimedOut
        } else {
            PollStep::Wait
        }
    }

    /// Returns the slot of the used ring in which the device reports the end of the
    /// request.
    pub fn used_slot(&self) -> (slot: u16)
        ensures
            slot == self.used_idx % VIRTIO_BLOCK_QUEUE_SIZE,
    {
        self.used_idx % VIRTIO_BLOCK_QUEUE_SIZE
    }

    /// Takes an element of the used ring, which must name the head of the chain.
    pub fn take_used(&mut self, element: VirtqUsedElem) -> (outcome: Result<(), VirtioError>)
        ensures
            match outcome {
                Ok(()) => element.id == 0 && *final(self) == old(self).taken(),
                Err(error) => element.id != 0 && error == VirtioError::UnexpectedUsedId(element.id)
                    && *final(self) == *old(self),
            },
    {
        if element.id != 0 {
            return Err(VirtioError::UnexpectedUsedId(element.id));
        }
        self.used_idx = self.used_idx.wrapping_add(1);
        Ok(())
    }

    /// Judges the status byte that the device wrote.
    pub fn read_outcome(status: u8) -> (outcome: Result<(), VirtioError>)
        ensures
            match outcome {
                Ok(()) => status == VIRTIO_BLK_STATUS_OK,
                Err(error) => status != VIRTIO_BLK_STATUS_OK && error
                    == VirtioError::BlockRequestFailed(status),
            },
    {
        if status == VIRTIO_BLK_STATUS_OK {
            Ok(())
        } else {
            Err(VirtioError::BlockRequestFailed(status))
        }
    }
}

/// What a read of sectors asks for.
#[derive(Clone, Copy, Debug, PartialEq, Eq)]
pub enum ReadAction {
    /// Write the request header at an address.
    WriteHeader(u64, VirtioBlkReqHeader),
    /// Write the status byte at an address.
    WriteStatus(u64, u8),
    /// Write a descriptor at an address.
    WriteDescriptor(usize, VirtqDescriptor),
    /// Write a 16-bit field of a ring at an address.
    WriteRing(usize, u16),
    /// Keep the accesses before from passing those behind.
    Fence,
    /// Write a register.
    Notify(RegisterWrite),
    /// Read the 16-bit index of the used ring at an address.
    ReadUsedIdx(usize),
    /// Read the head descriptor index of the element of the used ring at an address.
    ReadUsedId(usize),
    /// Read the status byte at an address.
    ReadStatus(u64),
    /// The read has ended.
    Done(Result<(), VirtioError>),
}

/// One step of a read of sectors.
#[derive(Clone, Copy, Debug, PartialEq, Eq, Structural)]
pub enum ReadStage {
    /// Write the request header.
    Header,
    /// Write a status byte that no device writes.
    Status,
    /// Write the descriptor of the header.
    First,
    /// Write the descriptor of the buffer.
    Second,
    /// Write the descriptor of the status byte.
    Third,
    /// Write the head of the chain into the available ring.
    Ring,
    /// Order the ring entry before the index.
    RingFence,
    /// Publish the request.
    Index,
    /// Order the index before the notification.
    IndexFence,
    /// Notify the device.
    Notify,
    /// Wait for the end of the request.
    Poll,
    /// Order the index before what it publishes.
    UsedFence,
    /// Read the used element.
    Used,
    /// Read the status byte.
    Outcome,
    /// The read has ended.
    Ended,
}

/// The step behind a step.
pub open spec fn stage_behind(stage: ReadStage) -> ReadStage {
    match stage {
        ReadStage::Header => ReadStage::Status,
        ReadStage::Status => ReadStage::First,
        ReadStage::First => ReadStage::Second,
        ReadStage::Second => ReadStage::Third,
        ReadStage::Third => ReadStage::Ring,
        ReadStage::Ring => ReadStage::RingFence,
        ReadStage::RingFence => ReadStage::Index,
        ReadStage::Index => ReadStage::IndexFence,
        ReadStage::IndexFence => ReadStage::Notify,
        ReadStage::Notify => ReadStage::Poll,
        ReadStage::Poll => ReadStage::UsedFence,
        ReadStage::UsedFence => ReadStage::Used,
        ReadStage::Used => ReadStage::Outcome,
        ReadStage::Outcome => ReadStage::Ended,
        ReadStage::Ended => ReadStage::Ended,
    }
}

/// A read of sectors that is under way.
#[derive(Clone, Copy, Debug, PartialEq, Eq)]
pub struct BlockRead {
    /// Driver that carries out the read.
    pub driver: VirtioBlockDriver,
    /// What is asked for.
    pub request: ReadRequest,
    /// Where the parts of the request are.
    pub places: RequestPlaces,
    /// Current step.
    pub stage: ReadStage,
    /// Reads of the used index that found the request unfinished.
    pub spins: usize,
    /// How the read ended.
    pub outcome: Result<(), VirtioError>,
}

impl BlockRead {
    /// Whether the registers and the queue lie in the address space, and the slot of
    /// the request in the ring.
    pub open spec fn well_formed(&self) -> bool {
        &&& self.driver.well_formed()
        &&& self.request.ring_slot < VIRTIO_BLOCK_QUEUE_SIZE
        &&& self.spins <= VIRTIO_BLOCK_REQUEST_POLL_LIMIT
    }

    /// The read before its first step.
    pub open spec fn begun(
        driver: VirtioBlockDriver,
        sector: u64,
        buffer_len: usize,
        places: RequestPlaces,
    ) -> Self {
        BlockRead {
            driver: driver.asked(),
            request: request_for(driver, sector, buffer_len, places),
            places,
            stage: ReadStage::Header,
            spins: 0,
            outcome: Ok(()),
        }
    }

    /// What is to be done for the current step.
    pub open spec fn wanted(&self) -> ReadAction {
        let layout = queue_layout(VIRTIO_BLOCK_QUEUE_SIZE, false);
        let base = self.driver.queue_base;
        match self.stage {
            ReadStage::Header => ReadAction::WriteHeader(self.places.header, self.request.header),
            ReadStage::Status => ReadAction::WriteStatus(self.places.status, 0xff),
            ReadStage::First => ReadAction::WriteDescriptor(base, self.request.first),
            ReadStage::Second => ReadAction::WriteDescriptor(
                (base + 16) as usize,
                self.request.second,
            ),
            ReadStage::Third => ReadAction::WriteDescriptor(
                (base + 32) as usize,
                self.request.third,
            ),
            ReadStage::Ring => ReadAction::WriteRing(
                (base + layout.avail_offset + 4 + 2 * self.request.ring_slot) as usize,
                0,
            ),
            ReadStage::Index => ReadAction::WriteRing(
                (base + layout.avail_offset + 2) as usize,
                self.request.avail_idx,
            ),
            ReadStage::RingFence | ReadStage::IndexFence | ReadStage::UsedFence => ReadAction::Fence,
            ReadStage::Notify => ReadAction::Notify(
                RegisterWrite {
                    address: (self.driver.device.address() + MMIO_QUEUE_NOTIFY) as usize,
                    value: VIRTIO_BLOCK_QUEUE,
                },
            ),
            ReadStage::Poll => ReadAction::ReadUsedIdx((base + layout.used_offset + 2) as usize),
            ReadStage::Used => ReadAction::ReadUsedId(
                (base + layout.used_offset + 4 + 8 * (self.driver.used_idx
                    % VIRTIO_BLOCK_QUEUE_SIZE)) as usize,
            ),
            ReadStage::Outcome => ReadAction::ReadStatus(self.places.status),
            ReadStage::Ended => ReadAction::Done(self.outcome),
        }
    }

    /// The read after it ended with an error.
    pub open spec fn failed(&self, error: VirtioError) -> Self {
        BlockRead { stage: ReadStage::Ended, outcome: Err(error), ..*self }
    }

    /// The read after the current step, to which a value was replied where it reads
    /// one.
    pub open spec fn answered(&self, reply: u32) -> Self {
        let next = BlockRead { stage: stage_behind(self.stage), ..*self };
        match self.stage {
            ReadStage::Poll => if reply != self.driver.used_idx {
                next
            } else if self.spins >= VIRTIO_BLOCK_REQUEST_POLL_LIMIT {
                self.failed(VirtioError::RequestTimeout)
            } else {
                BlockRead { spins: (self.spins + 1) as usize, ..*self }
            },
            ReadStage::Used => if reply != 0 {
                self.failed(VirtioError::UnexpectedUsedId(reply))
            } else {
                BlockRead { driver: self.driver.taken(), ..next }
            },
            ReadStage::Outcome => if reply != 0 {
                self.failed(VirtioError::BlockRequestFailed(reply as u8))
            } else {
                next
            },
            _ => next,
        }
    }

    /// Begins a read of contiguous sectors into a buffer.
    pub fn new(
        driver: VirtioBlockDriver,
        sector: u64,
        buffer_len: usize,
        places: RequestPlaces,
    ) -> (read: Result<Self, VirtioError>)
        requires
            driver.well_formed(),
        ensures
            match read {
                Ok(begun) => buffer_fits(buffer_len) && begun.well_formed() && begun
                    == BlockRead::begun(driver, sector, buffer_len, places),
                Err(error) => !buffer_fits(buffer_len) && error == VirtioError::InvalidBufferLength,
            },
    {
        let mut driver = driver;
        match driver.begin_read(sector, buffer_len, places) {
            Ok(request) => Ok(
                BlockRead {
                    driver,
                    request,
                    places,
                    stage: ReadStage::Header,
                    spins: 0,
                    outcome: Ok(()),
                },
            ),
            Err(error) => Err(error),
        }
    }

    /// Returns what is to be done next.
    pub fn action(&self) -> (action: ReadAction)
        requires
            self.well_formed(),
        ensures
            action == self.wanted(),
    {
        let queue = match VirtQueue::from_ptr(
            self.driver.queue_base,
            VIRTIO_BLOCK_QUEUE_SIZE,
            false,
        ) {
            Some(queue) => queue,
            None => return ReadAction::Done(Err(VirtioError::QueueCreationFailed)),
        };
        match self.stage {
            ReadStage::Header => ReadAction::WriteHeader(self.places.header, self.request.header),
            ReadStage::Status => ReadAction::WriteStatus(self.places.status, 0xff),
            ReadStage::First => ReadAction::WriteDescriptor(
                queue.descriptor_ptr(0),
                self.request.first,
            ),
            ReadStage::Second => ReadAction::WriteDescriptor(
                queue.descriptor_ptr(1),
                self.request.second,
            ),
            ReadStage::Third => ReadAction::WriteDescriptor(
                queue.descriptor_ptr(2),
                self.request.third,
            ),
            ReadStage::Ring => ReadAction::WriteRing(
                queue.avail_ring_ptr(self.request.ring_slot),
                0,
            ),
            ReadStage::Index => ReadAction::WriteRing(
                queue.avail_idx_ptr(),
                self.request.avail_idx,
            ),
            ReadStage::RingFence | ReadStage::IndexFence | ReadStage::UsedFence => ReadAction::Fence,
            ReadStage::Notify => ReadAction::Notify(
                self.driver.device.notify_queue(VIRTIO_BLOCK_QUEUE),
            ),
            ReadStage::Poll => ReadAction::ReadUsedIdx(queue.used_idx_ptr()),
            ReadStage::Used => ReadAction::ReadUsedId(
                queue.used_ring_ptr(self.driver.used_slot()),
            ),
            ReadStage::Outcome => ReadAction::ReadStatus(self.places.status),
            ReadStage::Ended => ReadAction::Done(self.outcome),
        }
    }

    /// Takes the reply to the last action: the used index, the head of the used
    /// element or the status byte, and anything for another action.
    pub fn answer(&mut self, reply: u32)
        requires
            old(self).well_formed(),
            old(self).stage is Poll ==> reply <= u16::MAX,
            old(self).stage is Outcome ==> reply <= u8::MAX,
        ensures
            final(self).well_formed(),
            *final(self) == old(self).answered(reply),
    {
        let next = match self.stage {
            ReadStage::Header => ReadStage::Status,
            ReadStage::Status => ReadStage::First,
            ReadStage::First => ReadStage::Second,
            ReadStage::Second => ReadStage::Third,
            ReadStage::Third => ReadStage::Ring,
            ReadStage::Ring => ReadStage::RingFence,
            ReadStage::RingFence => ReadStage::Index,
            ReadStage::Index => ReadStage::IndexFence,
            ReadStage::IndexFence => ReadStage::Notify,
            ReadStage::Notify => ReadStage::Poll,
            ReadStage::Poll => match self.driver.poll(reply as u16, self.spins) {
                PollStep::Finished => ReadStage::UsedFence,
                PollStep::Wait => {
                    self.spins = self.spins + 1;
                    ReadStage::Poll
                },
                PollStep::TimedOut => {
                    self.outcome = Err(VirtioError::RequestTimeout);
                    ReadStage::Ended
                },
            },
            ReadStage::UsedFence => ReadStage::Used,
            ReadStage::Used => match self.driver.take_used(VirtqUsedElem { id: reply, len: 0 }) {
                Ok(()) => ReadStage::Outcome,
                Err(error) => {
                    self.outcome = Err(error);
                    ReadStage::Ended
                },
            },
            ReadStage::Outcome => match VirtioBlockDriver::read_outcome(reply as u8) {
                Ok(()) => ReadStage::Ended,
                Err(error) => {
                    self.outcome = Err(error);
                    ReadStage::Ended
                },
            },
            ReadStage::Ended => ReadStage::Ended,
        };
        self.stage = next;
    }
}

/// The read after all of the replies, in turn.
pub open spec fn read_after(read: BlockRead, replies: Seq<u32>) -> BlockRead
    decreases replies.len(),
{
    if replies.len() == 0 {
        read
    } else {
        read_after(read, replies.drop_last()).answered(replies.last())
    }
}

/// A read that ends without an error has left no request under way, where none was
/// before; one whose request is published has.
pub proof fn successful_read_is_idle(
    driver: VirtioBlockDriver,
    sector: u64,
    buffer_len: usize,
    places: RequestPlaces,
    replies: Seq<u32>,
)
    requires
        driver.idle(),
    ensures
        ({
            let read = read_after(
                BlockRead::begun(driver, sector, buffer_len, places),
                replies,
            );
            &&& read.stage is Ended && read.outcome is Ok ==> read.driver.idle()
            &&& !(read.stage is Ended) ==> read.outcome is Ok && (read.driver.idle()
                <==> read.stage is Outcome)
            &&& read.driver.capacity_sectors == driver.capacity_sectors
        }),
    decreases replies.len(),
{
    requests_stay_in_step(driver);
    if replies.len() > 0 {
        successful_read_is_idle(driver, sector, buffer_len, places, replies.drop_last());
        read_keeps_indices(driver, sector, buffer_len, places, replies.drop_last());
    }
}

/// Before the used element is taken, a read has moved the index of the available ring
/// alone; behind, both.
proof fn read_keeps_indices(
    driver: VirtioBlockDriver,
    sector: u64,
    buffer_len: usize,
    places: RequestPlaces,
    replies: Seq<u32>,
)
    ensures
        ({
            let read = read_after(
                BlockRead::begun(driver, sector, buffer_len, places),
                replies,
            );
            if read.stage is Outcome || (read.stage is Ended && read.outcome is Ok) {
                read.driver == driver.asked().taken()
            } else if read.stage is Ended {
                read.outcome is Err && (read.driver == driver.asked() || read.driver
                    == driver.asked().taken())
            } else {
                read.driver == driver.asked() && read.outcome is Ok
            }
        }),
    decreases replies.len(),
{
    if replies.len() > 0 {
        read_keeps_indices(driver, sector, buffer_len, places, replies.drop_last());
    }
}

/// A driver without a request under way is so again after a request was published
/// and its used element was taken; in between it is not. The slots of both rings lie
/// inside of the queue, and the request uses the same slot of both.
pub proof fn requests_stay_in_step(driver: VirtioBlockDriver)
    requires
        driver.idle(),
    ensures
        !driver.asked().idle(),
        driver.asked().taken().idle(),
        driver.avail_idx % VIRTIO_BLOCK_QUEUE_SIZE < VIRTIO_BLOCK_QUEUE_SIZE,
        driver.asked().used_idx % VIRTIO_BLOCK_QUEUE_SIZE == driver.avail_idx
            % VIRTIO_BLOCK_QUEUE_SIZE,
{
}

/// The queue of the driver fits into its page.
pub proof fn queue_fits_page()
    ensures
        queue_layout(VIRTIO_BLOCK_QUEUE_SIZE, false).total_size <= VIRTIO_BLOCK_QUEUE_BYTES,
{
}

} // verus!
