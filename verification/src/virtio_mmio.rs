//! VirtIO MMIO transports: their registers and where they are found on the QEMU
//! `virt` machine. Registers are read and written by the caller; the functions say
//! which register it is and what a value in it means.

use vstd::prelude::*;
use crate::bytes::{le64, read_le_u64};

verus! {

/// VirtIO MMIO magic value for transport discovery.
pub const VIRTIO_MMIO_MAGIC: u32 = 0x7472_6976;

/// Version value used by modern VirtIO MMIO devices.
pub const VIRTIO_MMIO_VERSION_1: u32 = 2;

/// QEMU vendor identifier used by its VirtIO MMIO devices.
pub const VIRTIO_VENDOR_QEMU: u32 = 0x554d_4551;

/// VirtIO device identifier for block devices.
pub const VIRTIO_DEVICE_ID_BLOCK: u32 = 2;

/// Base address of the first VirtIO MMIO slot on the QEMU `virt` machine.
pub const VIRTIO_MMIO_QEMU_VIRT_BASE: usize = 0x1000_1000;

/// Distance between two adjacent VirtIO MMIO slots on the QEMU `virt` machine.
pub const VIRTIO_MMIO_QEMU_VIRT_STRIDE: usize = 0x1000;

/// Number of VirtIO MMIO slots exposed by the QEMU `virt` machine.
pub const VIRTIO_MMIO_QEMU_VIRT_COUNT: usize = 8;

/// Register offset of the transport magic value.
pub const MMIO_MAGIC_VALUE: usize = 0x000;

/// Register offset of the transport version field.
pub const MMIO_VERSION: usize = 0x004;

/// Register offset of the device identifier field.
pub const MMIO_DEVICE_ID: usize = 0x008;

/// Register offset of the vendor identifier field.
pub const MMIO_VENDOR_ID: usize = 0x00c;

/// Register offset of the device features register.
pub const MMIO_DEVICE_FEATURES: usize = 0x010;

/// Register offset of the device features selector register.
pub const MMIO_DEVICE_FEATURES_SEL: usize = 0x014;

/// Register offset of the driver features register.
pub const MMIO_DRIVER_FEATURES: usize = 0x020;

/// Register offset of the driver features selector register.
pub const MMIO_DRIVER_FEATURES_SEL: usize = 0x024;

/// Register offset of the queue selection register.
pub const MMIO_QUEUE_SEL: usize = 0x030;

/// Register offset of the maximum queue size register.
pub const MMIO_QUEUE_NUM_MAX: usize = 0x034;

/// Register offset of the negotiated queue size register.
pub const MMIO_QUEUE_NUM: usize = 0x038;

/// Register offset of the queue ready flag.
pub const MMIO_QUEUE_READY: usize = 0x044;

/// Register offset of the queue notification register.
pub const MMIO_QUEUE_NOTIFY: usize = 0x050;

/// Register offset of the interrupt status register.
pub const MMIO_INTERRUPT_STATUS: usize = 0x060;

/// Register offset of the interrupt acknowledge register.
pub const MMIO_INTERRUPT_ACK: usize = 0x064;

/// Register offset of the device status register.
pub const MMIO_STATUS: usize = 0x070;

/// Register offset of the low 32 bits of the descriptor table address.
pub const MMIO_QUEUE_DESC_LOW: usize = 0x080;

/// Register offset of the low 32 bits of the available ring address.
pub const MMIO_QUEUE_DRIVER_LOW: usize = 0x090;

/// Register offset of the low 32 bits of the used ring address.
pub const MMIO_QUEUE_DEVICE_LOW: usize = 0x0a0;

/// Register offset of the configuration generation counter.
pub const MMIO_CONFIG_GENERATION: usize = 0x0fc;

/// Offset of the device-specific configuration area.
pub const MMIO_CONFIG: usize = 0x100;

/// A 32-bit register and the value to write to it.
#[derive(Clone, Copy, Debug, PartialEq, Eq, Structural)]
pub struct RegisterWrite {
    /// Address of the register.
    pub address: usize,
    /// Value to write.
    pub value: u32,
}

/// Handle to one VirtIO MMIO transport instance.
#[derive(Clone, Copy, Debug, PartialEq, Eq, Structural)]
pub struct VirtioMmioDevice {
    /// Address of the VirtIO MMIO register block.
    base: usize,
}

/// What the identity registers of a transport hold.
#[derive(Clone, Copy, Debug, PartialEq, Eq, Structural)]
pub struct DeviceIdentity {
    /// Transport magic value.
    pub magic: u32,
    /// Transport version.
    pub version: u32,
    /// VirtIO device identifier.
    pub device_id: u32,
}

impl DeviceIdentity {
    /// Whether the registers are those of a VirtIO device.
    pub open spec fn present(self) -> bool {
        &&& self.magic == VIRTIO_MMIO_MAGIC
        &&& self.version == VIRTIO_MMIO_VERSION_1
        &&& self.device_id != 0
    }

    /// Whether the registers are those of a VirtIO block device.
    pub open spec fn block(self) -> bool {
        self.present() && self.device_id == VIRTIO_DEVICE_ID_BLOCK
    }
}

impl VirtioMmioDevice {
    /// Address of the register block.
    pub closed spec fn address(&self) -> usize {
        self.base
    }

    /// Whether the register block of one page lies in the address space.
    pub open spec fn well_formed(&self) -> bool {
        0 < self.address() <= usize::MAX - 0xfff
    }

    /// Creates an MMIO transport handle from a base address. There is none at
    /// address zero.
    pub fn from_base(base: usize) -> (device: Option<Self>)
        ensures
            match device {
                Some(created) => base != 0 && created.address() == base,
                None => base == 0,
            },
    {
        if base == 0 {
            return None;
        }
        Some(VirtioMmioDevice { base })
    }

    /// Returns the MMIO base address for one QEMU `virt` VirtIO slot.
    pub fn qemu_virt_base(index: usize) -> (base: usize)
        requires
            VIRTIO_MMIO_QEMU_VIRT_BASE + index * VIRTIO_MMIO_QEMU_VIRT_STRIDE <= usize::MAX,
        ensures
            base == VIRTIO_MMIO_QEMU_VIRT_BASE + index * VIRTIO_MMIO_QEMU_VIRT_STRIDE,
    {
        VIRTIO_MMIO_QEMU_VIRT_BASE + index * VIRTIO_MMIO_QEMU_VIRT_STRIDE
    }

    /// Returns the MMIO base address of the device.
    pub fn base_address(&self) -> (base: usize)
        ensures
            base == self.address(),
    {
        self.base
    }

    /// Returns the address of the register at an offset.
    pub fn register_ptr(&self, offset: usize) -> (address: usize)
        requires
            self.address() + offset <= usize::MAX,
        ensures
            address == self.address() + offset,
    {
        self.base + offset
    }

    /// Returns what to write to the register at an offset.
    pub fn write_reg(&self, offset: usize, value: u32) -> (write: RegisterWrite)
        requires
            self.address() + offset <= usize::MAX,
        ensures
            write.address == self.address() + offset,
            write.value == value,
    {
        RegisterWrite { address: self.base + offset, value }
    }

    /// Returns what to write to the two registers of a 64-bit value, the low half
    /// first.
    pub fn write_reg64(&self, offset_low: usize, value: u64) -> (writes: [RegisterWrite; 2])
        requires
            self.address() + offset_low + 4 <= usize::MAX,
        ensures
            writes@[0].address == self.address() + offset_low,
            writes@[1].address == self.address() + offset_low + 4,
            writes@[1].value * 0x1_0000_0000 + writes@[0].value == value,
    {
        [
            RegisterWrite { address: self.base + offset_low, value: low_half(value) },
            RegisterWrite { address: self.base + offset_low + 4, value: high_half(value) },
        ]
    }

    /// Returns the address of the transport magic value.
    pub fn magic_value(&self) -> (address: usize)
        requires
            self.well_formed(),
        ensures
            address == self.address() + MMIO_MAGIC_VALUE,
    {
        self.register_ptr(MMIO_MAGIC_VALUE)
    }

    /// Returns the address of the transport version.
    pub fn version(&self) -> (address: usize)
        requires
            self.well_formed(),
        ensures
            address == self.address() + MMIO_VERSION,
    {
        self.register_ptr(MMIO_VERSION)
    }

    /// Returns the address of the VirtIO device identifier.
    pub fn device_id(&self) -> (address: usize)
        requires
            self.well_formed(),
        ensures
            address == self.address() + MMIO_DEVICE_ID,
    {
        self.register_ptr(MMIO_DEVICE_ID)
    }

    /// Returns the address of the device vendor identifier.
    pub fn vendor_id(&self) -> (address: usize)
        requires
            self.well_formed(),
        ensures
            address == self.address() + MMIO_VENDOR_ID,
    {
        self.register_ptr(MMIO_VENDOR_ID)
    }

    /// Returns `true` when the MMIO slot contains a valid VirtIO device, by what its
    /// identity registers hold.
    pub fn is_present(identity: &DeviceIdentity) -> (answer: bool)
        ensures
            answer == identity.present(),
    {
        identity.magic == VIRTIO_MMIO_MAGIC && identity.version == VIRTIO_MMIO_VERSION_1
            && identity.device_id != 0
    }

    /// Returns `true` when the transport hosts a VirtIO block device, by what its
    /// identity registers hold.
    pub fn is_block_device(identity: &DeviceIdentity) -> (answer: bool)
        ensures
            answer == identity.block(),
    {
        VirtioMmioDevice::is_present(identity) && identity.device_id == VIRTIO_DEVICE_ID_BLOCK
    }

    /// Returns what to write to select one 32-bit page of device features, and the
    /// register to read it from.
    pub fn device_features(&self, selector: u32) -> (access: (RegisterWrite, usize))
        requires
            self.well_formed(),
        ensures
            access.0.address == self.address() + MMIO_DEVICE_FEATURES_SEL,
            access.0.value == selector,
            access.1 == self.address() + MMIO_DEVICE_FEATURES,
    {
        (
            self.write_reg(MMIO_DEVICE_FEATURES_SEL, selector),
            self.register_ptr(MMIO_DEVICE_FEATURES),
        )
    }

    /// Returns what to write to set one 32-bit page of negotiated driver features.
    pub fn set_driver_features(&self, selector: u32, features: u32) -> (writes: [RegisterWrite; 2])
        requires
            self.well_formed(),
        ensures
            writes@[0].address == self.address() + MMIO_DRIVER_FEATURES_SEL,
            writes@[0].value == selector,
            writes@[1].address == self.address() + MMIO_DRIVER_FEATURES,
            writes@[1].value == features,
    {
        [
            self.write_reg(MMIO_DRIVER_FEATURES_SEL, selector),
            self.write_reg(MMIO_DRIVER_FEATURES, features),
        ]
    }

    /// Returns what to write to select the active virtqueue register bank.
    pub fn select_queue(&self, queue_index: u32) -> (write: RegisterWrite)
        requires
            self.well_formed(),
        ensures
            write.address == self.address() + MMIO_QUEUE_SEL,
            write.value == queue_index,
    {
        self.write_reg(MMIO_QUEUE_SEL, queue_index)
    }

    /// Returns the address of the maximum size of the selected queue.
    pub fn queue_num_max(&self) -> (address: usize)
        requires
            self.well_formed(),
        ensures
            address == self.address() + MMIO_QUEUE_NUM_MAX,
    {
        self.register_ptr(MMIO_QUEUE_NUM_MAX)
    }

    /// Returns what to write to set the size of the selected queue.
    pub fn set_queue_num(&self, queue_size: u32) -> (write: RegisterWrite)
        requires
            self.well_formed(),
        ensures
            write.address == self.address() + MMIO_QUEUE_NUM,
            write.value == queue_size,
    {
        self.write_reg(MMIO_QUEUE_NUM, queue_size)
    }

    /// Returns the address of the ready flag of the selected queue.
    pub fn queue_ready(&self) -> (address: usize)
        requires
            self.well_formed(),
        ensures
            address == self.address() + MMIO_QUEUE_READY,
    {
        self.register_ptr(MMIO_QUEUE_READY)
    }

    /// Returns what to write to mark the selected queue as ready or not ready.
    pub fn set_queue_ready(&self, ready: bool) -> (write: RegisterWrite)
        requires
            self.well_formed(),
        ensures
            write.address == self.address() + MMIO_QUEUE_READY,
            write.value == if ready {
                1u32
            } else {
                0u32
            },
    {
        let value: u32 = if ready {
            1
        } else {
            0
        };
        self.write_reg(MMIO_QUEUE_READY, value)
    }

    /// Returns what to write to set the descriptor, driver, and device ring
    /// addresses, each with its low half first.
    pub fn set_queue_addresses(&self, desc: u64, driver: u64, device: u64) -> (writes: [RegisterWrite; 6])
        requires
            self.well_formed(),
        ensures
            writes@ == seq![
                self.half_write(MMIO_QUEUE_DESC_LOW as int, desc, false),
                self.half_write(MMIO_QUEUE_DESC_LOW as int, desc, true),
                self.half_write(MMIO_QUEUE_DRIVER_LOW as int, driver, false),
                self.half_write(MMIO_QUEUE_DRIVER_LOW as int, driver, true),
                self.half_write(MMIO_QUEUE_DEVICE_LOW as int, device, false),
                self.half_write(MMIO_QUEUE_DEVICE_LOW as int, device, true),
            ],
    {
        let writes = [
            self.write_reg(MMIO_QUEUE_DESC_LOW, low_half(desc)),
            self.write_reg(MMIO_QUEUE_DESC_LOW + 4, high_half(desc)),
            self.write_reg(MMIO_QUEUE_DRIVER_LOW, low_half(driver)),
            self.write_reg(MMIO_QUEUE_DRIVER_LOW + 4, high_half(driver)),
            self.write_reg(MMIO_QUEUE_DEVICE_LOW, low_half(device)),
            self.write_reg(MMIO_QUEUE_DEVICE_LOW + 4, high_half(device)),
        ];
        assert(writes@ =~= seq![
            self.half_write(MMIO_QUEUE_DESC_LOW as int, desc, false),
            self.half_write(MMIO_QUEUE_DESC_LOW as int, desc, true),
            self.half_write(MMIO_QUEUE_DRIVER_LOW as int, driver, false),
            self.half_write(MMIO_QUEUE_DRIVER_LOW as int, driver, true),
            self.half_write(MMIO_QUEUE_DEVICE_LOW as int, device, false),
            self.half_write(MMIO_QUEUE_DEVICE_LOW as int, device, true),
        ]);
        writes
    }

    /// The write of one half of a 64-bit value to a pair of registers.
    pub open spec fn half_write(&self, offset_low: int, value: u64, high: bool) -> RegisterWrite {
        if high {
            RegisterWrite {
                address: (self.address() + offset_low + 4) as usize,
                value: (value / 0x1_0000_0000) as u32,
            }
        } else {
            RegisterWrite {
                address: (self.address() + offset_low) as usize,
                value: (value % 0x1_0000_0000) as u32,
            }
        }
    }

    /// Returns what to write to notify the device of work on a queue.
    pub fn notify_queue(&self, queue_index: u32) -> (write: RegisterWrite)
        requires
            self.well_formed(),
        ensures
            write.address == self.address() + MMIO_QUEUE_NOTIFY,
            write.value == queue_index,
    {
        self.write_reg(MMIO_QUEUE_NOTIFY, queue_index)
    }

    /// Returns the address of the interrupt status bits.
    pub fn interrupt_status(&self) -> (address: usize)
        requires
            self.well_formed(),
        ensures
            address == self.address() + MMIO_INTERRUPT_STATUS,
    {
        self.register_ptr(MMIO_INTERRUPT_STATUS)
    }

    /// Returns what to write to acknowledge pending interrupt status bits.
    pub fn acknowledge_interrupt(&self, bits: u32) -> (write: RegisterWrite)
        requires
            self.well_formed(),
        ensures
            write.address == self.address() + MMIO_INTERRUPT_ACK,
            write.value == bits,
    {
        self.write_reg(MMIO_INTERRUPT_ACK, bits)
    }

    /// Returns the address of the device status register.
    pub fn status(&self) -> (address: usize)
        requires
            self.well_formed(),
        ensures
            address == self.address() + MMIO_STATUS,
    {
        self.register_ptr(MMIO_STATUS)
    }

    /// Returns what to write to reset the device.
    pub fn reset(&self) -> (write: RegisterWrite)
        requires
            self.well_formed(),
        ensures
            write.address == self.address() + MMIO_STATUS,
            write.value == 0,
    {
        self.write_reg(MMIO_STATUS, 0)
    }

    /// Returns what to write to set one or more device status bits beside those that
    /// the status register holds.
    pub fn add_status(&self, current: u32, status: u32) -> (write: RegisterWrite)
        requires
            self.well_formed(),
        ensures
            write.address == self.address() + MMIO_STATUS,
            write.value == current | status,
    {
        self.write_reg(MMIO_STATUS, current | status)
    }

    /// Returns the address of the configuration generation counter.
    pub fn config_generation(&self) -> (address: usize)
        requires
            self.well_formed(),
        ensures
            address == self.address() + MMIO_CONFIG_GENERATION,
    {
        self.register_ptr(MMIO_CONFIG_GENERATION)
    }

    /// Returns the address of a byte of the device-specific configuration area.
    pub fn config_byte(&self, offset: usize) -> (address: usize)
        requires
            self.well_formed(),
            offset < 0xf00,
        ensures
            address == self.address() + MMIO_CONFIG + offset,
    {
        self.register_ptr(MMIO_CONFIG + offset)
    }

    /// Decodes one little-endian `u64` that was read from the device-specific
    /// configuration area byte by byte, with the generation counter before and
    /// after. The bytes have to be read again when the generation has changed.
    pub fn read_config_u64_le(before: u32, bytes: &[u8; 8], after: u32) -> (value: Option<u64>)
        ensures
            value == if before == after {
                Some(le64(bytes@, 0))
            } else {
                None
            },
    {
        if before == after {
            Some(read_le_u64(bytes.as_slice(), 0))
        } else {
            None
        }
    }
}

/// Returns the low half of a 64-bit value.
fn low_half(value: u64) -> (half: u32)
    ensures
        half == value % 0x1_0000_0000,
{
    (value % 0x1_0000_0000) as u32
}

/// Returns the high half of a 64-bit value.
fn high_half(value: u64) -> (half: u32)
    ensures
        half == value / 0x1_0000_0000,
{
    (value / 0x1_0000_0000) as u32
}

/// Result of probing one QEMU `virt` MMIO slot.
#[derive(Clone, Copy, Debug, PartialEq, Eq, Structural)]
pub struct VirtioMmioProbe {
    /// Zero-based QEMU `virt` MMIO slot index.
    pub slot: usize,
    /// Transport handle for the discovered device.
    pub device: VirtioMmioDevice,
}

/// Walk over the block devices exposed on the fixed QEMU `virt` MMIO slots.
#[derive(Clone, Copy, Debug, PartialEq, Eq, Structural)]
pub struct QemuVirtBlockDevices {
    /// Next MMIO slot index to probe.
    pub slot: usize,
}

/// The first slot from `from` on that holds a block device.
pub open spec fn block_slot_from(identities: Seq<DeviceIdentity>, from: int) -> Option<int>
    decreases identities.len() - from,
{
    if from < 0 || from >= identities.len() {
        None
    } else if identities[from].block() {
        Some(from)
    } else {
        block_slot_from(identities, from + 1)
    }
}

impl QemuVirtBlockDevices {
    /// Finds the next block device. `identities` is what the identity registers of
    /// the slots hold.
    pub fn next(&mut self, identities: &[DeviceIdentity; 8]) -> (probe: Option<VirtioMmioProbe>)
        ensures
            match block_slot_from(identities@, old(self).slot as int) {
                Some(slot) => final(self).slot == slot + 1 && (probe matches Some(found)
                    && found.slot == slot && found.device.well_formed() && found.device.address()
                    == VIRTIO_MMIO_QEMU_VIRT_BASE + slot * VIRTIO_MMIO_QEMU_VIRT_STRIDE),
                None => probe is None && final(self).slot == if old(self).slot < 8 {
                    8usize
                } else {
                    old(self).slot
                },
            },
    {
        while self.slot < VIRTIO_MMIO_QEMU_VIRT_COUNT
            invariant
                block_slot_from(identities@, self.slot as int) == block_slot_from(
                    identities@,
                    old(self).slot as int,
                ),
                self.slot <= 8 || self.slot == old(self).slot,
                old(self).slot <= self.slot,
            decreases 8 - self.slot,
        {
            let slot = self.slot;
            self.slot = slot + 1;
            if VirtioMmioDevice::is_block_device(&identities[slot]) {
                let base = VirtioMmioDevice::qemu_virt_base(slot);
                return Some(VirtioMmioProbe { slot, device: VirtioMmioDevice { base } });
            }
        }
        None
    }
}

/// Returns a walk over all block devices on the fixed QEMU MMIO slots.
pub fn qemu_virt_block_devices() -> (devices: QemuVirtBlockDevices)
    ensures
        devices.slot == 0,
{
    QemuVirtBlockDevices { slot: 0 }
}

/// Returns the first block device on the QEMU MMIO slots, if present.
pub fn probe_qemu_virt_block_device(identities: &[DeviceIdentity; 8]) -> (device: Option<
    VirtioMmioDevice,
>)
    ensures
        match (block_slot_from(identities@, 0), device) {
            (Some(slot), Some(found)) => found.well_formed() && found.address()
                == VIRTIO_MMIO_QEMU_VIRT_BASE + slot * VIRTIO_MMIO_QEMU_VIRT_STRIDE,
            (None, None) => true,
            _ => false,
        },
{
    let mut devices = qemu_virt_block_devices();
    match devices.next(identities) {
        Some(probe) => Some(probe.device),
        None => None,
    }
}

} // verus!
