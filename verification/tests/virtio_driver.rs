//! VirtIO transports, queues and the block driver.

use rustfw::virtio::VirtioError;
use rustfw::virtio_block::{
    BlockRead, DriverSetup, PollStep, ReadAction, RequestPlaces, SetupRequest, VirtioBlockDriver,
    SETUP_LINES, VIRTIO_BLOCK_REQUEST_POLL_LIMIT,
};
use rustfw::virtio_mmio::{
    probe_qemu_virt_block_device, qemu_virt_block_devices, DeviceIdentity, RegisterWrite,
    VirtioMmioDevice,
};
use rustfw::virtqueue::{align_up, VirtQueue, VirtqUsedElem};

const BLOCK: DeviceIdentity = DeviceIdentity { magic: 0x7472_6976, version: 2, device_id: 2 };
const NETWORK: DeviceIdentity = DeviceIdentity { magic: 0x7472_6976, version: 2, device_id: 1 };
const EMPTY: DeviceIdentity = DeviceIdentity { magic: 0x7472_6976, version: 2, device_id: 0 };
const LEGACY: DeviceIdentity = DeviceIdentity { magic: 0x7472_6976, version: 1, device_id: 2 };

const PLACES: RequestPlaces = RequestPlaces { header: 0x100, buffer: 0x2000, status: 0x180 };

fn transport() -> VirtioMmioDevice {
    VirtioMmioDevice::from_base(VirtioMmioDevice::qemu_virt_base(0)).unwrap()
}

/// Runs a setup against a device that keeps the status it is given and replies to
/// other reads as told. Returns the last request and the register writes.
fn set_up(
    identity: DeviceIdentity,
    features: u32,
    accepts: bool,
    queue_max: u32,
    queue_base: usize,
) -> (SetupRequest, Vec<RegisterWrite>) {
    let device = transport();
    let base = device.base_address();
    let mut setup = DriverSetup::new(device, queue_base);
    let mut status = 0xffu32;
    let mut writes = Vec::new();
    loop {
        let request = setup.request();
        let reply = match request {
            SetupRequest::Read(address) => {
                let value = match address - base {
                    0x000 => identity.magic,
                    0x004 => identity.version,
                    0x008 => identity.device_id,
                    0x010 => features,
                    0x034 => queue_max,
                    0x070 => status,
                    other => panic!("unexpected register {other:#x}"),
                };
                value as u64
            }
            SetupRequest::ReadConfig(address) => {
                assert_eq!(address, base + 0x100);
                4096
            }
            SetupRequest::Write(write) => {
                if write.address == base + 0x70 {
                    status = if accepts { write.value } else { write.value & !8 };
                }
                writes.push(write);
                0
            }
            SetupRequest::ClearQueue => 0,
            SetupRequest::Ready(_) | SetupRequest::Failed(_) => return (request, writes),
        };
        setup.answer(reply);
    }
}

#[test]
fn identities() {
    assert!(VirtioMmioDevice::is_present(&BLOCK));
    assert!(VirtioMmioDevice::is_block_device(&BLOCK));
    assert!(VirtioMmioDevice::is_present(&NETWORK));
    assert!(!VirtioMmioDevice::is_block_device(&NETWORK));
    assert!(!VirtioMmioDevice::is_present(&EMPTY));
    assert!(!VirtioMmioDevice::is_present(&LEGACY));
}

#[test]
fn slots_are_probed_in_order() {
    assert_eq!(VirtioMmioDevice::qemu_virt_base(7), 0x1000_8000);
    let slots = [EMPTY, BLOCK, NETWORK, EMPTY, LEGACY, BLOCK, EMPTY, EMPTY];
    let mut devices = qemu_virt_block_devices();
    let first = devices.next(&slots).unwrap();
    assert_eq!((first.slot, first.device.base_address()), (1, 0x1000_2000));
    let second = devices.next(&slots).unwrap();
    assert_eq!((second.slot, second.device.base_address()), (5, 0x1000_6000));
    assert!(devices.next(&slots).is_none());
    assert!(devices.next(&slots).is_none());
    assert_eq!(probe_qemu_virt_block_device(&slots).unwrap().base_address(), 0x1000_2000);
    assert!(probe_qemu_virt_block_device(&[EMPTY; 8]).is_none());
}

#[test]
fn transports_need_an_address() {
    assert!(VirtioMmioDevice::from_base(0).is_none());
    let last_page: usize = usize::MAX - 0xfff;
    let last = VirtioMmioDevice::from_base(last_page).unwrap();
    assert_eq!(last.register_ptr(0xfff), usize::MAX);
    assert_eq!(VirtioMmioDevice::from_base(usize::MAX).unwrap().base_address(), usize::MAX);
}

#[test]
fn registers_have_their_offsets() {
    let device = transport();
    let base = 0x1000_1000;
    assert_eq!(device.magic_value(), base);
    assert_eq!(device.version(), base + 4);
    assert_eq!(device.device_id(), base + 8);
    assert_eq!(device.vendor_id(), base + 12);
    assert_eq!(device.queue_num_max(), base + 0x34);
    assert_eq!(device.queue_ready(), base + 0x44);
    assert_eq!(device.interrupt_status(), base + 0x60);
    assert_eq!(device.status(), base + 0x70);
    assert_eq!(device.config_generation(), base + 0xfc);
    assert_eq!(device.config_byte(3), base + 0x103);
    assert_eq!(device.reset(), RegisterWrite { address: base + 0x70, value: 0 });
    assert_eq!(device.add_status(9, 4), RegisterWrite { address: base + 0x70, value: 13 });
    assert_eq!(device.notify_queue(3), RegisterWrite { address: base + 0x50, value: 3 });
    assert_eq!(device.select_queue(1), RegisterWrite { address: base + 0x30, value: 1 });
    assert_eq!(device.set_queue_num(4), RegisterWrite { address: base + 0x38, value: 4 });
    assert_eq!(device.set_queue_ready(true), RegisterWrite { address: base + 0x44, value: 1 });
    assert_eq!(device.acknowledge_interrupt(2), RegisterWrite { address: base + 0x64, value: 2 });
    let (select, read) = device.device_features(1);
    assert_eq!((select, read), (RegisterWrite { address: base + 0x14, value: 1 }, base + 0x10));
    assert_eq!(
        device.set_driver_features(1, 5),
        [
            RegisterWrite { address: base + 0x24, value: 1 },
            RegisterWrite { address: base + 0x20, value: 5 },
        ],
    );
    assert_eq!(
        device.set_queue_addresses(0x1_0000_0002, 3, 0xffff_ffff_0000_0000),
        [
            RegisterWrite { address: base + 0x80, value: 2 },
            RegisterWrite { address: base + 0x84, value: 1 },
            RegisterWrite { address: base + 0x90, value: 3 },
            RegisterWrite { address: base + 0x94, value: 0 },
            RegisterWrite { address: base + 0xa0, value: 0 },
            RegisterWrite { address: base + 0xa4, value: 0xffff_ffff },
        ],
    );
}

#[test]
fn configuration_is_read_again_when_its_generation_changes() {
    let bytes = [1, 2, 3, 4, 5, 6, 7, 8];
    assert_eq!(VirtioMmioDevice::read_config_u64_le(5, &bytes, 5), Some(0x0807_0605_0403_0201));
    assert_eq!(VirtioMmioDevice::read_config_u64_le(5, &bytes, 6), None);
}

#[test]
fn queue_layouts() {
    let layout = VirtQueue::layout(4, false);
    assert_eq!(
        (layout.desc_offset, layout.avail_offset, layout.used_offset, layout.total_size),
        (0, 64, 76, 112),
    );
    let events = VirtQueue::layout(3, true);
    assert_eq!(
        (events.avail_offset, events.used_offset, events.total_size),
        (48, 60, 90),
    );
    assert_eq!(align_up(13, 4), 16);
    assert_eq!(align_up(16, 4), 16);
}

#[test]
fn queue_fields_have_their_places() {
    assert!(VirtQueue::from_ptr(0, 4, false).is_none());
    let queue = VirtQueue::from_ptr(0x1000, 4, true).unwrap();
    assert_eq!(queue.queue_size(), 4);
    assert!(queue.event_idx());
    assert_eq!(queue.descriptor_ptr(2), 0x1020);
    assert_eq!(queue.avail_flags_ptr(), 0x1040);
    assert_eq!(queue.avail_idx_ptr(), 0x1042);
    assert_eq!(queue.avail_ring_ptr(3), 0x104a);
    assert_eq!(queue.used_event_ptr(), Some(0x104c));
    assert_eq!(queue.used_flags_ptr(), 0x1050);
    assert_eq!(queue.used_idx_ptr(), 0x1052);
    assert_eq!(queue.used_ring_ptr(3), 0x106c);
    assert_eq!(queue.avail_event_ptr(), Some(0x1074));
    assert_eq!(queue.total_size(), 0x76);
    let plain = VirtQueue::from_ptr(0x1000, 4, false).unwrap();
    assert_eq!(plain.used_event_ptr(), None);
    assert_eq!(plain.avail_event_ptr(), None);
}

#[test]
fn block_device_is_brought_up() {
    let (last, writes) = set_up(BLOCK, 1, true, 8, 0x8_0000_1000);
    match last {
        SetupRequest::Ready(driver) => {
            assert_eq!(driver.sector_count(), 4096);
            assert_eq!(driver.queue_base, 0x8_0000_1000);
            assert_eq!((driver.avail_idx, driver.used_idx), (0, 0));
        }
        other => panic!("{other:?}"),
    }
    let base = 0x1000_1000;
    let statuses: Vec<u32> = writes
        .iter()
        .filter(|write| write.address == base + 0x70)
        .map(|write| write.value)
        .collect();
    assert_eq!(statuses, vec![0, 1, 3, 11, 15]);
    let addresses: Vec<(usize, u32)> = writes
        .iter()
        .filter(|write| (0x80..0xb0).contains(&(write.address - base)))
        .map(|write| (write.address - base, write.value))
        .collect();
    assert_eq!(
        addresses,
        vec![(0x80, 0x1000), (0x84, 8), (0x90, 0x1040), (0x94, 8), (0xa0, 0x104c), (0xa4, 8)],
    );
    assert_eq!(writes.last(), Some(&RegisterWrite { address: base + 0x70, value: 15 }));
    assert_eq!(SETUP_LINES, 31);
}

#[test]
fn refused_devices() {
    let refused = [
        (set_up(NETWORK, 1, true, 8, 0x1000), VirtioError::NotBlockDevice),
        (set_up(LEGACY, 1, true, 8, 0x1000), VirtioError::NotBlockDevice),
        (set_up(BLOCK, 2, true, 8, 0x1000), VirtioError::MissingVersion1),
        (set_up(BLOCK, 1, false, 8, 0x1000), VirtioError::FeatureNegotiationFailed),
        (set_up(BLOCK, 1, true, 3, 0x1000), VirtioError::QueueTooSmall),
        (set_up(BLOCK, 1, true, 8, 0), VirtioError::QueueCreationFailed),
    ];
    for ((last, writes), error) in refused {
        assert_eq!(last, SetupRequest::Failed(error));
        assert!(!writes.iter().any(|write| write.value & 4 != 0 && write.address == 0x1000_1070));
    }
}

fn driver() -> VirtioBlockDriver {
    match set_up(BLOCK, 1, true, 4, 0x1000).0 {
        SetupRequest::Ready(driver) => driver,
        other => panic!("{other:?}"),
    }
}

/// Carries a read out and returns how it ended, the driver then, and the actions.
fn carry_out(
    driver: VirtioBlockDriver,
    used_idx: u32,
    used_id: u32,
    status: u32,
) -> (Result<(), VirtioError>, VirtioBlockDriver, Vec<ReadAction>) {
    let mut read = BlockRead::new(driver, 7, 1024, PLACES).unwrap();
    let mut actions = Vec::new();
    loop {
        let action = read.action();
        let reply = match action {
            ReadAction::ReadUsedIdx(_) => used_idx,
            ReadAction::ReadUsedId(_) => used_id,
            ReadAction::ReadStatus(_) => status,
            ReadAction::Done(outcome) => return (outcome, read.driver, actions),
            _ => 0,
        };
        if actions.last() != Some(&action) {
            actions.push(action);
        }
        read.answer(reply);
    }
}

#[test]
fn sectors_are_asked_for_in_order() {
    let (outcome, after, actions) = carry_out(driver(), 1, 0, 0);
    assert_eq!(outcome, Ok(()));
    assert_eq!((after.avail_idx, after.used_idx), (1, 1));
    assert_eq!(actions.len(), 14);
    assert!(matches!(actions[0], ReadAction::WriteHeader(0x100, header) if header.sector == 7));
    assert_eq!(actions[1], ReadAction::WriteStatus(0x180, 0xff));
    match (actions[2], actions[3], actions[4]) {
        (
            ReadAction::WriteDescriptor(0x1000, first),
            ReadAction::WriteDescriptor(0x1010, second),
            ReadAction::WriteDescriptor(0x1020, third),
        ) => {
            assert_eq!((first.addr, first.len, first.flags, first.next), (0x100, 16, 1, 1));
            assert_eq!((second.addr, second.len, second.flags, second.next), (0x2000, 1024, 3, 2));
            assert_eq!((third.addr, third.len, third.flags, third.next), (0x180, 1, 2, 0));
        }
        other => panic!("{other:?}"),
    }
    assert_eq!(actions[5], ReadAction::WriteRing(0x1044, 0));
    assert_eq!(actions[6], ReadAction::Fence);
    assert_eq!(actions[7], ReadAction::WriteRing(0x1042, 1));
    assert_eq!(actions[8], ReadAction::Fence);
    assert_eq!(
        actions[9],
        ReadAction::Notify(RegisterWrite { address: 0x1000_1050, value: 0 }),
    );
    assert_eq!(actions[10], ReadAction::ReadUsedIdx(0x104e));
    assert_eq!(actions[11], ReadAction::Fence);
    assert_eq!(actions[12], ReadAction::ReadUsedId(0x1050));
    assert_eq!(actions[13], ReadAction::ReadStatus(0x180));
}

#[test]
fn ring_slots_wrap_around() {
    let mut driver = driver();
    for round in 0..9u32 {
        let (outcome, after, actions) = carry_out(driver, round + 1, 0, 0);
        assert_eq!(outcome, Ok(()));
        let slot = (round % 4) as usize;
        assert_eq!(actions[5], ReadAction::WriteRing(0x1044 + 2 * slot, 0));
        assert_eq!(actions[12], ReadAction::ReadUsedId(0x1050 + 8 * slot));
        driver = after;
    }
    driver.avail_idx = u16::MAX;
    driver.used_idx = u16::MAX;
    let (outcome, after, _) = carry_out(driver, 0, 0, 0);
    assert_eq!(outcome, Ok(()));
    assert_eq!((after.avail_idx, after.used_idx), (0, 0));
}

#[test]
fn failed_reads() {
    let (timeout, after, _) = carry_out(driver(), 0, 0, 0);
    assert_eq!(timeout, Err(VirtioError::RequestTimeout));
    assert_eq!((after.avail_idx, after.used_idx), (1, 0));
    assert_eq!(carry_out(driver(), 1, 3, 0).0, Err(VirtioError::UnexpectedUsedId(3)));
    assert_eq!(carry_out(driver(), 1, 0, 2).0, Err(VirtioError::BlockRequestFailed(2)));
    for length in [0, 511, 513] {
        assert_eq!(
            BlockRead::new(driver(), 0, length, PLACES).err(),
            Some(VirtioError::InvalidBufferLength),
        );
    }
}

#[test]
fn polling_ends_at_the_limit() {
    let driver = driver();
    assert_eq!(driver.poll(0, 0), PollStep::Wait);
    assert_eq!(driver.poll(0, VIRTIO_BLOCK_REQUEST_POLL_LIMIT - 1), PollStep::Wait);
    assert_eq!(driver.poll(0, VIRTIO_BLOCK_REQUEST_POLL_LIMIT), PollStep::TimedOut);
    assert_eq!(driver.poll(1, VIRTIO_BLOCK_REQUEST_POLL_LIMIT), PollStep::Finished);
    let mut taking = driver;
    assert_eq!(taking.take_used(VirtqUsedElem { id: 0, len: 5 }), Ok(()));
    assert_eq!(taking.used_slot(), 1);
}
