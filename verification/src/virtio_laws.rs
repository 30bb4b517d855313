//! What a VirtIO block device sees of its driver.
//!
//! A model of the device takes the register writes and the memory that the driver asks for,
//! in their order. It tells what the device knows when the driver declares itself ready, and
//! what it finds when it is notified of a request.

use vstd::prelude::*;
use crate::virtio::VirtioError;
use crate::virtio_block::{
    buffer_fits, line_fault, next_index, read_after, ready_when_replies_are_in_order, setup_after,
    setup_line, BlockRead, DriverSetup, ReadAction, ReadStage, RequestPlaces, SetupLine,
    SetupRequest, VirtioBlkReqHeader, VirtioBlockDriver, SETUP_LINES,
};
use crate::virtio_mmio::{block_slot_from, DeviceIdentity, VirtioMmioDevice};
use crate::virtqueue::{queue_layout, rings_are_apart, VirtqDescriptor};

verus! {

/// What a block device has been told, and what it has told.
pub struct DeviceState {
    /// Identity registers that were read: magic, version and device identifier.
    pub identity: (Option<u64>, Option<u64>, Option<u64>),
    /// Number of sectors that was read.
    pub capacity: Option<u64>,
    /// Page of device features that is shown.
    pub shown_page: Option<u32>,
    /// Second page of device features that was read.
    pub offered: Option<u64>,
    /// Page of driver features that is written.
    pub written_page: Option<u32>,
    /// Driver features that were accepted, by page.
    pub accepted: (Option<u32>, Option<u32>),
    /// Whether the device has kept FEATURES_OK since the features were accepted.
    pub agreed: bool,
    /// Queue that the queue registers belong to.
    pub queue: Option<u32>,
    /// Largest size of queue zero that was read.
    pub queue_max: Option<u64>,
    /// Whether the memory of the queue holds zeros.
    pub cleared: bool,
    /// Size of queue zero.
    pub queue_size: Option<u32>,
    /// Halves of the addresses of the rings of queue zero.
    pub descriptors: (Option<u32>, Option<u32>),
    pub available: (Option<u32>, Option<u32>),
    pub used: (Option<u32>, Option<u32>),
    /// Whether queue zero is enabled.
    pub enabled: bool,
}

/// A device of which nothing is known.
pub open spec fn unknown_device() -> DeviceState {
    DeviceState {
        identity: (None, None, None),
        capacity: None,
        shown_page: None,
        offered: None,
        written_page: None,
        accepted: (None, None),
        agreed: false,
        queue: None,
        queue_max: None,
        cleared: false,
        queue_size: None,
        descriptors: (None, None),
        available: (None, None),
        used: (None, None),
        enabled: false,
    }
}

/// The device after the register at an offset was written. A status of zero resets it.
pub open spec fn register_written(state: DeviceState, offset: int, value: u32) -> DeviceState {
    let chosen = state.queue == Some(0u32);
    if offset == 0x070 && value == 0 {
        DeviceState { identity: state.identity, capacity: state.capacity, ..unknown_device() }
    } else if offset == 0x014 {
        DeviceState { shown_page: Some(value), ..state }
    } else if offset == 0x024 {
        DeviceState { written_page: Some(value), ..state }
    } else if offset == 0x020 && state.written_page == Some(0u32) {
        DeviceState { accepted: (Some(value), state.accepted.1), agreed: false, ..state }
    } else if offset == 0x020 && state.written_page == Some(1u32) {
        DeviceState { accepted: (state.accepted.0, Some(value)), agreed: false, ..state }
    } else if offset == 0x030 {
        DeviceState { queue: Some(value), ..state }
    } else if offset == 0x038 && chosen {
        DeviceState { queue_size: Some(value), ..state }
    } else if offset == 0x044 && chosen {
        DeviceState { enabled: value == 1, ..state }
    } else if offset == 0x080 && chosen {
        DeviceState { descriptors: (Some(value), state.descriptors.1), ..state }
    } else if offset == 0x084 && chosen {
        DeviceState { descriptors: (state.descriptors.0, Some(value)), ..state }
    } else if offset == 0x090 && chosen {
        DeviceState { available: (Some(value), state.available.1), ..state }
    } else if offset == 0x094 && chosen {
        DeviceState { available: (state.available.0, Some(value)), ..state }
    } else if offset == 0x0a0 && chosen {
        DeviceState { used: (Some(value), state.used.1), ..state }
    } else if offset == 0x0a4 && chosen {
        DeviceState { used: (state.used.0, Some(value)), ..state }
    } else {
        state
    }
}

/// The device after the register at an offset was read with a given reply.
pub open spec fn register_read(state: DeviceState, offset: int, reply: u64) -> DeviceState {
    if offset == 0x000 {
        DeviceState { identity: (Some(reply), state.identity.1, state.identity.2), ..state }
    } else if offset == 0x004 {
        DeviceState { identity: (state.identity.0, Some(reply), state.identity.2), ..state }
    } else if offset == 0x008 {
        DeviceState { identity: (state.identity.0, state.identity.1, Some(reply)), ..state }
    } else if offset == 0x010 && state.shown_page == Some(1u32) {
        DeviceState { offered: Some(reply), ..state }
    } else if offset == 0x034 && state.queue == Some(0u32) {
        DeviceState { queue_max: Some(reply), ..state }
    } else if offset == 0x070 && state.accepted == (Some(0u32), Some(1u32)) && state.queue is None {
        DeviceState { agreed: (reply as u32) & 8 != 0, ..state }
    } else {
        state
    }
}

/// The device after a request of the driver was carried out, with the reply to it.
pub open spec fn carried_out(state: DeviceState, base: int, request: SetupRequest, reply: u64) -> DeviceState {
    match request {
        SetupRequest::Read(address) => register_read(state, address - base, reply),
        SetupRequest::ReadConfig(address) => if address == base + 0x100 {
            DeviceState { capacity: Some(reply), ..state }
        } else {
            state
        },
        SetupRequest::Write(write) => register_written(state, write.address - base, write.value),
        SetupRequest::ClearQueue => DeviceState { cleared: true, ..state },
        SetupRequest::Ready(_) | SetupRequest::Failed(_) => state,
    }
}

/// The device after the driver has got as many replies.
pub open spec fn device_after(device: VirtioMmioDevice, queue_base: usize, replies: Seq<u64>) -> DeviceState
    decreases replies.len(),
{
    if replies.len() == 0 {
        unknown_device()
    } else {
        let earlier = replies.drop_last();
        carried_out(
            device_after(device, queue_base, earlier),
            device.address() as int,
            setup_after(DriverSetup::begun(device, queue_base), earlier).wanted(),
            replies.last(),
        )
    }
}

/// Whether the halves of an address are those of `address`.
pub open spec fn halves_of(halves: (Option<u32>, Option<u32>), address: int) -> bool {
    halves.0 matches Some(low) && halves.1 matches Some(high) && high * 0x1_0000_0000 + low
        == address
}

/// Whether a device is a VirtIO block device that has agreed to version 1 and nothing else,
/// and has a cleared queue zero of four entries at an address, enabled.
pub open spec fn device_is_set_up(state: DeviceState, queue_base: int) -> bool {
    &&& state.identity == (Some(0x7472_6976u64), Some(2u64), Some(2u64))
    &&& state.capacity is Some
    &&& state.offered matches Some(features) && (features as u32) & 1 != 0
    &&& state.accepted == (Some(0u32), Some(1u32))
    &&& state.agreed
    &&& state.queue == Some(0u32)
    &&& state.queue_max matches Some(size) && size >= 4
    &&& state.cleared
    &&& state.queue_size == Some(4u32)
    &&& halves_of(state.descriptors, queue_base)
    &&& halves_of(state.available, queue_base + 64)
    &&& halves_of(state.used, queue_base + 76)
    &&& state.enabled
}

/// What is known of the device when a line is reached.
spec fn known_at(state: DeviceState, setup: DriverSetup) -> bool {
    let line = setup.line;
    let base = setup.queue_base;
    &&& line >= 1 ==> state.identity.0 == Some(0x7472_6976u64)
    &&& line >= 2 ==> state.identity.1 == Some(2u64)
    &&& line >= 3 ==> state.identity.2 == Some(2u64)
    &&& line >= 4 ==> state.capacity == Some(setup.capacity_sectors)
    &&& 5 <= line < 19 ==> state.queue is None
    &&& line >= 10 ==> state.shown_page == Some(1u32)
    &&& line >= 11 ==> (state.offered matches Some(features) && (features as u32) & 1 != 0)
    &&& 12 <= line < 14 ==> state.written_page == Some(0u32)
    &&& line >= 14 ==> state.written_page == Some(1u32)
    &&& line >= 13 ==> state.accepted.0 == Some(0u32)
    &&& line >= 15 ==> state.accepted.1 == Some(1u32)
    &&& line >= 18 ==> state.agreed
    &&& line >= 19 ==> state.queue == Some(0u32)
    &&& line >= 20 ==> (state.queue_max matches Some(size) && size >= 4)
    &&& line >= 21 ==> state.cleared
    &&& line >= 22 ==> state.queue_size == Some(4u32)
    &&& line >= 23 ==> state.descriptors.0 == Some((base as u64 % 0x1_0000_0000) as u32)
    &&& line >= 24 ==> halves_of(state.descriptors, base as int)
    &&& line >= 25 ==> state.available.0 == Some(((base + 64) as u64 % 0x1_0000_0000) as u32)
    &&& line >= 26 ==> halves_of(state.available, base + 64)
    &&& line >= 27 ==> state.used.0 == Some(((base + 76) as u64 % 0x1_0000_0000) as u32)
    &&& line >= 28 ==> halves_of(state.used, base + 76)
    &&& line >= 29 ==> state.enabled
}

/// A status with one more bit is no reset.
proof fn status_is_no_reset(status: u32)
    ensures
        status | 1 != 0,
        status | 2 != 0,
        status | 4 != 0,
        status | 8 != 0,
{
    assert(status | 1 != 0 && status | 2 != 0 && status | 4 != 0 && status | 8 != 0)
        by (bit_vector);
}

#[verifier::spinoff_prover]
#[verifier::rlimit(60)]
proof fn line_is_known(state: DeviceState, setup: DriverSetup, reply: u64)
    requires
        setup.well_formed(),
        setup.failure is None,
        setup.line < SETUP_LINES,
        setup.answered(reply).failure is None,
        known_at(state, setup),
    ensures
        known_at(
            carried_out(state, setup.device.address() as int, setup.wanted(), reply),
            setup.answered(reply),
        ),
{
    status_is_no_reset(setup.status);
    let line = setup_line(setup.queue_base, setup.line as int);
    let base = setup.queue_base as int;
    assert(base as u64 == (base as u64 / 0x1_0000_0000) * 0x1_0000_0000 + base as u64
        % 0x1_0000_0000);
    if setup.line < 10 {
    } else if setup.line < 19 {
    } else if setup.line < 22 {
    } else if setup.line == 22 {
    } else if setup.line == 23 {
    } else if setup.line == 24 {
    } else if setup.line == 25 {
    } else if setup.line == 26 {
    } else if setup.line == 27 {
    } else {
    }
}

proof fn device_is_known(device: VirtioMmioDevice, queue_base: usize, replies: Seq<u64>)
    requires
        device.well_formed(),
        queue_base <= usize::MAX - 4096,
        replies.len() <= SETUP_LINES,
    ensures
        ({
            let setup = setup_after(DriverSetup::begun(device, queue_base), replies);
            setup.failure is None ==> setup.line == replies.len() && setup.device == device
                && setup.queue_base == queue_base && known_at(
                device_after(device, queue_base, replies),
                setup,
            )
        }),
    decreases replies.len(),
{
    ready_when_replies_are_in_order(device, queue_base, replies);
    if replies.len() > 0 {
        let earlier = replies.drop_last();
        device_is_known(device, queue_base, earlier);
        ready_when_replies_are_in_order(device, queue_base, earlier);
        let before = setup_after(DriverSetup::begun(device, queue_base), earlier);
        let setup = setup_after(DriverSetup::begun(device, queue_base), replies);
        assert(setup == before.answered(replies.last()));
        if setup.failure is None {
            line_is_known(device_after(device, queue_base, earlier), before, replies.last());
        }
    }
}

/// When a driver is ready, the device that carried out its requests is set up: it is a block
/// device that agreed to version 1, and queue zero is enabled with its size and the places of
/// its rings. All of this was so before the last request, which declared the driver ready.
pub proof fn ready_device_is_set_up(device: VirtioMmioDevice, queue_base: usize, replies: Seq<u64>)
    requires
        device.well_formed(),
        queue_base <= usize::MAX - 4096,
        replies.len() <= SETUP_LINES,
        setup_after(DriverSetup::begun(device, queue_base), replies).wanted() is Ready,
    ensures
        replies.len() > 0,
        device_is_set_up(device_after(device, queue_base, replies), queue_base as int),
        device_is_set_up(device_after(device, queue_base, replies.drop_last()), queue_base as int),
        setup_after(DriverSetup::begun(device, queue_base), replies.drop_last()).wanted() matches SetupRequest::Write(
            write,
        ) && write.address == device.address() + 0x070 && write.value & 4 == 4,
        setup_after(DriverSetup::begun(device, queue_base), replies).wanted() matches SetupRequest::Ready(
            driver,
        ) && driver.device == device && driver.queue_base == queue_base && Some(
            driver.capacity_sectors,
        ) == device_after(device, queue_base, replies).capacity && driver.avail_idx == 0
            && driver.used_idx == 0,
{
    device_is_known(device, queue_base, replies);
    ready_when_replies_are_in_order(device, queue_base, replies);
    let earlier = replies.drop_last();
    device_is_known(device, queue_base, earlier);
    ready_when_replies_are_in_order(device, queue_base, earlier);
    let before = setup_after(DriverSetup::begun(device, queue_base), earlier);
    let setup = setup_after(DriverSetup::begun(device, queue_base), replies);
    assert(setup == before.answered(replies.last()));
    assert(before.failure is None);
    assert(before.line == 30);
    assert(setup_line(queue_base, 30) == SetupLine::PutStatus { bits: 4 });
    let status = before.status;
    assert((status | 4) & 4 == 4) by (bit_vector);
}

/// What a device finds in the memory that it shares with its driver.
pub struct SharedState {
    /// Request headers by address.
    pub headers: Map<u64, VirtioBlkReqHeader>,
    /// Status bytes by address.
    pub statuses: Map<u64, u8>,
    /// Descriptors by address.
    pub descriptors: Map<int, VirtqDescriptor>,
    /// Words of the rings by address.
    pub words: Map<int, u16>,
    /// Whether everything that was written is ordered before what is written next.
    pub ordered: bool,
    /// Index of the available ring and whether all before it was ordered, once it was written.
    pub published: Option<(u16, bool)>,
    /// Register write that notified the device, and whether all before it was ordered.
    pub notified: Option<(int, u32, bool)>,
    /// Index of the used ring that was read last.
    pub used_index: Option<u32>,
    /// How often the index of the used ring was read.
    pub polls: nat,
    /// Head of the chain that the device returned.
    pub used_id: Option<u32>,
    /// Status byte that was read.
    pub status: Option<u32>,
}

/// Memory in which nothing is known.
pub open spec fn unknown_memory() -> SharedState {
    SharedState {
        headers: Map::empty(),
        statuses: Map::empty(),
        descriptors: Map::empty(),
        words: Map::empty(),
        ordered: true,
        published: None,
        notified: None,
        used_index: None,
        polls: 0,
        used_id: None,
        status: None,
    }
}

/// The memory after an action of a read was carried out, with the reply to it. The queue is at
/// `queue_base`, with the available ring at 64 and the used ring at 76 bytes.
pub open spec fn shared_after(
    state: SharedState,
    queue_base: int,
    used_slot: int,
    status_place: u64,
    action: ReadAction,
    reply: u32,
) -> SharedState {
    match action {
        ReadAction::WriteHeader(address, header) => SharedState {
            headers: state.headers.insert(address, header),
            ordered: false,
            ..state
        },
        ReadAction::WriteStatus(address, status) => SharedState {
            statuses: state.statuses.insert(address, status),
            ordered: false,
            ..state
        },
        ReadAction::WriteDescriptor(address, descriptor) => SharedState {
            descriptors: state.descriptors.insert(address as int, descriptor),
            ordered: false,
            ..state
        },
        ReadAction::WriteRing(address, value) => SharedState {
            words: state.words.insert(address as int, value),
            published: if address == queue_base + 64 + 2 {
                Some((value, state.ordered))
            } else {
                state.published
            },
            ordered: false,
            ..state
        },
        ReadAction::Fence => SharedState { ordered: true, ..state },
        ReadAction::Notify(write) => SharedState {
            notified: Some((write.address as int, write.value, state.ordered)),
            ..state
        },
        ReadAction::ReadUsedIdx(address) => if address == queue_base + 76 + 2 {
            SharedState {
                used_index: Some(reply),
                polls: state.polls + 1,
                ordered: false,
                ..state
            }
        } else {
            state
        },
        ReadAction::ReadUsedId(address) => if address == queue_base + 76 + 4 + 8 * used_slot
            && state.ordered {
            SharedState { used_id: Some(reply), ..state }
        } else {
            state
        },
        ReadAction::ReadStatus(address) => if address == status_place {
            SharedState { status: Some(reply), ..state }
        } else {
            state
        },
        ReadAction::Done(_) => state,
    }
}

/// The memory after a read has got as many replies.
pub open spec fn memory_after(
    driver: VirtioBlockDriver,
    sector: u64,
    buffer_len: usize,
    places: RequestPlaces,
    replies: Seq<u32>,
) -> SharedState
    decreases replies.len(),
{
    if replies.len() == 0 {
        unknown_memory()
    } else {
        let earlier = replies.drop_last();
        shared_after(
            memory_after(driver, sector, buffer_len, places, earlier),
            driver.queue_base as int,
            driver.used_idx as int % 4,
            places.status,
            read_after(BlockRead::begun(driver, sector, buffer_len, places), earlier).wanted(),
            replies.last(),
        )
    }
}

/// Whether a descriptor is followed by another one.
pub open spec fn goes_on(descriptor: VirtqDescriptor) -> bool {
    descriptor.flags as int % 2 == 1
}

/// Whether the device writes to the buffer of a descriptor.
pub open spec fn is_written(descriptor: VirtqDescriptor) -> bool {
    descriptor.flags as int / 2 % 2 == 1
}

/// Whether a device that looks for requests in a queue finds one in the slot of the available
/// ring behind `before` requests: a chain of a header that it reads, which asks for sectors,
/// a buffer that it writes, and a status byte that it writes.
pub open spec fn request_is_there(
    state: SharedState,
    queue_base: int,
    before: int,
    sector: u64,
    buffer_len: int,
    places: RequestPlaces,
) -> bool {
    let slot = queue_base + 64 + 4 + 2 * (before % 4);
    let head = state.words[slot] as int;
    let first = state.descriptors[queue_base + 16 * head];
    let second = state.descriptors[queue_base + 16 * first.next];
    let third = state.descriptors[queue_base + 16 * second.next];
    &&& state.words.dom().contains(slot)
    &&& state.descriptors.dom().contains(queue_base + 16 * head)
    &&& state.descriptors.dom().contains(queue_base + 16 * first.next)
    &&& state.descriptors.dom().contains(queue_base + 16 * second.next)
    &&& head < 4 && first.next < 4 && second.next < 4
    &&& head != first.next && first.next != second.next && head != second.next
    &&& first.addr == places.header && first.len == 16 && goes_on(first) && !is_written(first)
    &&& second.addr == places.buffer && second.len == buffer_len && goes_on(second) && is_written(
        second,
    )
    &&& third.addr == places.status && third.len == 1 && !goes_on(third) && is_written(third)
    &&& first.flags < 4 && second.flags < 4 && third.flags < 4
    &&& state.headers.dom().contains(places.header)
    &&& state.headers[places.header].request_type == 0
    &&& state.headers[places.header].reserved == 0
    &&& state.headers[places.header].sector == sector
    &&& state.statuses.dom().contains(places.status)
    &&& state.statuses[places.status] != 0
}

/// The number of a stage in the order in which they come.
spec fn stage_number(stage: ReadStage) -> int {
    match stage {
        ReadStage::Header => 0,
        ReadStage::Status => 1,
        ReadStage::First => 2,
        ReadStage::Second => 3,
        ReadStage::Third => 4,
        ReadStage::Ring => 5,
        ReadStage::RingFence => 6,
        ReadStage::Index => 7,
        ReadStage::IndexFence => 8,
        ReadStage::Notify => 9,
        ReadStage::Poll => 10,
        ReadStage::UsedFence => 11,
        ReadStage::Used => 12,
        ReadStage::Outcome => 13,
        ReadStage::Ended => 14,
    }
}

/// What is known of the memory when a stage is reached.
spec fn memory_at(
    state: SharedState,
    read: BlockRead,
    driver: VirtioBlockDriver,
    sector: u64,
    buffer_len: usize,
    places: RequestPlaces,
) -> bool {
    let stage = stage_number(read.stage);
    let base = driver.queue_base as int;
    &&& read.places == places
    &&& read.request == BlockRead::begun(driver, sector, buffer_len, places).request
    &&& read.driver.device == driver.device
    &&& read.driver.queue_base == driver.queue_base
    &&& stage < 13 ==> read.driver.used_idx == driver.used_idx
    &&& stage >= 1 ==> state.headers.dom().contains(places.header) && state.headers[places.header]
        == read.request.header
    &&& stage >= 2 ==> state.statuses.dom().contains(places.status) && state.statuses[places.status]
        == 0xff
    &&& stage >= 3 ==> state.descriptors.dom().contains(base) && state.descriptors[base]
        == read.request.first
    &&& stage >= 4 ==> state.descriptors.dom().contains(base + 16) && state.descriptors[base + 16]
        == read.request.second
    &&& stage >= 5 ==> state.descriptors.dom().contains(base + 32) && state.descriptors[base + 32]
        == read.request.third
    &&& stage >= 6 ==> state.words.dom().contains(base + 68 + 2 * (driver.avail_idx as int % 4))
        && state.words[base + 68 + 2 * (driver.avail_idx as int % 4)] == 0
    &&& stage < 8 ==> state.published is None
    &&& stage == 7 ==> state.ordered
    &&& stage >= 8 ==> state.published == Some((read.request.avail_idx, true))
    &&& stage < 10 ==> state.notified is None
    &&& stage == 9 ==> state.ordered
    &&& stage >= 10 ==> state.notified == Some((driver.device.address() + 0x050, 0u32, true))
    &&& stage < 10 ==> read.spins == 0
    &&& stage < 10 ==> state.polls == 0
    &&& stage == 10 ==> state.polls == read.spins && read.spins <= 10_000_000
    &&& stage == 10 && read.spins > 0 ==> state.used_index == Some(driver.used_idx as u32)
    &&& 11 <= stage < 14 ==> (state.used_index matches Some(index) && index != driver.used_idx)
    &&& stage == 12 ==> state.ordered
    &&& stage < 13 ==> state.used_id is None
    &&& stage < 14 ==> state.status is None && read.outcome is Ok
    &&& stage == 13 ==> state.used_id == Some(0u32)
    &&& stage == 14 ==> match read.outcome {
        Ok(_) => state.used_index matches Some(index) && index != driver.used_idx && state.used_id
            == Some(0u32) && state.status == Some(0u32),
        Err(VirtioError::RequestTimeout) => state.used_index == Some(driver.used_idx as u32)
            && state.polls == 10_000_001 && state.used_id is None,
        Err(VirtioError::UnexpectedUsedId(id)) => state.used_id == Some(id) && id != 0,
        Err(VirtioError::BlockRequestFailed(status)) => state.used_id == Some(0u32) && (
        state.status matches Some(byte) && byte != 0 && status == byte as u8),
        _ => false,
    }
}

#[verifier::spinoff_prover]
#[verifier::rlimit(60)]
proof fn stage_is_known(
    state: SharedState,
    read: BlockRead,
    driver: VirtioBlockDriver,
    sector: u64,
    buffer_len: usize,
    places: RequestPlaces,
    reply: u32,
)
    requires
        driver.well_formed(),
        memory_at(state, read, driver, sector, buffer_len, places),
    ensures
        memory_at(
            shared_after(
                state,
                driver.queue_base as int,
                driver.used_idx as int % 4,
                places.status,
                read.wanted(),
                reply,
            ),
            read.answered(reply),
            driver,
            sector,
            buffer_len,
            places,
        ),
{
}

proof fn memory_is_known(
    driver: VirtioBlockDriver,
    sector: u64,
    buffer_len: usize,
    places: RequestPlaces,
    replies: Seq<u32>,
)
    requires
        driver.well_formed(),
    ensures
        memory_at(
            memory_after(driver, sector, buffer_len, places, replies),
            read_after(BlockRead::begun(driver, sector, buffer_len, places), replies),
            driver,
            sector,
            buffer_len,
            places,
        ),
    decreases replies.len(),
{
    if replies.len() > 0 {
        let earlier = replies.drop_last();
        memory_is_known(driver, sector, buffer_len, places, earlier);
        stage_is_known(
            memory_after(driver, sector, buffer_len, places, earlier),
            read_after(BlockRead::begun(driver, sector, buffer_len, places), earlier),
            driver,
            sector,
            buffer_len,
            places,
            replies.last(),
        );
    }
}

/// A device that is notified of a request finds it: the index of the available ring is one
/// more than before, and the slot that it makes available heads a chain that asks for the
/// sectors. The index was written when all else was ordered before it, and the device was
/// notified, at the register for that, when the index was.
pub proof fn notified_device_finds_request(
    driver: VirtioBlockDriver,
    sector: u64,
    buffer_len: usize,
    places: RequestPlaces,
    replies: Seq<u32>,
)
    requires
        driver.well_formed(),
        buffer_fits(buffer_len),
        memory_after(driver, sector, buffer_len, places, replies).notified is Some,
    ensures
        ({
            let state = memory_after(driver, sector, buffer_len, places, replies);
            &&& state.notified == Some((driver.device.address() + 0x050, 0u32, true))
            &&& state.published matches Some((index, ordered)) && ordered && index
                == (driver.avail_idx + 1) % 65536
            &&& request_is_there(
                state,
                driver.queue_base as int,
                driver.avail_idx as int,
                sector,
                buffer_len as int,
                places,
            )
        }),
{
    memory_is_known(driver, sector, buffer_len, places, replies);
    assert(1u16 as int % 2 == 1 && 3u16 as int / 2 % 2 == 1 && 2u16 as int / 2 % 2 == 1);
}

/// A read succeeds only when the device has returned the chain and reported success; each
/// error tells what the device did instead. Nothing else ends a read.
pub proof fn ended_read_tells_outcome(
    driver: VirtioBlockDriver,
    sector: u64,
    buffer_len: usize,
    places: RequestPlaces,
    replies: Seq<u32>,
)
    requires
        driver.well_formed(),
    ensures
        ({
            let state = memory_after(driver, sector, buffer_len, places, replies);
            let read = read_after(BlockRead::begun(driver, sector, buffer_len, places), replies);
            read.wanted() matches ReadAction::Done(outcome) ==> state.notified is Some
                && match outcome {
                Ok(_) => state.used_index != Some(driver.used_idx as u32) && state.used_id == Some(
                    0u32,
                ) && state.status == Some(0u32),
                Err(VirtioError::RequestTimeout) => state.used_index == Some(
                    driver.used_idx as u32,
                ) && state.polls == 10_000_001,
                Err(VirtioError::UnexpectedUsedId(id)) => state.used_id == Some(id) && id != 0,
                Err(VirtioError::BlockRequestFailed(status)) => state.used_id == Some(0u32) && (
                state.status matches Some(byte) && byte != 0 && status == byte as u8),
                _ => false,
            }
        }),
{
    memory_is_known(driver, sector, buffer_len, places, replies);
}

/// A read is begun exactly for a whole number of sectors of 512 bytes, one at least, whose
/// length fits into 32 bits.
pub proof fn whole_sectors_are_read(buffer_len: usize)
    ensures
        buffer_fits(buffer_len) <==> exists|count: int|
            count > 0 && buffer_len == #[trigger] (count * 512) && buffer_len <= 0xffff_ffff,
{
    if buffer_fits(buffer_len) {
        let count = buffer_len as int / 512;
        assert(buffer_len == count * 512);
    }
}

/// A device that replies as a block device does is brought up: after as many replies as there
/// are requests the driver is ready, with the capacity that the device told.
pub proof fn proper_device_is_brought_up(
    device: VirtioMmioDevice,
    queue_base: usize,
    replies: Seq<u64>,
)
    requires
        queue_base != 0,
        replies.len() == 31,
        replies[0] == 0x7472_6976,
        replies[1] == 2,
        replies[2] == 2,
        (replies[10] as u32) & 1 != 0,
        (replies[17] as u32) & 8 != 0,
        replies[19] >= 4,
    ensures
        setup_after(DriverSetup::begun(device, queue_base), replies).wanted() matches SetupRequest::Ready(
            driver,
        ) && driver.capacity_sectors == replies[3] && driver.queue_base == queue_base
            && driver.device == device,
{
    ready_when_replies_are_in_order(device, queue_base, replies);
    assert forall|i: int| 0 <= i < replies.len() implies line_fault(
        setup_line(queue_base, i),
        queue_base,
        #[trigger] replies[i],
    ) is None by {}
}

/// The block device that is found next is the first one at or behind a slot whose registers
/// spell `virt`, have version 2 and name a block device.
pub proof fn next_block_device_is_found(identities: Seq<DeviceIdentity>, from: int)
    requires
        0 <= from,
    ensures
        match block_slot_from(identities, from) {
            Some(slot) => from <= slot < identities.len() && names_block_device(identities[slot])
                && forall|i: int| from <= i < slot ==> !names_block_device(#[trigger] identities[i]),
            None => forall|i: int|
                from <= i < identities.len() ==> !names_block_device(#[trigger] identities[i]),
        },
    decreases identities.len() - from,
{
    if from < identities.len() {
        next_block_device_is_found(identities, from + 1);
    }
}

/// Whether identity registers are those of a block device.
pub open spec fn names_block_device(identity: DeviceIdentity) -> bool {
    &&& identity.magic == 0x76 + 0x69 * 0x100 + 0x72 * 0x1_0000 + 0x74 * 0x100_0000
    &&& identity.version == 2
    &&& identity.device_id == 2
}

/// A 64-bit register is written as two halves side by side, which make up the number.
pub proof fn halves_make_up_number(device: VirtioMmioDevice, offset: int, value: u64)
    requires
        device.well_formed(),
        0 <= offset <= 0xff8,
    ensures
        device.half_write(offset, value, false).address == device.address() + offset,
        device.half_write(offset, value, true).address == device.half_write(
            offset,
            value,
            false,
        ).address + 4,
        device.half_write(offset, value, true).value * 0x1_0000_0000 + device.half_write(
            offset,
            value,
            false,
        ).value == value,
{
}

/// The indices of the rings run through all 16-bit numbers and start again at zero.
pub proof fn indices_run_through_all_numbers(index: u16)
    ensures
        next_index(index) == (index + 1) % 0x1_0000,
{
}

/// A queue begins with 16 bytes for each descriptor. Behind them stand flags, index and two
/// bytes for each entry of the available ring. At the next multiple of four stand flags, index
/// and eight bytes for each element of the used ring. With event indices each ring has two
/// bytes more.
pub proof fn queue_has_its_parts(queue_size: u16, event_idx: bool)
    ensures
        ({
            let layout = queue_layout(queue_size, event_idx);
            let event: int = if event_idx {
                2
            } else {
                0
            };
            &&& layout.queue_size == queue_size && layout.event_idx == event_idx
            &&& layout.desc_offset == 0
            &&& layout.avail_offset == 16 * queue_size
            &&& layout.used_offset % 4 == 0
            &&& 18 * queue_size + 4 + event <= layout.used_offset < 18 * queue_size + 8 + event
            &&& layout.total_size == layout.used_offset + 4 + 8 * queue_size + event
        }),
{
    rings_are_apart(queue_size, event_idx);
}

} // verus!
