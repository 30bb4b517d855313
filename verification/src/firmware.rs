//! Firmware entry: relocation of the image, and the partitions that are tried for a
//! boot.

use vstd::prelude::*;
use crate::bytes::window;
use crate::devicetree::MemoryRegion;
use crate::ext4::Ext4Volume;
use crate::ext4_format::superblock_layout;
use crate::fat::{boot_layout, FatVolume};
use crate::gpt::{
    backup_header, entry_bytes, entry_decodes, header_in_range, read_partition_entry,
    read_table_header, table_header, GptHeader, GptPartitionEntry,
};
use crate::linux::{
    attempt_kept, boot_map, ext4_holding, fat_holding, try_boot_from_partition, BootOutcome,
    LinuxBootFilesystem, PartitionAttempt,
};
use crate::memory::{
    allocation, page_allocator_from_live_fdt, FirmwareRanges, EFI_ALLOCATE_TYPE, EFI_MEMORY_TYPE,
    EMPTY_MEMORY_DESCRIPTOR,
};
use crate::memory_map::EFI_MEMORY_DESCRIPTOR;
use crate::partition::PartitionEntry;
use crate::virtio::{sector_at, BlockDevice, VirtioError};

verus! {

/// OpenSBI loads the primary firmware image at this physical address on QEMU virt.
pub const PRIMARY_FIRMWARE_LOAD_ADDRESS: usize = 0x8020_0000;

/// Returns the top address of the firmware-owned stack.
pub fn stack_top() -> (address: usize)
    ensures
        address == PRIMARY_FIRMWARE_LOAD_ADDRESS,
{
    PRIMARY_FIRMWARE_LOAD_ADDRESS
}

/// Tells whether an image that runs at `runtime_base` has to be relocated: only the
/// primary image is.
pub fn needs_relocation(runtime_base: usize) -> (answer: bool)
    ensures
        answer == (runtime_base == PRIMARY_FIRMWARE_LOAD_ADDRESS),
{
    runtime_base == PRIMARY_FIRMWARE_LOAD_ADDRESS
}

/// Where a firmware image of `runtime_size` bytes is relocated to: the highest free
/// pages of the memory that the device tree at `address` describes.
pub open spec fn relocation_place(
    address: usize,
    memory: Seq<u8>,
    firmware: FirmwareRanges,
    runtime_size: usize,
) -> Option<u64> {
    match boot_map(address, memory, firmware) {
        None => None,
        Some(map) => match allocation(
            map,
            EFI_ALLOCATE_TYPE::AllocateMaxAddress,
            EFI_MEMORY_TYPE::EfiBootServicesData,
            ((runtime_size + 4095) / 4096) as usize,
            u64::MAX,
            32,
        ) {
            Ok((start, _)) => Some(start),
            Err(_) => None,
        },
    }
}

/// Returns the number of pages that take `size` bytes.
fn whole_pages(size: usize) -> (pages: usize)
    ensures
        pages as int == (size + 4095) / 4096,
{
    let pages: usize = size / 4096;
    if size % 4096 != 0 {
        pages + 1
    } else {
        pages
    }
}

/// Allocates a high-memory destination for the firmware image and returns its
/// address.
pub fn try_relocate_firmware(
    device_tree_address: usize,
    device_tree_memory: &[u8],
    firmware: &FirmwareRanges,
    runtime_size: usize,
) -> (relocated_base: Option<u64>)
    ensures
        relocated_base == relocation_place(
            device_tree_address,
            device_tree_memory@,
            *firmware,
            runtime_size,
        ),
{
    reveal(boot_map);
    let mut regions: [MemoryRegion; 8] = [MemoryRegion { base: 0, size: 0 };8];
    let mut reserved: [MemoryRegion; 16] = [MemoryRegion { base: 0, size: 0 };16];
    let mut memory_map: [EFI_MEMORY_DESCRIPTOR; 32] = [EMPTY_MEMORY_DESCRIPTOR();32];
    let mut allocator = match page_allocator_from_live_fdt(
        device_tree_address,
        device_tree_memory,
        &mut regions,
        &mut reserved,
        firmware,
        &mut memory_map,
    ) {
        Some(allocator) => allocator,
        None => return None,
    };
    let runtime_pages = whole_pages(runtime_size);
    let mut relocated_base: u64 = u64::MAX;
    match allocator.AllocatePages(
        EFI_ALLOCATE_TYPE::AllocateMaxAddress,
        EFI_MEMORY_TYPE::EfiBootServicesData,
        runtime_pages,
        &mut relocated_base,
    ) {
        Ok(()) => Some(relocated_base),
        Err(_) => None,
    }
}

/// What the start of a partition holds, when the device reports no error.
pub open spec fn filesystem_at(medium: Seq<u8>, first_lba: u64) -> LinuxBootFilesystem {
    if boot_layout(sector_at(medium, first_lba as int), first_lba) is Ok {
        LinuxBootFilesystem::Fat
    } else if first_lba + 2 <= u64::MAX && superblock_layout(
        window(medium, first_lba * 512 + 1024, 1024),
        first_lba,
    ) is Ok {
        LinuxBootFilesystem::Ext4
    } else {
        LinuxBootFilesystem::Unknown
    }
}

/// Tells which filesystem can be mounted from a partition start sector.
pub fn probe_filesystem<D: BlockDevice>(device: &mut D, first_lba: u64) -> (filesystem:
    LinuxBootFilesystem)
    ensures
        final(device).medium() == old(device).medium(),
        final(device).sectors() == old(device).sectors(),
        final(device).faults().len() >= old(device).faults().len(),
        final(device).faults().len() == old(device).faults().len() ==> final(device).faults()
            == old(device).faults() && filesystem == filesystem_at(
            old(device).medium(),
            first_lba,
        ),
        filesystem is Fat ==> boot_layout(
            sector_at(old(device).medium(), first_lba as int),
            first_lba,
        ) is Ok,
        filesystem is Ext4 ==> superblock_layout(
            window(old(device).medium(), first_lba * 512 + 1024, 1024),
            first_lba,
        ) is Ok,
{
    match FatVolume::new(device, first_lba) {
        Ok(volume) => {
            proof {
                FatVolume::device_released(volume);
            }
            return LinuxBootFilesystem::Fat;
        },
        Err(_) => {},
    }
    match Ext4Volume::new(device, first_lba) {
        Ok(volume) => {
            proof {
                Ext4Volume::device_released(volume);
            }
            LinuxBootFilesystem::Ext4
        },
        Err(_) => LinuxBootFilesystem::Unknown,
    }
}

/// Whether an entry describes a partition that is tried for a boot.
pub open spec fn boot_flagged<E: PartitionEntry>(entry: E) -> bool {
    entry.present() && entry.marked_bootable()
}

/// What a boot from a block device is tried with.
pub struct BootSetting {
    /// Zero-based index of the block device.
    pub device_index: usize,
    /// Hart identifier that a kernel gets.
    pub boot_hart: usize,
    /// Address of the device tree.
    pub tree_address: usize,
    /// What can be read from that address on.
    pub tree_memory: Seq<u8>,
    /// Ranges of the firmware itself.
    pub firmware: FirmwareRanges,
}

/// What came of one boot-flagged partition.
pub struct TriedPartition {
    /// Zero-based slot of the partition.
    pub slot: u32,
    /// Filesystem that was found at its start.
    pub filesystem: LinuxBootFilesystem,
    /// What came of trying to boot from it.
    pub attempt: PartitionAttempt,
}

impl TriedPartition {
    /// Whether a kernel is to be started.
    pub open spec fn starts(&self) -> bool {
        self.attempt matches PartitionAttempt::Tried(report) && report.outcome is Start
    }
}

/// Whether a filesystem is one that probing the start of a partition may have found. It
/// is the one that is there where the device reported no error meanwhile.
pub open spec fn filesystem_probed(
    medium: Seq<u8>,
    first_lba: u64,
    filesystem: LinuxBootFilesystem,
    faults_before: Seq<VirtioError>,
    faults_after: Seq<VirtioError>,
) -> bool {
    &&& faults_after.len() >= faults_before.len()
    &&& faults_after.len() == faults_before.len() ==> faults_after == faults_before && filesystem
        == filesystem_at(medium, first_lba)
    &&& filesystem is Fat ==> boot_layout(sector_at(medium, first_lba as int), first_lba) is Ok
    &&& filesystem is Ext4 ==> superblock_layout(
        window(medium, first_lba * 512 + 1024, 1024),
        first_lba,
    ) is Ok
}

/// Whether an attempt to boot from the partition at `first_lba` came out as it must.
pub open spec fn partition_tried<D: BlockDevice>(
    medium: Seq<u8>,
    sectors: u64,
    first_lba: u64,
    tried: TriedPartition,
    setting: BootSetting,
    faults_before: Seq<VirtioError>,
    faults_after: Seq<VirtioError>,
) -> bool {
    match tried.filesystem {
        LinuxBootFilesystem::Unknown => tried.attempt is NotMounted && faults_after
            == faults_before,
        LinuxBootFilesystem::Fat => attempt_kept::<FatVolume<'_, D>>(
            tried.attempt,
            fat_holding(medium, sectors, first_lba),
            (setting.device_index, (tried.slot + 1) as u32),
            setting.boot_hart,
            setting.tree_address,
            setting.tree_memory,
            setting.firmware,
            faults_before,
            faults_after,
        ),
        LinuxBootFilesystem::Ext4 => attempt_kept::<Ext4Volume<'_, D>>(
            tried.attempt,
            ext4_holding(medium, sectors, first_lba),
            (setting.device_index, (tried.slot + 1) as u32),
            setting.boot_hart,
            setting.tree_address,
            setting.tree_memory,
            setting.firmware,
            faults_before,
            faults_after,
        ),
    }
}

/// Whether a slot of the table with a given header holds a boot-flagged partition that was
/// probed and tried, between which the device had reported `faults_between`.
pub open spec fn slot_tried<D: BlockDevice>(
    medium: Seq<u8>,
    sectors: u64,
    header: GptHeader,
    tried: TriedPartition,
    setting: BootSetting,
    faults_before: Seq<VirtioError>,
    faults_between: Seq<VirtioError>,
    faults_after: Seq<VirtioError>,
) -> bool {
    tried.slot < header.partition_entry_count && exists|entry: GptPartitionEntry| #[trigger]
        entry_decodes(entry, entry_bytes(medium, header, tried.slot)) && boot_flagged(entry)
            && filesystem_probed(
            medium,
            entry.first(),
            tried.filesystem,
            faults_before,
            faults_between,
        ) && partition_tried::<D>(
            medium,
            sectors,
            entry.first(),
            tried,
            setting,
            faults_between,
            faults_after,
        )
}

/// Whether a slot of the table with a given header holds a boot-flagged partition that was
/// probed and tried, whatever the device had reported before and meanwhile.
pub open spec fn slot_came_out<D: BlockDevice>(
    medium: Seq<u8>,
    sectors: u64,
    header: GptHeader,
    tried: TriedPartition,
    setting: BootSetting,
) -> bool {
    exists|before: Seq<VirtioError>, between: Seq<VirtioError>, after: Seq<VirtioError>|
        slot_tried::<D>(medium, sectors, header, tried, setting, before, between, after)
}

/// Whether a slot of the table with a given header holds an entry that is not tried.
pub open spec fn passed_over(medium: Seq<u8>, header: GptHeader, slot: u32) -> bool {
    exists|entry: GptPartitionEntry| #[trigger]
        entry_decodes(entry, entry_bytes(medium, header, slot)) && !boot_flagged(entry)
}

/// Whether a slot is among those that were tried.
pub open spec fn slot_listed(tried: Seq<TriedPartition>, slot: u32) -> bool {
    exists|k: int| 0 <= k < tried.len() && (#[trigger] tried[k]).slot == slot
}

/// Whether partitions were tried in the order of the table with a given header. Each was
/// probed and tried once, and none after one that starts a kernel.
pub open spec fn tried_in_order<D: BlockDevice>(
    medium: Seq<u8>,
    sectors: u64,
    header: GptHeader,
    tried: Seq<TriedPartition>,
    setting: BootSetting,
) -> bool {
    &&& forall|k: int|
        0 <= k < tried.len() ==> slot_came_out::<D>(
            medium,
            sectors,
            header,
            #[trigger] tried[k],
            setting,
        )
    &&& forall|j: int, k: int| 0 <= j < k < tried.len() ==> tried[j].slot < tried[k].slot
    &&& forall|k: int| 0 <= k < tried.len() - 1 ==> !(#[trigger] tried[k]).starts()
}

/// Whether every slot of the table with a given header was tried up to the first one that
/// starts a kernel, as long as the device reported no error but those in `faults`.
pub open spec fn tried_all<D: BlockDevice>(
    medium: Seq<u8>,
    sectors: u64,
    header: GptHeader,
    tried: Seq<TriedPartition>,
    setting: BootSetting,
    faults: Seq<VirtioError>,
) -> bool {
    &&& forall|k: int|
        0 <= k < tried.len() ==> slot_tried::<D>(
            medium,
            sectors,
            header,
            #[trigger] tried[k],
            setting,
            faults,
            faults,
            faults,
        )
    &&& forall|slot: u32|
        slot < header.partition_entry_count ==> #[trigger] slot_listed(tried, slot) || passed_over(
            medium,
            header,
            slot,
        ) || (tried.len() > 0 && tried.last().starts() && tried.last().slot < slot)
}

/// Tries to boot from the boot-flagged partitions of one block device, in the order of its
/// partition table, up to the first one that starts a kernel. A slot that the device fails
/// to read is passed over.
pub fn try_boot_from_device<D: BlockDevice>(
    device: &mut D,
    block_device_index: usize,
    boot_hart: usize,
    device_tree_address: usize,
    device_tree_memory: &[u8],
    firmware: &FirmwareRanges,
) -> (tried: Vec<TriedPartition>)
    ensures
        final(device).medium() == old(device).medium(),
        final(device).sectors() == old(device).sectors(),
        final(device).faults().len() >= old(device).faults().len(),
        ({
            let medium = old(device).medium();
            let sectors = old(device).sectors();
            let setting = BootSetting {
                device_index: block_device_index,
                boot_hart,
                tree_address: device_tree_address,
                tree_memory: device_tree_memory@,
                firmware: *firmware,
            };
            &&& tried@.len() > 0 ==> exists|header: GptHeader|
                (Some(header) == table_header(medium, sectors) || Some(header) == backup_header(
                    medium,
                    sectors,
                )) && #[trigger] tried_in_order::<D>(medium, sectors, header, tried@, setting)
            &&& final(device).faults().len() == old(device).faults().len() ==> final(
                device
            ).faults() == old(device).faults() && match table_header(medium, sectors) {
                Some(header) => tried_all::<D>(
                    medium,
                    sectors,
                    header,
                    tried@,
                    setting,
                    old(device).faults(),
                ),
                None => tried@.len() == 0,
            }
        }),
{
    let ghost medium = device.medium();
    let ghost sectors = device.sectors();
    let ghost start = device.faults();
    let ghost setting = BootSetting {
        device_index: block_device_index,
        boot_hart,
        tree_address: device_tree_address,
        tree_memory: device_tree_memory@,
        firmware: *firmware,
    };
    let mut tried: Vec<TriedPartition> = Vec::new();
    let header = match read_table_header(device) {
        Some(header) => header,
        None => return tried,
    };
    let mut index: u32 = 0;
    while index < header.partition_entry_count
        invariant
            header_in_range(header),
            index <= header.partition_entry_count,
            device.medium() == medium,
            device.sectors() == sectors,
            medium == old(device).medium(),
            sectors == old(device).sectors(),
            start == old(device).faults(),
            setting == (BootSetting {
                device_index: block_device_index,
                boot_hart,
                tree_address: device_tree_address,
                tree_memory: device_tree_memory@,
                firmware: *firmware,
            }),
            device.faults().len() >= start.len(),
            Some(header) == table_header(medium, sectors) || Some(header) == backup_header(
                medium,
                sectors,
            ),
            tried_in_order::<D>(medium, sectors, header, tried@, setting),
            forall|k: int| 0 <= k < tried@.len() ==> !(#[trigger] tried@[k]).starts(),
            forall|k: int| 0 <= k < tried@.len() ==> (#[trigger] tried@[k]).slot < index,
            device.faults().len() == start.len() ==> device.faults() == start && Some(header)
                == table_header(medium, sectors) && tried_until::<D>(
                medium,
                sectors,
                header,
                tried@,
                setting,
                start,
                index,
            ),
        decreases header.partition_entry_count - index,
    {
        if let Some(entry) = read_partition_entry(device, &header, index) {
            if entry.is_present() && entry.bootable() {
                let ghost before = device.faults();
                let filesystem = probe_filesystem(device, entry.first_lba());
                let ghost between = device.faults();
                let attempt = try_boot_from_partition(
                    device,
                    entry,
                    filesystem,
                    block_device_index,
                    index + 1,
                    boot_hart,
                    device_tree_address,
                    device_tree_memory,
                    firmware,
                );
                let started = match &attempt {
                    PartitionAttempt::Tried(report) => match &report.outcome {
                        BootOutcome::Start { .. } => true,
                        _ => false,
                    },
                    _ => false,
                };
                let ghost earlier = tried@;
                let ghost last = TriedPartition { slot: index, filesystem, attempt };
                proof {
                    assert(entry_decodes(entry, entry_bytes(medium, header, index)));
                    assert(boot_flagged(entry));
                    assert(filesystem_probed(medium, entry.first(), filesystem, before, between));
                    assert(partition_tried::<D>(
                        medium,
                        sectors,
                        entry.first(),
                        last,
                        setting,
                        between,
                        device.faults(),
                    ));
                    assert(slot_tried::<D>(
                        medium,
                        sectors,
                        header,
                        last,
                        setting,
                        before,
                        between,
                        device.faults(),
                    ));
                    order_goes_on::<D>(
                        medium,
                        sectors,
                        header,
                        earlier,
                        last,
                        setting,
                        before,
                        between,
                        device.faults(),
                    );
                    if device.faults().len() == start.len() {
                        listing_goes_on::<D>(medium, sectors, header, earlier, last, setting, start);
                    }
                }
                tried.push(TriedPartition { slot: index, filesystem, attempt });
                assert(tried@ == earlier.push(last));
                if started {
                    assert(tried@.last().starts());
                    return tried;
                }
            } else {
                assert(passed_over(medium, header, index));
            }
        }
        index += 1;
    }
    tried
}

/// Whether every slot before `index` was tried or passed over.
pub open spec fn tried_until<D: BlockDevice>(
    medium: Seq<u8>,
    sectors: u64,
    header: GptHeader,
    tried: Seq<TriedPartition>,
    setting: BootSetting,
    faults: Seq<VirtioError>,
    index: u32,
) -> bool {
    &&& forall|k: int|
        0 <= k < tried.len() ==> slot_tried::<D>(
            medium,
            sectors,
            header,
            #[trigger] tried[k],
            setting,
            faults,
            faults,
            faults,
        )
    &&& forall|slot: u32|
        slot < index ==> #[trigger] slot_listed(tried, slot) || passed_over(medium, header, slot)
}

/// One more attempt keeps the order.
proof fn order_goes_on<D: BlockDevice>(
    medium: Seq<u8>,
    sectors: u64,
    header: GptHeader,
    earlier: Seq<TriedPartition>,
    last: TriedPartition,
    setting: BootSetting,
    before: Seq<VirtioError>,
    between: Seq<VirtioError>,
    after: Seq<VirtioError>,
)
    requires
        tried_in_order::<D>(medium, sectors, header, earlier, setting),
        slot_tried::<D>(medium, sectors, header, last, setting, before, between, after),
        forall|k: int| 0 <= k < earlier.len() ==> !(#[trigger] earlier[k]).starts(),
        forall|k: int| 0 <= k < earlier.len() ==> (#[trigger] earlier[k]).slot < last.slot,
    ensures
        tried_in_order::<D>(medium, sectors, header, earlier.push(last), setting),
{
    let longer = earlier.push(last);
    assert(slot_came_out::<D>(medium, sectors, header, last, setting));
    assert forall|k: int| 0 <= k < longer.len() implies slot_came_out::<D>(
        medium,
        sectors,
        header,
        #[trigger] longer[k],
        setting,
    ) by {
        if k < earlier.len() {
            assert(longer[k] == earlier[k]);
        } else {
            assert(longer[k] == last);
        }
    }
    assert forall|j: int, k: int| 0 <= j < k < longer.len() implies longer[j].slot
        < longer[k].slot by {
        assert(longer[j] == earlier[j]);
        if k < earlier.len() {
            assert(longer[k] == earlier[k]);
        }
    }
    assert forall|k: int| 0 <= k < longer.len() - 1 implies !(#[trigger] longer[k]).starts() by {
        assert(longer[k] == earlier[k]);
    }
}

/// One more attempt without fault is listed, and those before it still are.
proof fn listing_goes_on<D: BlockDevice>(
    medium: Seq<u8>,
    sectors: u64,
    header: GptHeader,
    earlier: Seq<TriedPartition>,
    last: TriedPartition,
    setting: BootSetting,
    faults: Seq<VirtioError>,
)
    requires
        tried_until::<D>(medium, sectors, header, earlier, setting, faults, last.slot),
        slot_tried::<D>(medium, sectors, header, last, setting, faults, faults, faults),
        last.slot < u32::MAX,
    ensures
        tried_until::<D>(
            medium,
            sectors,
            header,
            earlier.push(last),
            setting,
            faults,
            (last.slot + 1) as u32,
        ),
{
    let longer = earlier.push(last);
    assert forall|slot: u32| slot < last.slot + 1 implies #[trigger] slot_listed(longer, slot)
        || passed_over(medium, header, slot) by {
        if slot < last.slot {
            assert(slot_listed(earlier, slot) || passed_over(medium, header, slot));
            if slot_listed(earlier, slot) {
                let k = choose|k: int| 0 <= k < earlier.len() && (#[trigger] earlier[k]).slot == slot;
                assert(longer[k] == earlier[k]);
            }
        } else {
            assert(longer[earlier.len() as int] == last);
        }
    }
    assert forall|k: int| 0 <= k < longer.len() implies slot_tried::<D>(
        medium,
        sectors,
        header,
        #[trigger] longer[k],
        setting,
        faults,
        faults,
        faults,
    ) by {
        if k < earlier.len() {
            assert(longer[k] == earlier[k]);
        }
    }
}

} // verus!
