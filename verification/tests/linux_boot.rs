//! Linux boot flow.

use rustfw::devicetree::MemoryRegion;
use rustfw::dtb::{Dtb, DtbError};
use rustfw::dtb_read::Fdt;
use rustfw::ext4::Ext4Volume;
use rustfw::fat::{FatError, FatVolume};
use rustfw::filesystem::{
    load_first_file, print_loaded_file, FileInfo, FileType, LoadedFile,
};
use rustfw::firmware::{try_boot_from_device, try_relocate_firmware};
use rustfw::gpt::{crc32, GptPartitionEntry, GPT_TYPE_GUID_LINUX_FILESYSTEM};
use rustfw::image::FileBlockDevice;
use rustfw::linux::{
    boot, boot_and_start, check_kernel_header, initrd_candidate_path, kernel_candidate_path,
    parse_linux_boot_image_header, print_boot_report, relocate_kernel, root_command_line,
    try_boot_from_filesystem, try_boot_from_mounted, try_boot_from_partition,
    try_boot_from_volume, BootOutcome, BootPath, BootReport, LinuxBootError, LinuxBootFilesystem,
    PartitionAttempt,
};
use rustfw::memory::{FirmwareRanges, PageAllocator, EFI_MEMORY_TYPE, EMPTY_MEMORY_DESCRIPTOR};
use rustfw::memory_map::{MemoryError, EFI_MEMORY_DESCRIPTOR};
use rustfw::virtio::{BlockDevice, VirtioError};

const NO_FIRMWARE: FirmwareRanges = FirmwareRanges {
    code_start: 0,
    code_end: 0,
    data_start: 0,
    data_end: 0,
    heap_start: 0,
    heap_end: 0,
    stack_bottom: 0,
    stack_top: 0,
};

fn put(image: &mut [u8], at: usize, bytes: &[u8]) {
    image[at..at + bytes.len()].copy_from_slice(bytes);
}

/// A tree with 32 MiB of memory at `0x8000_0000` and nothing else.
fn tree() -> Vec<u8> {
    let mut structure: Vec<u8> = Vec::new();
    let strings = b"#address-cells\0#size-cells\0device_type\0reg\0";
    let word = |structure: &mut Vec<u8>, value: u32| structure.extend(value.to_be_bytes());
    let property = |structure: &mut Vec<u8>, offset: u32, value: &[u8]| {
        structure.extend(3u32.to_be_bytes());
        structure.extend((value.len() as u32).to_be_bytes());
        structure.extend(offset.to_be_bytes());
        structure.extend(value);
        while structure.len() % 4 != 0 {
            structure.push(0);
        }
    };
    word(&mut structure, 1);
    word(&mut structure, 0);
    property(&mut structure, 0, &2u32.to_be_bytes());
    property(&mut structure, 15, &2u32.to_be_bytes());
    word(&mut structure, 1);
    structure.extend(b"memory@80000000\0");
    property(&mut structure, 27, b"memory\0");
    let mut reg = Vec::new();
    reg.extend(0x8000_0000u64.to_be_bytes());
    reg.extend(0x0200_0000u64.to_be_bytes());
    property(&mut structure, 39, &reg);
    word(&mut structure, 2);
    word(&mut structure, 2);
    word(&mut structure, 9);
    let structure_at = 56;
    let strings_at = structure_at + structure.len();
    let words = [
        0xd00d_feedu32,
        (strings_at + strings.len()) as u32,
        structure_at as u32,
        strings_at as u32,
        40,
        17,
        16,
        0,
        strings.len() as u32,
        structure.len() as u32,
    ];
    let mut blob: Vec<u8> = words.iter().flat_map(|value| value.to_be_bytes()).collect();
    blob.extend([0u8; 16]);
    blob.extend(&structure);
    blob.extend(strings);
    blob
}

fn kernel_image() -> Vec<u8> {
    let mut image = vec![0x13u8; 600];
    put(&mut image, 0x30, &0x56_4353_4952u64.to_le_bytes());
    put(&mut image, 0x38, &0x0543_5352u32.to_le_bytes());
    image
}

fn loaded(start: u64, data: &[u8]) -> LoadedFile {
    let pages = (data.len() + 4095) / 4096;
    let mut contents = data.to_vec();
    contents.resize(pages * 4096, 0);
    LoadedFile::new(start, pages, data.len(), contents)
}

/// A FAT16 volume at sector four that holds `files` in the root directory, each in one
/// cluster of sixteen sectors.
fn fat_image(files: &[(&[u8; 11], &[u8])]) -> Vec<u8> {
    let start = 4 * 512;
    let table = start + 512;
    let root = table + 20 * 512;
    let data = root + 512;
    let cluster = 16 * 512;
    let mut image = vec![0u8; data + 5000 * cluster];
    put(&mut image, start + 11, &512u16.to_le_bytes());
    image[start + 13] = 16;
    put(&mut image, start + 14, &1u16.to_le_bytes());
    image[start + 16] = 1;
    put(&mut image, start + 17, &16u16.to_le_bytes());
    put(&mut image, start + 22, &20u16.to_le_bytes());
    put(&mut image, start + 32, &(22u32 + 5000 * 16).to_le_bytes());
    for (index, (name, contents)) in files.iter().enumerate() {
        let number = index + 2;
        let entry = root + 32 * index;
        put(&mut image, entry, *name);
        image[entry + 11] = 0x20;
        put(&mut image, entry + 26, &(number as u16).to_le_bytes());
        put(&mut image, entry + 28, &(contents.len() as u32).to_le_bytes());
        put(&mut image, table + 2 * number, &0xffffu16.to_le_bytes());
        put(&mut image, data + index * cluster, contents);
    }
    image
}

fn partition(first_lba: u64) -> GptPartitionEntry {
    GptPartitionEntry {
        partition_type_guid: GPT_TYPE_GUID_LINUX_FILESYSTEM,
        unique_partition_guid: [1; 16],
        first_lba,
        last_lba: first_lba + 10,
        attributes: 4,
        partition_name: [0; 36],
    }
}

fn with_allocator<T>(run: impl FnOnce(&mut PageAllocator<'_>) -> T) -> T {
    let mut descriptors: [EFI_MEMORY_DESCRIPTOR; 16] = [EMPTY_MEMORY_DESCRIPTOR(); 16];
    let memory = [MemoryRegion { base: 0x8000_0000, size: 0x0100_0000 }];
    let mut allocator =
        PageAllocator::from_regions(&memory, &[], &NO_FIRMWARE, &mut descriptors).unwrap();
    run(&mut allocator)
}

#[test]
fn candidate_paths() {
    assert_eq!(kernel_candidate_path(0).unwrap().as_str(), "/boot/vmlinuz");
    assert_eq!(kernel_candidate_path(1).unwrap().as_str(), "/vmlinuz");
    assert!(kernel_candidate_path(2).is_none());
    assert_eq!(initrd_candidate_path(0).unwrap().as_str(), "/boot/initrd.img");
    assert_eq!(initrd_candidate_path(1).unwrap().as_str(), "/initrd.img");
    assert!(initrd_candidate_path(2).is_none());
    assert!(BootPath::from_bytes(b"0123456789abcdefg").is_none());
    assert_eq!(BootPath::from_bytes(b"0123456789abcdef").unwrap().as_str(), "0123456789abcdef");
}

#[test]
fn root_devices() {
    let mut buffer = [0u8; 24];
    assert_eq!(root_command_line(0, 1, &mut buffer), Some("root=/dev/vda1"));
    assert_eq!(root_command_line(25, 0, &mut buffer), Some("root=/dev/vdz0"));
    assert_eq!(root_command_line(2, u32::MAX, &mut buffer), Some("root=/dev/vdc4294967295"));
    assert_eq!(root_command_line(26, 1, &mut buffer), None);
}

#[test]
fn kernel_headers() {
    let image = kernel_image();
    let header = parse_linux_boot_image_header(&image).unwrap();
    assert_eq!(header.code0, 0x1313_1313);
    assert_eq!(header.magic, 0x56_4353_4952);
    assert_eq!(header.magic2, 0x0543_5352);
    assert_eq!(check_kernel_header(&loaded(0x1000, &image)), Ok(()));
    assert_eq!(
        check_kernel_header(&loaded(0x1000, &image[..63])),
        Err(LinuxBootError::KernelImageTooSmall),
    );
    let mut first = image.clone();
    first[0x30] = 0;
    assert_eq!(
        check_kernel_header(&loaded(0x1000, &first)),
        Err(LinuxBootError::InvalidKernelMagic),
    );
    let mut second = image.clone();
    second[0x38] = 0;
    assert_eq!(
        check_kernel_header(&loaded(0x1000, &second)),
        Err(LinuxBootError::InvalidKernelMagic2),
    );
}

#[test]
fn kernels_are_moved_to_aligned_memory() {
    with_allocator(|allocator| {
        let start = allocator
            .allocate_pages_for_size(EFI_MEMORY_TYPE::EfiBootServicesData, 600)
            .unwrap();
        let kernel = loaded(start, &kernel_image());
        let moved = relocate_kernel(allocator, &kernel).unwrap();
        assert_eq!(moved.physical_start() % 0x20_0000, 0);
        assert_eq!(moved.physical_start(), 0x8000_0000);
        assert_eq!(moved.bytes(), kernel.bytes());
        assert_eq!(allocator.descriptor_count(), 2);
        assert!(relocate_kernel(allocator, &loaded(0x1000, &kernel_image())).is_none());
    });
}

#[test]
fn boot_requests() {
    let blob = tree();
    let device_tree = Dtb::from_ptr(0x8100_0000, &blob).unwrap();
    let file = FileInfo::new(FileType::File, 10);
    let directory = FileInfo::new(FileType::Directory, 0);
    with_allocator(|allocator| {
        let request = boot(&file, Some(&file), &device_tree, allocator, "quiet").ok().unwrap();
        assert_eq!(request.command_line(), "quiet");
        assert_eq!(request.kernel_size_bytes(), 10);
        assert_eq!(request.initrd_size_bytes(), Some(10));
        assert_eq!(request.device_tree().size(), (blob.len() + 8192 + 4095) / 4096 * 4096);
        assert_eq!(
            boot(&directory, None::<&FileInfo>, &device_tree, allocator, "").err(),
            Some(LinuxBootError::KernelIsDirectory),
        );
        assert_eq!(
            boot(&file, Some(&directory), &device_tree, allocator, "").err(),
            Some(LinuxBootError::InitrdIsDirectory),
        );
    });
    let mut descriptors = [EMPTY_MEMORY_DESCRIPTOR(); 4];
    let mut none = PageAllocator::from_regions(&[], &[], &NO_FIRMWARE, &mut descriptors).unwrap();
    assert_eq!(
        boot(&file, None::<&FileInfo>, &device_tree, &mut none, "").err(),
        Some(LinuxBootError::DeviceTreeClone(DtbError::Memory(MemoryError::OutOfResources))),
    );
}

#[test]
fn started_kernels_get_the_updated_tree() {
    let blob = tree();
    let device_tree = Dtb::from_ptr(0x8100_0000, &blob).unwrap();
    let kernel = loaded(0x8020_0000, &kernel_image());
    let initrd = loaded(0x8030_0000, b"initrd");
    with_allocator(|allocator| {
        let start =
            boot_and_start(&kernel, Some(&initrd), &device_tree, allocator, "root=/dev/vda1", 3)
                .ok()
                .unwrap();
        assert_eq!((start.entry, start.boot_hart), (0x8020_0000, 3));
        let fdt = Fdt::from_ptr(8, start.device_tree.bytes()).unwrap();
        let chosen = fdt.find_node("/chosen").unwrap();
        assert_eq!(fdt.get_property_string(chosen, "bootargs"), Some("root=/dev/vda1"));
        assert_eq!(fdt.get_property_u64(chosen, "linux,initrd-start"), Some(0x8030_0000));
        assert_eq!(fdt.get_property_u64(chosen, "linux,initrd-end"), Some(0x8030_0006));
        let far = LoadedFile::new(u64::MAX - 2, 1, 6, vec![0; 4096]);
        assert_eq!(
            boot_and_start(&kernel, Some(&far), &device_tree, allocator, "", 0).err(),
            Some(LinuxBootError::InitrdRangeOverflow),
        );
        let plain =
            boot_and_start(&kernel, None, &device_tree, allocator, "quiet", 0).ok().unwrap();
        let fdt = Fdt::from_ptr(8, plain.device_tree.bytes()).unwrap();
        let chosen = fdt.find_node("/chosen").unwrap();
        assert_eq!(fdt.get_property(chosen, "linux,initrd-start"), None);
    });
}

#[test]
fn trees_that_cannot_be_updated_reject_the_boot() {
    let mut blob = tree();
    let size = blob.len() as u32;
    put(&mut blob, 8, &size.to_be_bytes());
    let device_tree = Dtb::from_ptr(0x8100_0000, &blob).unwrap();
    let kernel = loaded(0x8020_0000, &kernel_image());
    with_allocator(|allocator| {
        assert!(matches!(
            boot_and_start(&kernel, None, &device_tree, allocator, "", 0).err(),
            Some(LinuxBootError::DeviceTreeUpdate(_)),
        ));
    });
}

#[test]
fn first_candidate_that_loads_is_taken() {
    let kernel = kernel_image();
    let image = fat_image(&[(b"VMLINUZ    ", &kernel)]);
    let mut device = FileBlockDevice::open(image).unwrap();
    let mut volume = FatVolume::new(&mut device, 4).unwrap();
    let candidates = vec![
        kernel_candidate_path(0).unwrap(),
        kernel_candidate_path(1).unwrap(),
    ];
    with_allocator(|allocator| {
        let (index, file) = load_first_file(&mut volume, &candidates, allocator).unwrap();
        assert_eq!(index, 1);
        assert_eq!(file.bytes(), &kernel[..]);
        let mut output = Vec::new();
        print_loaded_file("fat", candidates[index].as_str(), &file, &mut output);
        assert_eq!(
            String::from_utf8(output).unwrap(),
            "fat: loaded '/vmlinuz', size=600 @ 0x0000000080fff000\n",
        );
        assert!(load_first_file(&mut volume, &Vec::new(), allocator).is_none());
    });
}

#[test]
fn linux_is_booted_from_a_partition() {
    let blob = tree();
    let kernel = kernel_image();
    let image = fat_image(&[(b"VMLINUZ    ", &kernel), (b"INITRD  IMG", b"ramdisk")]);
    let mut device = FileBlockDevice::open(image).unwrap();
    let attempt = try_boot_from_partition(
        &mut device,
        partition(4),
        LinuxBootFilesystem::Fat,
        1,
        2,
        7,
        0x8180_0000,
        &blob,
        &NO_FIRMWARE,
    );
    let report = match attempt {
        PartitionAttempt::Tried(report) => report,
        _ => panic!("not tried"),
    };
    assert_eq!(report.kernel.as_ref().unwrap().0, 1);
    let initrd = &report.initrd.as_ref().unwrap().1;
    assert_eq!(initrd.bytes(), b"ramdisk");
    match report.outcome {
        BootOutcome::Start { kernel: moved, start } => {
            assert_eq!(moved.bytes(), &kernel[..]);
            assert_eq!(start.entry, 0x8000_0000);
            assert_eq!(moved.physical_start(), start.entry);
            assert_eq!(start.boot_hart, 7);
            let fdt = Fdt::from_ptr(8, start.device_tree.bytes()).unwrap();
            let chosen = fdt.find_node("/chosen").unwrap();
            assert_eq!(fdt.get_property_string(chosen, "bootargs"), Some("root=/dev/vdb2"));
            assert_eq!(
                fdt.get_property_u64(chosen, "linux,initrd-start"),
                Some(initrd.physical_start()),
            );
            assert_eq!(
                fdt.get_property_u64(chosen, "linux,initrd-end"),
                Some(initrd.physical_start() + 7),
            );
        }
        _ => panic!("not started"),
    }
}

/// Puts a partition table with three boot-flagged partitions into sectors one and two of
/// a disk image.
fn put_partitions(image: &mut [u8], first_lbas: [u64; 3]) {
    let sectors = (image.len() / 512) as u64;
    for (slot, first_lba) in first_lbas.iter().enumerate() {
        let at = 2 * 512 + slot * 128;
        put(image, at, &GPT_TYPE_GUID_LINUX_FILESYSTEM);
        put(image, at + 32, &first_lba.to_le_bytes());
        put(image, at + 40, &(first_lba + 10).to_le_bytes());
        put(image, at + 48, &4u64.to_le_bytes());
    }
    let entries = crc32(&image[2 * 512..2 * 512 + 3 * 128]);
    put(image, 512, b"EFI PART");
    put(image, 512 + 12, &92u32.to_le_bytes());
    put(image, 512 + 24, &1u64.to_le_bytes());
    put(image, 512 + 32, &(sectors - 1).to_le_bytes());
    put(image, 512 + 40, &3u64.to_le_bytes());
    put(image, 512 + 48, &(sectors - 2).to_le_bytes());
    put(image, 512 + 72, &2u64.to_le_bytes());
    put(image, 512 + 80, &3u32.to_le_bytes());
    put(image, 512 + 84, &128u32.to_le_bytes());
    put(image, 512 + 88, &entries.to_le_bytes());
    let header = crc32(&image[512..512 + 92]);
    put(image, 512 + 16, &header.to_le_bytes());
}

#[test]
fn partitions_are_tried_up_to_the_first_start() {
    let blob = tree();
    let kernel = kernel_image();
    let mut image = fat_image(&[(b"VMLINUZ    ", &kernel)]);
    put_partitions(&mut image, [1, 4, 4]);
    let mut device = FileBlockDevice::open(image).unwrap();
    let tried = try_boot_from_device(&mut device, 1, 7, 0x8180_0000, &blob, &NO_FIRMWARE);
    assert_eq!(tried.len(), 2);
    assert_eq!((tried[0].slot, tried[0].filesystem), (0, LinuxBootFilesystem::Unknown));
    assert!(matches!(tried[0].attempt, PartitionAttempt::NotMounted));
    assert_eq!((tried[1].slot, tried[1].filesystem), (1, LinuxBootFilesystem::Fat));
    match &tried[1].attempt {
        PartitionAttempt::Tried(report) => match &report.outcome {
            BootOutcome::Start { start, .. } => {
                let fdt = Fdt::from_ptr(8, start.device_tree.bytes()).unwrap();
                let chosen = fdt.find_node("/chosen").unwrap();
                assert_eq!(fdt.get_property_string(chosen, "bootargs"), Some("root=/dev/vdb2"));
            }
            _ => panic!("not started"),
        },
        _ => panic!("not tried"),
    }
    let mut image = fat_image(&[]);
    put_partitions(&mut image, [4, 1, 4]);
    let mut device = FileBlockDevice::open(image).unwrap();
    let tried = try_boot_from_device(&mut device, 1, 7, 0x8180_0000, &blob, &NO_FIRMWARE);
    let slots: Vec<u32> = tried.iter().map(|partition| partition.slot).collect();
    assert_eq!(slots, vec![0, 1, 2]);
}

/// Disk image of which only the first reads succeed.
struct FailingDevice {
    image: Vec<u8>,
    reads_left: usize,
    failed: usize,
}

impl BlockDevice for FailingDevice {
    fn sector_count(&self) -> u64 {
        (self.image.len() / 512) as u64
    }

    fn read_blocks(&mut self, sector: u64, buffer: &mut [u8]) -> Result<(), VirtioError> {
        if self.reads_left == 0 {
            self.failed += 1;
            return Err(VirtioError::RequestTimeout);
        }
        self.reads_left -= 1;
        let start = sector as usize * 512;
        buffer.copy_from_slice(&self.image[start..start + buffer.len()]);
        Ok(())
    }
}

#[test]
fn failed_mounts_and_candidates() {
    let blob = tree();
    let kernel = kernel_image();
    let attempt_with = |reads_left| {
        let image = fat_image(&[(b"VMLINUZ    ", &kernel)]);
        let mut device = FailingDevice { image, reads_left, failed: 0 };
        let attempt = try_boot_from_partition(
            &mut device,
            partition(4),
            LinuxBootFilesystem::Fat,
            0,
            1,
            0,
            8,
            &blob,
            &NO_FIRMWARE,
        );
        (attempt, device.failed)
    };
    let (attempt, failed) = attempt_with(0);
    assert!(matches!(attempt, PartitionAttempt::NotMounted));
    assert_eq!(failed, 1);
    let (attempt, failed) = attempt_with(1);
    match attempt {
        PartitionAttempt::Tried(report) => assert!(matches!(report.outcome, BootOutcome::NoKernel)),
        _ => panic!("not tried"),
    }
    assert_eq!(failed, 2);
}

#[test]
fn mounting_comes_before_trying() {
    let mut refused: Result<FatVolume<'_, FileBlockDevice>, FatError> =
        Err(FatError::Device(VirtioError::RequestTimeout));
    let attempt = try_boot_from_mounted(&mut refused, 0, 1, 0, 8, &tree(), &NO_FIRMWARE);
    assert!(matches!(attempt, PartitionAttempt::NotMounted));
    assert!(refused.is_err());
}

#[test]
fn boot_attempts_are_logged() {
    let blob = tree();
    let kernel = kernel_image();
    let log_of = |files: &[(&[u8; 11], &[u8])]| {
        let mut device = FileBlockDevice::open(fat_image(files)).unwrap();
        let attempt = try_boot_from_partition(
            &mut device,
            partition(4),
            LinuxBootFilesystem::Fat,
            0,
            1,
            3,
            0x8180_0000,
            &blob,
            &NO_FIRMWARE,
        );
        let mut output = Vec::new();
        match attempt {
            PartitionAttempt::Tried(report) => {
                print_boot_report("fat", &report, &mut output);
                let tree = match report.outcome {
                    BootOutcome::Start { start, .. } => start.device_tree.pointer(),
                    _ => 0,
                };
                (String::from_utf8(output).unwrap(), tree)
            }
            _ => panic!("not tried"),
        }
    };
    assert_eq!(log_of(&[]).0, "");
    let (text, _) = log_of(&[(b"VMLINUZ    ", b"text")]);
    assert!(text.starts_with("fat: loaded '/vmlinuz', size=4 @ 0x"));
    assert!(text.ends_with(
        "\nlinux: kernel object /vmlinuz does not match RISC-V boot image header\n"
    ));
    let (text, tree) = log_of(&[(b"VMLINUZ    ", &kernel), (b"INITRD  IMG", b"ramdisk")]);
    let lines: Vec<&str> = text.lines().collect();
    assert_eq!(lines.len(), 6);
    assert!(lines[0].starts_with("fat: loaded '/vmlinuz', size=600 @ 0x"));
    assert!(lines[1].starts_with("fat: loaded '/initrd.img', size=7 @ 0x"));
    assert_eq!(lines[2], "linux: kernel object /vmlinuz matches RISC-V boot image header");
    assert_eq!(lines[3], "linux: relocated kernel image to 0x0000000080000000");
    assert_eq!(lines[4], "linux: transferring control to kernel");
    assert_eq!(
        lines[5],
        format!("linux: entry=0x0000000080000000, boot_hart=3, device_tree={:#018x}", tree),
    );
}

#[test]
fn rejected_boots_are_logged() {
    let log_of = |outcome| {
        let report = BootReport { kernel: Some((0, loaded(0x1000, b"k"))), initrd: None, outcome };
        let mut output = Vec::new();
        print_boot_report("ext4", &report, &mut output);
        String::from_utf8(output).unwrap()
    };
    let head = "ext4: loaded '/boot/vmlinuz', size=1 @ 0x0000000000001000\n";
    let matching = "linux: kernel object /boot/vmlinuz matches RISC-V boot image header\n";
    let moved = "linux: relocated kernel image to 0x0000000000200000\n";
    let rejected = |error| BootOutcome::Rejected { entry: 0x20_0000, error };
    assert_eq!(
        log_of(rejected(LinuxBootError::DeviceTreeClone(DtbError::SizeOverflow))),
        format!("{}{}{}linux: boot request rejected\n", head, matching, moved),
    );
    assert_eq!(
        log_of(rejected(LinuxBootError::DeviceTreeUpdate(DtbError::BadStructure))),
        format!("{}{}{}linux: failed to update cloned device-tree\n", head, matching, moved),
    );
    assert_eq!(
        log_of(BootOutcome::NotRelocated),
        format!(
            "{}{}linux: failed to relocate kernel to aligned memory\n",
            head, matching
        ),
    );
    assert_eq!(
        log_of(BootOutcome::UnsupportedRoot),
        format!("{}linux: unsupported root device index\n", head),
    );
    assert_eq!(
        log_of(BootOutcome::InvalidDeviceTree(DtbError::BadMagic)),
        format!("{}linux: invalid device-tree pointer\n", head),
    );
}

#[test]
fn attempts_that_do_not_start_a_kernel() {
    let blob = tree();
    let kernel = kernel_image();
    let try_with = |files: &[(&[u8; 11], &[u8])], filesystem, device_index, address, memory: &[u8]| {
        let mut device = FileBlockDevice::open(fat_image(files)).unwrap();
        try_boot_from_partition(
            &mut device,
            partition(4),
            filesystem,
            device_index,
            1,
            0,
            address,
            memory,
            &NO_FIRMWARE,
        )
    };
    let fat = LinuxBootFilesystem::Fat;
    let outcome = |attempt| match attempt {
        PartitionAttempt::Tried(report) => report.outcome,
        _ => panic!("not tried"),
    };
    assert!(matches!(
        outcome(try_with(&[], fat, 0, 8, &blob)),
        BootOutcome::NoKernel,
    ));
    assert!(matches!(
        outcome(try_with(&[(b"VMLINUZ    ", &kernel)], fat, 26, 8, &blob)),
        BootOutcome::UnsupportedRoot,
    ));
    assert!(matches!(
        outcome(try_with(&[(b"VMLINUZ    ", b"text")], fat, 0, 8, &blob)),
        BootOutcome::InvalidKernel(LinuxBootError::KernelImageTooSmall),
    ));
    assert!(matches!(
        try_with(&[(b"VMLINUZ    ", &kernel)], fat, 0, 4, &blob),
        PartitionAttempt::NoAllocator,
    ));
    assert!(matches!(
        try_with(&[(b"VMLINUZ    ", &kernel)], LinuxBootFilesystem::Ext4, 0, 8, &blob),
        PartitionAttempt::NotMounted,
    ));
    assert!(matches!(
        try_with(&[(b"VMLINUZ    ", &kernel)], LinuxBootFilesystem::Unknown, 0, 8, &blob),
        PartitionAttempt::NotMounted,
    ));
}

#[test]
fn attempts_need_a_tree_and_aligned_memory() {
    let kernel = kernel_image();
    let mut device = FileBlockDevice::open(fat_image(&[(b"VMLINUZ    ", &kernel)])).unwrap();
    let mut volume = FatVolume::new(&mut device, 4).unwrap();
    with_allocator(|allocator| {
        let report =
            try_boot_from_filesystem(&mut volume, allocator, 0, 1, 0, 0x1000, &[0u8; 64]);
        assert!(matches!(
            report.outcome,
            BootOutcome::InvalidDeviceTree(DtbError::BadMagic),
        ));
    });
    let mut descriptors = [EMPTY_MEMORY_DESCRIPTOR(); 16];
    let memory = [MemoryRegion { base: 0x8000_1000, size: 0x8000 }];
    let mut small =
        PageAllocator::from_regions(&memory, &[], &NO_FIRMWARE, &mut descriptors).unwrap();
    let report = try_boot_from_filesystem(&mut volume, &mut small, 0, 1, 0, 0x1000, &tree());
    assert!(matches!(report.outcome, BootOutcome::NotRelocated));
    assert!(try_boot_from_volume(&mut volume, 0, 1, 0, 0, &tree(), &NO_FIRMWARE).is_none());
}

#[test]
fn ext4_is_not_mounted_from_fat() {
    let mut device = FileBlockDevice::open(fat_image(&[])).unwrap();
    assert!(Ext4Volume::new(&mut device, 4).is_err());
}

#[test]
fn firmware_moves_to_the_highest_pages() {
    let blob = tree();
    assert_eq!(
        try_relocate_firmware(0x1000, &blob, &NO_FIRMWARE, 0x1_0001),
        Some(0x8200_0000 - 0x1_1000),
    );
    assert_eq!(try_relocate_firmware(0x1000, &blob, &NO_FIRMWARE, 0), None);
    assert_eq!(try_relocate_firmware(0x1000, &blob, &NO_FIRMWARE, 0x0300_0000), None);
    assert_eq!(try_relocate_firmware(0, &blob, &NO_FIRMWARE, 0x1000), None);
}
