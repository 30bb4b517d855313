//! Flattened device trees: reading, editing and the memory that they describe.

use rustfw::devicetree::MemoryRegion;
use rustfw::diagnostics::print_diagnostics;
use rustfw::dtb_memory::{classified_regions, memory_regions, reserved_regions};
use rustfw::dtb_read::{Fdt, FdtError, FdtReserveEntry};
use rustfw::memory::{
    memory_map_from_fdt, page_allocator_from_live_fdt, FirmwareRanges, PageAllocator,
    EFI_MEMORY_TYPE, EMPTY_MEMORY_DESCRIPTOR,
};
use rustfw::memory_map::{MemoryError, EFI_MEMORY_DESCRIPTOR};
use rustfw::{devicetree, dtb, dtb_write};

const NO_REGION: MemoryRegion = MemoryRegion { base: 0, size: 0 };
const NO_FIRMWARE: FirmwareRanges = FirmwareRanges {
    code_start: 0,
    code_end: 0,
    data_start: 0,
    data_end: 0,
    heap_start: 0,
    heap_end: 0,
    stack_bottom: 0,
    stack_top: 0,
};

/// Writes the structure and strings blocks of a tree token by token.
struct Tree {
    structure: Vec<u8>,
    strings: Vec<u8>,
    reserve: Vec<(u64, u64)>,
}

impl Tree {
    fn new() -> Self {
        Tree { structure: Vec::new(), strings: Vec::new(), reserve: Vec::new() }
    }

    fn word(&mut self, value: u32) {
        self.structure.extend(value.to_be_bytes());
    }

    fn pad(&mut self) {
        while self.structure.len() % 4 != 0 {
            self.structure.push(0);
        }
    }

    fn open(&mut self, name: &str) -> &mut Self {
        self.word(1);
        self.structure.extend(name.as_bytes());
        self.structure.push(0);
        self.pad();
        self
    }

    fn close(&mut self) -> &mut Self {
        self.word(2);
        self
    }

    fn property(&mut self, name: &str, value: &[u8]) -> &mut Self {
        let offset = self.strings.len() as u32;
        self.strings.extend(name.as_bytes());
        self.strings.push(0);
        self.word(3);
        self.word(value.len() as u32);
        self.word(offset);
        self.structure.extend(value);
        self.pad();
        self
    }

    fn cells(&mut self, name: &str, cells: &[u32]) -> &mut Self {
        let value: Vec<u8> = cells.iter().flat_map(|cell| cell.to_be_bytes()).collect();
        self.property(name, &value)
    }

    fn blob(&mut self) -> Vec<u8> {
        self.word(9);
        let structure_at = 40 + 16 * (self.reserve.len() + 1);
        let strings_at = structure_at + self.structure.len();
        let total = strings_at + self.strings.len();
        let words = [
            0xd00d_feed,
            total as u32,
            structure_at as u32,
            strings_at as u32,
            40,
            17,
            16,
            0,
            self.strings.len() as u32,
            self.structure.len() as u32,
        ];
        let mut blob: Vec<u8> = words.iter().flat_map(|word: &u32| word.to_be_bytes()).collect();
        for (address, size) in self.reserve.iter().chain([(0, 0)].iter()) {
            blob.extend(address.to_be_bytes());
            blob.extend(size.to_be_bytes());
        }
        blob.extend(&self.structure);
        blob.extend(&self.strings);
        blob
    }
}

/// A tree with two cells for addresses and for sizes, 16 MiB of memory at
/// `0x8000_0000`, and reserved ranges of one MiB.
fn board() -> Vec<u8> {
    let mut tree = Tree::new();
    tree.reserve.push((0x8060_0000, 0x0010_0000));
    tree.open("")
        .cells("#address-cells", &[2])
        .cells("#size-cells", &[2])
        .property("model", b"test board\0")
        .open("memory@80000000")
        .property("device_type", b"memory\0")
        .cells("reg", &[0, 0x8000_0000, 0, 0x0100_0000])
        .close()
        .open("reserved-memory")
        .cells("#address-cells", &[2])
        .cells("#size-cells", &[2])
        .property("ranges", b"")
        .open("secure@80800000")
        .cells("reg", &[0, 0x8080_0000, 0, 0x0010_0000])
        .property("no-map", b"")
        .close()
        .open("buffer@80a00000")
        .cells("reg", &[0, 0x80a0_0000, 0, 0x0010_0000])
        .close()
        .open("pool")
        .cells("size", &[0, 0x0010_0000])
        .close()
        .close()
        .close();
    tree.blob()
}

fn minimal() -> Vec<u8> {
    let mut tree = Tree::new();
    tree.open("").property("model", b"m\0").open("cpus").close().close();
    tree.blob()
}

fn allocator(descriptors: &mut [EFI_MEMORY_DESCRIPTOR]) -> PageAllocator<'_> {
    let memory = [MemoryRegion { base: 0x8000_0000, size: 0x10_0000 }];
    PageAllocator::from_regions(&memory, &[], &NO_FIRMWARE, descriptors).unwrap()
}

/// The type of the descriptor that covers a range.
fn type_of(descriptors: &[EFI_MEMORY_DESCRIPTOR], base: u64, size: u64) -> Option<u32> {
    descriptors
        .iter()
        .find(|descriptor| {
            descriptor.PhysicalStart <= base
                && descriptor.PhysicalStart + descriptor.NumberOfPages * 4096 >= base + size
        })
        .map(|descriptor| descriptor.Type)
}

#[test]
fn nodes_and_properties_are_found() {
    let blob = board();
    let fdt = Fdt::from_ptr(0x1000, &blob).unwrap();
    assert_eq!(fdt.base_ptr(), 0x1000);
    assert_eq!(fdt.total_size_bytes(), blob.len());
    let root = fdt.find_node("/").unwrap();
    assert_eq!(fdt.get_property_string(root, "model"), Some("test board"));
    assert_eq!(fdt.get_property_u32(root, "#size-cells"), Some(2));
    assert_eq!(fdt.get_property(root, "absent"), None);
    let buffer = fdt.find_node("/reserved-memory/buffer@80a00000").unwrap();
    assert_eq!(buffer.name, "buffer@80a00000");
    assert_eq!(fdt.get_property_u64(buffer, "reg"), Some(0x80a0_0000));
    assert_eq!(fdt.get_property_u64(root, "#size-cells"), None);
    let pool = fdt.find_node("/reserved-memory/pool").unwrap();
    assert_eq!(fdt.get_property_u64(pool, "size"), Some(0x0010_0000));
    assert!(fdt.find_node("/reserved-memory/absent").is_none());
    assert!(fdt.find_node("relative").is_none());
    let parent = fdt.find_node("/reserved-memory").unwrap();
    let mut children = Vec::new();
    fdt.for_each_child(parent, &mut children);
    let names: Vec<&str> = children.iter().map(|child| child.name).collect();
    assert_eq!(names, vec!["secure@80800000", "buffer@80a00000", "pool"]);
    assert!(fdt.find_child(parent, "pool").is_some());
}

#[test]
fn strings_have_to_be_utf8() {
    let mut tree = Tree::new();
    tree.open("")
        .property("good", b"caf\xc3\xa9\0")
        .property("bad", b"caf\xe9\0")
        .property("open", b"cafe")
        .close();
    let blob = tree.blob();
    let fdt = Fdt::from_ptr(8, &blob).unwrap();
    let root = fdt.root_node().unwrap();
    assert_eq!(fdt.get_property_string(root, "good"), Some("caf\u{e9}"));
    assert_eq!(fdt.get_property_string(root, "bad"), None);
    assert_eq!(fdt.get_property_string(root, "open"), None);
}

#[test]
fn reserve_map_entries() {
    let blob = board();
    let fdt = Fdt::from_ptr(8, &blob).unwrap();
    assert_eq!(
        fdt.reserve_entry(0),
        Some(FdtReserveEntry { address: 0x8060_0000, size: 0x0010_0000 }),
    );
    assert_eq!(fdt.reserve_entry(1), None);
}

#[test]
fn faulty_blobs_are_refused() {
    let blob = board();
    assert_eq!(Fdt::from_ptr(0, &blob).err(), Some(FdtError::NullPointer));
    assert_eq!(Fdt::from_ptr(0x1004, &blob).err(), Some(FdtError::MisalignedPointer));
    assert_eq!(Fdt::from_ptr(8, &blob[..20]).err(), Some(FdtError::Truncated));
    let mut magic = blob.clone();
    magic[0] = 0;
    assert_eq!(Fdt::from_ptr(8, &magic).err(), Some(FdtError::BadMagic));
    let mut version = blob.clone();
    version[20..24].copy_from_slice(&15u32.to_be_bytes());
    assert_eq!(Fdt::from_ptr(8, &version).err(), Some(FdtError::UnsupportedVersion));
    let mut offset = blob.clone();
    offset[8..12].copy_from_slice(&u32::MAX.to_be_bytes());
    assert!(Fdt::from_ptr(8, &offset).is_err());
}

#[test]
fn regions_of_a_tree() {
    let blob = board();
    let fdt = Fdt::from_ptr(8, &blob).unwrap();
    let mut regions = [NO_REGION; 8];
    assert_eq!(memory_regions(&fdt, &mut regions), 1);
    assert_eq!(regions[0], MemoryRegion { base: 0x8000_0000, size: 0x0100_0000 });
    assert_eq!(reserved_regions(&fdt, &mut regions), 3);
    let bases: Vec<u64> = regions[..3].iter().map(|region| region.base).collect();
    assert_eq!(bases, vec![0x8060_0000, 0x8080_0000, 0x80a0_0000]);
    assert_eq!(classified_regions(&fdt, &mut regions), vec![false, false, true]);
    let mut small = [NO_REGION; 2];
    assert_eq!(reserved_regions(&fdt, &mut small), 2);
    assert_eq!(classified_regions(&fdt, &mut small), vec![false, false]);
}

#[test]
fn regions_by_the_streaming_reader() {
    let blob = board();
    let fdt = devicetree::Fdt::from_ptr(&blob).unwrap();
    let mut regions = [NO_REGION; 8];
    assert_eq!(fdt.memory_regions(&mut regions), 1);
    assert_eq!(regions[0], MemoryRegion { base: 0x8000_0000, size: 0x0100_0000 });
    assert_eq!(fdt.reserved_regions(&mut regions), 3);
    assert_eq!(regions[0].base, 0x8060_0000);
    assert_eq!(
        devicetree::Fdt::from_ptr(&[0u8; 64]).err(),
        Some(devicetree::FdtError::BadMagic),
    );
    assert_eq!(
        devicetree::Fdt::from_ptr(&blob[..10]).err(),
        Some(devicetree::FdtError::Truncated),
    );
}

#[test]
fn reserved_memory_is_classified() {
    let blob = board();
    let fdt = Fdt::from_ptr(0x1000, &blob).unwrap();
    let mut regions = [NO_REGION; 8];
    let mut reserved = [NO_REGION; 16];
    let mut descriptors = [EMPTY_MEMORY_DESCRIPTOR(); 32];
    let count =
        memory_map_from_fdt(&fdt, &mut regions, &mut reserved, &NO_FIRMWARE, &mut descriptors)
            .unwrap();
    let map = &descriptors[..count];
    let size = 0x0010_0000;
    let reserved_type = EFI_MEMORY_TYPE::EfiReservedMemoryType.number();
    let data_type = EFI_MEMORY_TYPE::EfiBootServicesData.number();
    let free_type = EFI_MEMORY_TYPE::EfiConventionalMemory.number();
    assert_eq!(type_of(map, 0x8060_0000, size), Some(reserved_type));
    assert_eq!(type_of(map, 0x8080_0000, size), Some(reserved_type));
    assert_eq!(type_of(map, 0x80a0_0000, size), Some(data_type));
    assert_eq!(type_of(map, 0x80c0_0000, size), Some(free_type));
    assert_eq!(type_of(map, 0x8000_0000, size), Some(free_type));
    let starts: Vec<u64> = map.iter().map(|descriptor| descriptor.PhysicalStart).collect();
    assert_eq!(
        starts,
        vec![
            0x8000_0000, 0x8060_0000, 0x8070_0000, 0x8080_0000, 0x8090_0000, 0x80a0_0000,
            0x80b0_0000,
        ],
    );
}

#[test]
fn reserved_ranges_share_the_scratch_space() {
    let blob = board();
    let fdt = Fdt::from_ptr(0x1000, &blob).unwrap();
    let mut regions = [NO_REGION; 8];
    let mut reserved = [NO_REGION; 2];
    let mut descriptors = [EMPTY_MEMORY_DESCRIPTOR(); 32];
    let count =
        memory_map_from_fdt(&fdt, &mut regions, &mut reserved, &NO_FIRMWARE, &mut descriptors)
            .unwrap();
    let starts: Vec<u64> =
        descriptors[..count].iter().map(|descriptor| descriptor.PhysicalStart).collect();
    assert_eq!(
        starts,
        vec![0x8000_0000, 0x8060_0000, 0x8070_0000, 0x8080_0000, 0x8090_0000],
    );
    assert_eq!(reserved[1].base, 0x8080_0000);
}

#[test]
fn tree_and_firmware_are_carved_from_memory() {
    let blob = board();
    let firmware = FirmwareRanges {
        code_start: 0x8020_0000,
        code_end: 0x8020_1800,
        data_start: 0x8020_2000,
        data_end: 0x8020_2001,
        ..NO_FIRMWARE
    };
    let mut regions = [NO_REGION; 8];
    let mut reserved = [NO_REGION; 16];
    let mut descriptors = [EMPTY_MEMORY_DESCRIPTOR(); 32];
    let allocator = page_allocator_from_live_fdt(
        0x8010_0ff8,
        &blob,
        &mut regions,
        &mut reserved,
        &firmware,
        &mut descriptors,
    )
    .unwrap();
    let map = allocator.descriptors();
    assert_eq!(type_of(map, 0x8010_0000, 0x2000), Some(0));
    assert_eq!(type_of(map, 0x8020_0000, 0x2000), Some(3));
    assert_eq!(type_of(map, 0x8020_2000, 0x1000), Some(4));
    assert_eq!(type_of(map, 0x8020_3000, 0x1000), Some(7));
}

#[test]
fn memory_maps_need_room() {
    let blob = board();
    let fdt = Fdt::from_ptr(0x1000, &blob).unwrap();
    let mut regions = [NO_REGION; 8];
    let mut reserved = [NO_REGION; 16];
    let mut descriptors = [EMPTY_MEMORY_DESCRIPTOR(); 4];
    assert_eq!(
        memory_map_from_fdt(&fdt, &mut regions, &mut reserved, &NO_FIRMWARE, &mut descriptors),
        Err(MemoryError::BufferTooSmall),
    );
    assert!(page_allocator_from_live_fdt(
        0,
        &blob,
        &mut regions,
        &mut reserved,
        &NO_FIRMWARE,
        &mut descriptors,
    )
    .is_none());
}

#[test]
fn diagnostics_tell_of_the_tree_and_the_map() {
    let blob = board();
    let mut output = Vec::new();
    print_diagnostics(2, 0x1000, 0x8020_0000, &blob, &NO_FIRMWARE, &mut output);
    let text = String::from_utf8(output).unwrap();
    let lines: Vec<&str> = text.lines().collect();
    assert_eq!(
        lines[0],
        "entry: boot_hart=2, device_tree=0x0000000000001000, sp=0x0000000080200000",
    );
    assert_eq!(lines[1], "memory 1: base=0x0000000080000000, size=0x0000000001000000");
    assert_eq!(lines[2], "reserved 1: base=0x0000000080600000, size=0x0000000000100000");
    assert_eq!(lines[4], "reserved 3: base=0x0000000080a00000, size=0x0000000000100000");
    assert_eq!(
        lines[5],
        "efi-memory 1: type=EfiConventionalMemory, base=0x0000000080000000, size=0x0000000000600000, attr=0x0000000000000000",
    );
    assert_eq!(lines.len(), 12);
    let mut refused = Vec::new();
    print_diagnostics(0, 4, 0, &blob, &NO_FIRMWARE, &mut refused);
    assert_eq!(
        String::from_utf8(refused).unwrap(),
        "entry: boot_hart=0, device_tree=0x0000000000000004, sp=0x0000000000000000\ndiagnostics: memory-map unavailable\n",
    );
}

#[test]
fn chosen_is_filled_in_a_clone() {
    for blob in [minimal(), board()] {
        let tree = dtb_write::Dtb::from_ptr(0x1000, &blob).unwrap();
        assert_eq!(tree.size(), blob.len());
        let mut descriptors = [EMPTY_MEMORY_DESCRIPTOR(); 8];
        let mut allocator = allocator(&mut descriptors);
        let mut copy = tree.clone(tree.size() + 8 * 1024, &mut allocator).unwrap();
        copy.create_node("/chosen").unwrap();
        copy.set_property_u64("/chosen", "linux,initrd-start", 0x1122_3344_5566_7788).unwrap();
        copy.set_property_u64("/chosen", "linux,initrd-end", 0x8877_6655_4433_2211).unwrap();
        copy.set_property_string("/chosen", "bootargs", "console=ttyS0 root=/dev/vda").unwrap();
        let fdt = Fdt::from_ptr(0x1000, copy.bytes()).unwrap();
        let chosen = fdt.find_node("/chosen").unwrap();
        assert_eq!(
            fdt.get_property_u64(chosen, "linux,initrd-start"),
            Some(0x1122_3344_5566_7788),
        );
        assert_eq!(
            fdt.get_property_u64(chosen, "linux,initrd-end"),
            Some(0x8877_6655_4433_2211),
        );
        assert_eq!(
            fdt.get_property_string(chosen, "bootargs"),
            Some("console=ttyS0 root=/dev/vda"),
        );
        let root = fdt.root_node().unwrap();
        let before = Fdt::from_ptr(0x1000, &blob).unwrap();
        assert_eq!(
            fdt.get_property_string(root, "model"),
            before.get_property_string(before.root_node().unwrap(), "model"),
        );
        let map = allocator.descriptors();
        assert_eq!(map.last().unwrap().Type, EFI_MEMORY_TYPE::EfiACPIReclaimMemory.number());
        assert_eq!(copy.pointer(), map.last().unwrap().PhysicalStart);
    }
}

#[test]
fn chosen_is_filled_by_the_boot_tree() {
    let blob = board();
    let tree = dtb::Dtb::from_ptr(0x1000, &blob).unwrap();
    let mut descriptors = [EMPTY_MEMORY_DESCRIPTOR(); 8];
    let mut allocator = allocator(&mut descriptors);
    let mut copy = tree.clone(tree.size() + 8 * 1024, &mut allocator).unwrap();
    copy.create_node("/chosen").unwrap();
    copy.set_property_u64("/chosen", "linux,initrd-start", 0x1122_3344_5566_7788).unwrap();
    copy.set_property_u32("/chosen", "answer", 42).unwrap();
    copy.set_property_string("/chosen", "bootargs", "console=ttyS0 root=/dev/vda").unwrap();
    let fdt = Fdt::from_ptr(0x1000, copy.bytes()).unwrap();
    let chosen = fdt.find_node("/chosen").unwrap();
    assert_eq!(
        fdt.get_property_u64(chosen, "linux,initrd-start"),
        Some(0x1122_3344_5566_7788),
    );
    assert_eq!(fdt.get_property_u32(chosen, "answer"), Some(42));
    assert_eq!(
        fdt.get_property_string(chosen, "bootargs"),
        Some("console=ttyS0 root=/dev/vda"),
    );
    assert_eq!(copy.header().magic(), 0xd00d_feed);
    assert_eq!(copy.header().total_size() as usize, copy.size());
    assert_eq!(copy.size() % 4096, 0);
}

#[test]
fn properties_are_replaced_in_place() {
    let blob = minimal();
    let tree = dtb_write::Dtb::from_ptr(8, &blob).unwrap();
    let mut descriptors = [EMPTY_MEMORY_DESCRIPTOR(); 8];
    let mut allocator = allocator(&mut descriptors);
    let mut copy = tree.clone(8192, &mut allocator).unwrap();
    copy.set_property_string("/", "model", "a much longer model name").unwrap();
    copy.set_property_u32("/cpus", "timebase-frequency", 10_000_000).unwrap();
    copy.set_property_bytes("/cpus", "empty", &[]).unwrap();
    copy.create_node("/cpus/cpu@0").unwrap();
    copy.set_property_string("/", "model", "x").unwrap();
    let fdt = Fdt::from_ptr(8, copy.bytes()).unwrap();
    let root = fdt.root_node().unwrap();
    assert_eq!(fdt.get_property_string(root, "model"), Some("x"));
    let cpus = fdt.find_node("/cpus").unwrap();
    assert_eq!(fdt.get_property_u32(cpus, "timebase-frequency"), Some(10_000_000));
    assert_eq!(fdt.get_property(cpus, "empty"), Some(&[][..]));
    assert!(fdt.find_node("/cpus/cpu@0").is_some());
}

#[test]
fn refused_edits() {
    let blob = minimal();
    let mut tree = dtb_write::Dtb::from_ptr(8, &blob).unwrap();
    assert!(tree.set_property_u32("/absent", "x", 1).is_err());
    assert!(tree.create_node("relative").is_err());
    assert!(tree.set_property_string("/", "model", "does not fit").is_err());
    assert!(tree.create_node("/chosen").is_err());
    assert_eq!(tree.bytes(), &blob[..]);
    let mut descriptors = [EMPTY_MEMORY_DESCRIPTOR(); 8];
    let mut allocator = allocator(&mut descriptors);
    assert!(matches!(
        tree.clone(blob.len(), &mut allocator).err(),
        Some(dtb_write::DtbError::InvalidCloneSize),
    ));
    assert!(matches!(
        tree.clone(0x20_0000, &mut allocator).err(),
        Some(dtb_write::DtbError::Memory(MemoryError::OutOfResources)),
    ));
    assert!(matches!(
        tree.clone(usize::MAX, &mut allocator).err(),
        Some(dtb_write::DtbError::SizeOverflow),
    ));
}

#[test]
fn refused_boot_tree_edits() {
    let blob = minimal();
    let mut tree = dtb::Dtb::from_ptr(8, &blob).unwrap();
    assert_eq!(tree.set_property_u32("/absent", "x", 1), Err(dtb::DtbError::NodeNotFound));
    assert_eq!(tree.set_property_u32("absent", "x", 1), Err(dtb::DtbError::InvalidPath));
    assert_eq!(tree.create_node("chosen"), Err(dtb::DtbError::InvalidPath));
    assert_eq!(tree.create_node("/chosen"), Err(dtb::DtbError::BufferTooSmall));
    assert_eq!(dtb::Dtb::from_ptr(0, &blob).err(), Some(dtb::DtbError::NullPointer));
    assert_eq!(dtb::Dtb::from_ptr(4, &blob).err(), Some(dtb::DtbError::MisalignedPointer));
    assert_eq!(dtb::Dtb::from_ptr(8, &[0u8; 64]).err(), Some(dtb::DtbError::BadMagic));
}

#[test]
fn values_are_inserted_at_offsets() {
    let blob = minimal();
    let size = blob.len();
    let mut tree = dtb::Dtb::from_ptr(8, &blob).unwrap();
    assert_eq!(tree.insert_u32(size - 4, 0x0102_0304), Ok(size));
    assert_eq!(&tree.bytes()[size - 4..], &[1, 2, 3, 4]);
    assert_eq!(tree.insert_u64(size - 8, 0x1122_3344_5566_7788), Ok(size));
    assert_eq!(tree.bytes()[size - 8], 0x11);
    assert_eq!(tree.insert_string(size - 4, "abc"), Ok(size));
    assert_eq!(&tree.bytes()[size - 4..], b"abc\0");
    assert_eq!(tree.insert_u32(size - 3, 0), Err(dtb::DtbError::BufferTooSmall));
    assert_eq!(tree.insert_u64(usize::MAX, 0), Err(dtb::DtbError::SizeOverflow));
}

#[test]
fn creating_nodes_keeps_the_rest() {
    let blob = board();
    let tree = dtb::Dtb::from_ptr(0x1000, &blob).unwrap();
    let mut descriptors = [EMPTY_MEMORY_DESCRIPTOR(); 8];
    let mut allocator = allocator(&mut descriptors);
    let mut copy = tree.clone(tree.size() + 8 * 1024, &mut allocator).unwrap();
    let before = copy.bytes().to_vec();
    copy.create_node("/firmware/boot/stage").unwrap();
    let after = copy.bytes().to_vec();
    assert_eq!(after.len(), before.len());
    let old = Fdt::from_ptr(8, &before).unwrap();
    let new = Fdt::from_ptr(8, &after).unwrap();
    let names = |fdt: &Fdt<'_>, path: &str| {
        let mut children = Vec::new();
        fdt.for_each_child(fdt.find_node(path).unwrap(), &mut children);
        children.iter().map(|child| child.name.to_string()).collect::<Vec<String>>()
    };
    let mut expected = names(&old, "/");
    expected.push("firmware".to_string());
    assert_eq!(names(&new, "/"), expected);
    assert_eq!(names(&new, "/firmware"), vec!["boot".to_string()]);
    assert_eq!(names(&new, "/firmware/boot"), vec!["stage".to_string()]);
    assert!(names(&new, "/firmware/boot/stage").is_empty());
    for child in names(&old, "/") {
        let path = format!("/{}", child);
        assert_eq!(names(&new, &path), names(&old, &path));
        let (there, here) = (old.find_node(&path).unwrap(), new.find_node(&path).unwrap());
        for property in ["reg", "device_type", "no-map", "compatible"] {
            assert_eq!(new.get_property(here, property), old.get_property(there, property));
        }
    }
    assert_eq!(copy.create_node("/firmware/boot/stage"), Ok(()));
    assert_eq!(copy.bytes(), &after[..]);
}

#[test]
fn trees_smaller_than_their_header() {
    let mut blob = minimal();
    blob[4..8].copy_from_slice(&20u32.to_be_bytes());
    let mut tree = dtb::Dtb::from_ptr(8, &blob).unwrap();
    assert_eq!(tree.size(), 20);
    assert_eq!(tree.bytes(), &blob[..20]);
    assert_eq!(tree.header().total_size(), 20);
    assert_eq!(
        tree.header().size_dt_struct(),
        u32::from_be_bytes([blob[36], blob[37], blob[38], blob[39]]),
    );
    assert_eq!(tree.create_node("/chosen"), Err(dtb::DtbError::BufferTooSmall));
    let mut descriptors = [EMPTY_MEMORY_DESCRIPTOR(); 8];
    let mut allocator = allocator(&mut descriptors);
    let copy = tree.clone(100, &mut allocator).unwrap();
    assert_eq!(copy.size(), 4096);
    assert_eq!(copy.header().total_size(), 4096);
    assert_eq!(copy.header().size_dt_struct(), 0);
}

/// A blob with the given header words and bytes behind the header.
fn raw_blob(total: u32, structure: (u32, u32), strings: (u32, u32), body: &[u8]) -> Vec<u8> {
    let words =
        [0xd00d_feed, total, structure.0, strings.0, 40, 17, 16, 0, strings.1, structure.1];
    let mut blob: Vec<u8> = words.iter().flat_map(|word: &u32| word.to_be_bytes()).collect();
    blob.extend(body);
    blob.resize(total as usize, 0);
    blob
}

fn words(values: &[u32]) -> Vec<u8> {
    values.iter().flat_map(|value| value.to_be_bytes()).collect()
}

#[test]
fn overlapping_blocks_are_edited() {
    let mut blob = minimal();
    let size = u32::from_be_bytes([blob[36], blob[37], blob[38], blob[39]]);
    blob[36..40].copy_from_slice(&(size + 4).to_be_bytes());
    let mut descriptors = [EMPTY_MEMORY_DESCRIPTOR(); 8];
    let mut allocator = allocator(&mut descriptors);
    let tree = dtb_write::Dtb::from_ptr(8, &blob).unwrap();
    let mut copy = tree.clone(8192, &mut allocator).unwrap();
    assert_eq!(copy.set_property_string("/", "model", "another model"), Ok(()));
    let fdt = Fdt::from_ptr(8, copy.bytes()).unwrap();
    assert_eq!(fdt.get_property_string(fdt.root_node().unwrap(), "model"), Some("another model"));
    let boot_tree = dtb::Dtb::from_ptr(8, &blob).unwrap();
    let mut boot_copy = boot_tree.clone(8192, &mut allocator).unwrap();
    assert_eq!(boot_copy.set_property_string("/", "model", "another model"), Ok(()));
    assert_eq!(boot_copy.bytes(), copy.bytes());
}

#[test]
fn sizes_that_do_not_fit_leave_moved_bytes() {
    let mut body = words(&[1, 0, 3, 100, 21]);
    body.extend(b"\0big\0");
    body.resize(120, 0);
    body.extend(words(&[2, 9]));
    let blob = raw_blob(168, (40, 128), (40, 128), &body);
    let mut tree = dtb_write::Dtb::from_ptr(8, &blob).unwrap();
    assert_eq!(tree.set_property_u32("/", "big", 7), Err(dtb_write::DtbError::SizeOverflow));
    let mut boot_tree = dtb::Dtb::from_ptr(8, &blob).unwrap();
    assert_eq!(boot_tree.set_property_u32("/", "big", 7), Err(dtb::DtbError::SizeOverflow));
    for bytes in [tree.bytes(), boot_tree.bytes()] {
        assert_eq!(bytes[12..16], 40u32.to_be_bytes());
        assert_eq!(bytes[36..40], 32u32.to_be_bytes());
        assert_eq!(bytes[48..64], [0u8; 16]);
        assert_eq!(&bytes[64..72], &words(&[2, 9])[..]);
        assert_eq!(bytes[72..], blob[72..]);
    }
}

#[test]
fn walks_that_leave_the_blob() {
    let blob = raw_blob(56, (40, 16), (56, 0), &words(&[1, 0, 4, 4]));
    let mut boot_tree = dtb::Dtb::from_ptr(8, &blob).unwrap();
    assert_eq!(boot_tree.set_property_u32("/", "x", 1), Err(dtb::DtbError::BufferTooSmall));
    assert_eq!(boot_tree.create_node("/a"), Err(dtb::DtbError::BufferTooSmall));
    let mut tree = dtb_write::Dtb::from_ptr(8, &blob).unwrap();
    assert_eq!(tree.set_property_u32("/", "x", 1), Err(dtb_write::DtbError::BadStructure));
    assert_eq!(tree.create_node("/a"), Err(dtb_write::DtbError::BadStructure));
}

#[test]
fn offsets_are_aligned_from_the_start_of_the_blob() {
    let body = [0, 0, 0, 0, 1, 0, 0, 0, 0, 0, 0, 2];
    let blob = raw_blob(256, (41, 11), (52, 0), &body);
    let mut tree = dtb::Dtb::from_ptr(8, &blob).unwrap();
    assert_eq!(tree.create_node("/a/b"), Ok(()));
    let mut expected = words(&[1]);
    expected.extend(b"a\0\0\0");
    expected.extend(words(&[1]));
    expected.extend(b"b\0\0\0");
    expected.extend(words(&[2, 2, 2]));
    assert_eq!(&tree.bytes()[48..76], &expected[..]);
    assert_eq!(tree.header().size_dt_struct(), 35);
    assert_eq!(tree.header().off_dt_strings(), 76);
    assert_eq!(tree.set_property_u32("/a", "x", 7), Ok(()));
    assert_eq!(&tree.bytes()[56..72], &words(&[3, 4, 0, 7])[..]);
}

#[test]
fn headers_can_become_unsound() {
    let blob = raw_blob(168, (40, 128), (100, 0), &words(&[1, 0, 2]));
    let mut tree = dtb_write::Dtb::from_ptr(8, &blob).unwrap();
    let unsound = Err(dtb_write::DtbError::Fdt(FdtError::InvalidHeader));
    assert_eq!(tree.create_node("/a"), unsound);
    assert_eq!(tree.bytes()[36..40], 140u32.to_be_bytes());
    assert_eq!(tree.set_property_u32("/", "x", 1), unsound);
    assert_eq!(tree.create_node("/b"), unsound);
    assert_eq!(tree.create_node("b"), Err(dtb_write::DtbError::InvalidPath));
}
