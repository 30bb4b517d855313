//! Linux boot flow.

use vstd::prelude::*;
use vstd::string::*;
use vstd::utf8::*;
use crate::bytes::{be32, be64_bytes, le32, le64, read_le_u32, read_le_u64, utf8_text, window};
use crate::devicetree::MemoryRegion;
use crate::dtb::{
    clone_reported, created_path_is_found, path_created, pointer_fault, property_reads_back,
    property_set_at, Dtb, DtbError,
};
use crate::dtb_agree::{enlarged_tree_is_proper, proper_tree};
use crate::dtb_change::{clone_granted, enlarged, plain_name};
use crate::dtb_read::{fdt_fault, reserve_map_of, strings_of, structure_of};
use crate::ext4::Ext4Volume;
use crate::ext4_format::{superblock_layout, Ext4Layout};
use crate::fat::{boot_layout, FatLayout, FatVolume};
use crate::fdt_nodes::{node_at_path, parts_from, path_parts, property_of};
use crate::filesystem::{
    all_texts, candidates_tried, first_loaded, load_first_file, loaded_file_line, one_more,
    print_loaded_file, texts_of, FileInfo, FileInfoView, FileSystem, FileType, LoadedFile,
    LoadedView, MountedVolume, Trial,
};
use crate::gpt::ascii_is_utf8;
use crate::memory::{
    aligned_allocation, map_of_tree, page_allocator_from_live_fdt, pages_needed, parts_of_tree,
    AllocationDirection, FirmwareRanges, PageAllocator, EFI_MEMORY_TYPE, EMPTY_MEMORY_DESCRIPTOR,
};
use crate::memory_laws::granted_aligned_pages_were_free;
use crate::memory_map::{kind_at, map_sound, released, CONVENTIONAL, EFI_MEMORY_DESCRIPTOR};
use crate::partition::PartitionEntry;
use crate::path::copy_range;
use crate::print::{decimal_text, print_decimal_u64, rendered, FormatArgument};
use crate::virtio::{sector_at, BlockDevice, VirtioError};

verus! {

/// RISC-V Linux kernels must be loaded at a 2 MiB-aligned address.
pub const KERNEL_ALIGNMENT: u64 = 0x20_0000;

/// Extra space reserved in the cloned Linux device tree.
pub const LINUX_DTB_EXTRA_SIZE: usize = 8192;

/// Fixed-capacity owned boot path stored without external pointers.
#[derive(Clone, Copy)]
pub struct BootPath {
    /// UTF-8 bytes for the path text.
    bytes: [u8; 16],
    /// Number of initialized bytes in `bytes`.
    len: usize,
}

impl BootPath {
    /// Whether the stored bytes are text.
    pub closed spec fn sound(&self) -> bool {
        self.len <= 16 && valid_utf8(self.bytes@.take(self.len as int))
    }

    /// The stored text.
    pub closed spec fn text(&self) -> Seq<u8> {
        self.bytes@.take(self.len as int)
    }

    /// Builds one boot path by copying UTF-8 bytes, at most sixteen of them.
    pub fn from_bytes(bytes: &[u8]) -> (path: Option<Self>)
        requires
            valid_utf8(bytes@),
        ensures
            path is Some <==> bytes@.len() <= 16,
            path matches Some(stored) ==> stored.sound() && stored.text() == bytes@,
    {
        if bytes.len() > 16 {
            return None;
        }
        let mut path_bytes: [u8; 16] = [0u8; 16];
        let mut index: usize = 0;
        while index < bytes.len()
            invariant
                index <= bytes@.len() <= 16,
                forall|i: int| 0 <= i < index ==> path_bytes@[i] == bytes@[i],
            decreases bytes@.len() - index,
        {
            path_bytes[index] = bytes[index];
            index += 1;
        }
        let path = BootPath { bytes: path_bytes, len: bytes.len() };
        assert(path.bytes@.take(path.len as int) =~= bytes@);
        Some(path)
    }

    /// Returns the stored path as a UTF-8 string slice.
    pub fn as_str(&self) -> (text: &str)
        requires
            self.sound(),
        ensures
            text.spec_bytes() == self.text(),
    {
        let stored = &self.bytes.as_slice()[0..self.len];
        assert(stored@ =~= self.text());
        match utf8_text(stored) {
            Some(text) => text,
            None => "",
        }
    }
}

/// The text of an ASCII literal has as many bytes as characters.
pub proof fn literal_bytes(text: &str)
    requires
        is_ascii_chars(text@),
    ensures
        text.spec_bytes().len() == text@.len(),
        valid_utf8(text.spec_bytes()),
        forall|i: int| 0 <= i < text@.len() ==> text.spec_bytes()[i] == #[trigger] text@[i] as u8,
{
    is_ascii_chars_encode_utf8(text@);
    encode_utf8_valid_utf8(text@);
}

/// Returns one kernel candidate path by search order.
pub fn kernel_candidate_path(index: usize) -> (path: Option<BootPath>)
    ensures
        match path {
            Some(candidate) => candidate.sound() && (index == 0 && candidate.text()
                == "/boot/vmlinuz".spec_bytes() || index == 1 && candidate.text()
                == "/vmlinuz".spec_bytes()),
            None => index > 1,
        },
{
    proof {
        reveal_strlit("/boot/vmlinuz");
        reveal_strlit("/vmlinuz");
        literal_bytes("/boot/vmlinuz");
        literal_bytes("/vmlinuz");
    }
    if index == 0 {
        BootPath::from_bytes("/boot/vmlinuz".as_bytes())
    } else if index == 1 {
        BootPath::from_bytes("/vmlinuz".as_bytes())
    } else {
        None
    }
}

/// Returns one initrd candidate path by search order.
pub fn initrd_candidate_path(index: usize) -> (path: Option<BootPath>)
    ensures
        match path {
            Some(candidate) => candidate.sound() && (index == 0 && candidate.text()
                == "/boot/initrd.img".spec_bytes() || index == 1 && candidate.text()
                == "/initrd.img".spec_bytes()),
            None => index > 1,
        },
{
    proof {
        reveal_strlit("/boot/initrd.img");
        reveal_strlit("/initrd.img");
        literal_bytes("/boot/initrd.img");
        literal_bytes("/initrd.img");
    }
    if index == 0 {
        BootPath::from_bytes("/boot/initrd.img".as_bytes())
    } else if index == 1 {
        BootPath::from_bytes("/initrd.img".as_bytes())
    } else {
        None
    }
}

/// Errors returned while preparing one Linux boot.
#[derive(Clone, Copy, Debug, PartialEq, Eq, Structural)]
pub enum LinuxBootError {
    /// The selected kernel artifact was not a regular file.
    KernelIsDirectory,
    /// The selected initrd artifact was not a regular file.
    InitrdIsDirectory,
    /// The loaded kernel image is smaller than the fixed boot header.
    KernelImageTooSmall,
    /// The loaded kernel image header had an unexpected `magic` value.
    InvalidKernelMagic,
    /// The loaded kernel image header had an unexpected `magic2` value.
    InvalidKernelMagic2,
    /// The loaded initrd range overflowed the supported 64-bit address space.
    InitrdRangeOverflow,
    /// Cloning the device tree for Linux boot failed.
    DeviceTreeClone(DtbError),
    /// Updating the cloned device tree for Linux boot failed.
    DeviceTreeUpdate(DtbError),
}

/// Filesystem classification derived from probing one partition start sector.
#[derive(Clone, Copy, Debug, PartialEq, Eq, Structural)]
pub enum LinuxBootFilesystem {
    /// The partition mounted successfully as FAT.
    Fat,
    /// The partition mounted successfully as ext4.
    Ext4,
    /// The partition did not match the supported filesystem probes.
    Unknown,
}

/// Parsed RISC-V Linux boot image header.
#[derive(Clone, Copy, Debug, PartialEq, Eq, Structural)]
pub struct LinuxBootImageHeader {
    /// Executable code word 0.
    pub code0: u32,
    /// Executable code word 1.
    pub code1: u32,
    /// Image load offset.
    pub text_offset: u64,
    /// Effective image size.
    pub image_size: u64,
    /// Kernel flags.
    pub flags: u64,
    /// Boot header version.
    pub version: u32,
    /// Reserved field that must be zero in the documented layout.
    pub res1: u32,
    /// Reserved field that must be zero in the documented layout.
    pub res2: u64,
    /// Deprecated magic number, "RISCV".
    pub magic: u64,
    /// Replacement magic number, "RSC\x05".
    pub magic2: u32,
    /// Reserved field for the PE/COFF header offset.
    pub res3: u32,
}

/// The header in the first 64 bytes of a kernel image.
pub open spec fn image_header(bytes: Seq<u8>) -> LinuxBootImageHeader {
    LinuxBootImageHeader {
        code0: le32(bytes, 0),
        code1: le32(bytes, 4),
        text_offset: le64(bytes, 8),
        image_size: le64(bytes, 16),
        flags: le64(bytes, 24),
        version: le32(bytes, 32),
        res1: le32(bytes, 36),
        res2: le64(bytes, 40),
        magic: le64(bytes, 48),
        magic2: le32(bytes, 56),
        res3: le32(bytes, 60),
    }
}

/// Why bytes are no RISC-V Linux kernel image, or nothing where they are one.
pub open spec fn kernel_fault(bytes: Seq<u8>) -> Option<LinuxBootError> {
    if bytes.len() < 64 {
        Some(LinuxBootError::KernelImageTooSmall)
    } else if image_header(bytes).magic != 0x56_4353_4952 {
        Some(LinuxBootError::InvalidKernelMagic)
    } else if image_header(bytes).magic2 != 0x0543_5352 {
        Some(LinuxBootError::InvalidKernelMagic2)
    } else {
        None
    }
}

/// Parses the fixed-size Linux boot image header from `bytes`.
pub fn parse_linux_boot_image_header(bytes: &[u8]) -> (header: Result<
    LinuxBootImageHeader,
    LinuxBootError,
>)
    ensures
        header == if bytes@.len() < 64 {
            Err(LinuxBootError::KernelImageTooSmall)
        } else {
            Ok(image_header(bytes@))
        },
{
    if bytes.len() < 64 {
        return Err(LinuxBootError::KernelImageTooSmall);
    }
    Ok(
        LinuxBootImageHeader {
            code0: read_le_u32(bytes, 0),
            code1: read_le_u32(bytes, 4),
            text_offset: read_le_u64(bytes, 8),
            image_size: read_le_u64(bytes, 16),
            flags: read_le_u64(bytes, 24),
            version: read_le_u32(bytes, 32),
            res1: read_le_u32(bytes, 36),
            res2: read_le_u64(bytes, 40),
            magic: read_le_u64(bytes, 48),
            magic2: read_le_u32(bytes, 56),
            res3: read_le_u32(bytes, 60),
        },
    )
}

/// Validates the RISC-V Linux boot-image header magic fields. Both the deprecated
/// `magic` field and the replacement `magic2` field must match.
pub fn check_kernel_header(kernel_image: &LoadedFile) -> (outcome: Result<(), LinuxBootError>)
    requires
        kernel_image.sound(),
    ensures
        match outcome {
            Ok(()) => kernel_fault(kernel_image.data()) is None,
            Err(error) => kernel_fault(kernel_image.data()) == Some(error),
        },
{
    let header = match parse_linux_boot_image_header(kernel_image.bytes()) {
        Ok(header) => header,
        Err(error) => return Err(error),
    };
    if header.magic != 0x56_4353_4952 {
        return Err(LinuxBootError::InvalidKernelMagic);
    }
    if header.magic2 != 0x0543_5352 {
        return Err(LinuxBootError::InvalidKernelMagic2);
    }
    Ok(())
}

/// The Linux root-device argument for one virtio block device and partition: the
/// device letter and the decimal partition number.
pub open spec fn root_text(block_device_index: int, partition_number: nat) -> Seq<u8> {
    "root=/dev/vd".spec_bytes().push((0x61 + block_device_index) as u8) + decimal_text(
        partition_number,
    )
}

/// A 32-bit number has at most ten decimal digits, which are ASCII.
proof fn decimal_is_short(value: nat, digits: nat)
    requires
        digits >= 1,
        digits == 1 ==> value < 10,
        digits == 2 ==> value < 100,
        digits == 3 ==> value < 1000,
        digits == 4 ==> value < 1_0000,
        digits == 5 ==> value < 10_0000,
        digits == 6 ==> value < 100_0000,
        digits == 7 ==> value < 1000_0000,
        digits == 8 ==> value < 1_0000_0000,
        digits == 9 ==> value < 10_0000_0000,
        digits == 10 ==> value < 100_0000_0000,
        digits <= 10,
    ensures
        1 <= decimal_text(value).len() <= digits,
        forall|i: int|
            0 <= i < decimal_text(value).len() ==> 0x30 <= #[trigger] decimal_text(value)[i] <= 0x39,
    decreases value,
{
    if value >= 10 {
        decimal_is_short(value / 10, (digits - 1) as nat);
    }
}

/// Returns the Linux root-device command line for one virtio block device and
/// partition. There are letters for 26 devices.
pub fn root_command_line<'a>(
    block_device_index: usize,
    partition_number: u32,
    buffer: &'a mut [u8; 24],
) -> (command_line: Option<&'a str>)
    ensures
        match command_line {
            Some(text) => block_device_index < 26 && text.spec_bytes() == root_text(
                block_device_index as int,
                partition_number as nat,
            ),
            None => block_device_index >= 26,
        },
{
    if block_device_index >= 26 {
        return None;
    }
    proof {
        reveal_strlit("root=/dev/vd");
        literal_bytes("root=/dev/vd");
        decimal_is_short(partition_number as nat, 10);
    }
    let prefix = "root=/dev/vd".as_bytes();
    let mut text = copy_range(prefix, 0, prefix.len());
    assert(text@ =~= prefix@);
    text.push(0x61 + block_device_index as u8);
    print_decimal_u64(partition_number as u64, &mut text);
    assert(text@ =~= root_text(block_device_index as int, partition_number as nat));
    let mut index: usize = 0;
    while index < text.len()
        invariant
            index <= text@.len() <= 24,
            forall|i: int| 0 <= i < index ==> buffer@[i] == text@[i],
        decreases text@.len() - index,
    {
        buffer[index] = text[index];
        index += 1;
    }
    let written = &buffer.as_slice()[0..text.len()];
    assert(written@ =~= text@);
    proof {
        assert forall|i: int| 0 <= i < written@.len() implies written@[i] <= 0x7f by {
            if i < 12 {
                assert(written@[i] == "root=/dev/vd".spec_bytes()[i]);
                assert("root=/dev/vd".spec_bytes()[i] == "root=/dev/vd"@[i] as u8);
            } else if i > 12 {
                assert(written@[i] == decimal_text(partition_number as nat)[i - 13]);
            }
        }
        ascii_is_utf8(written@);
    }
    match utf8_text(written) {
        Some(command_line) => Some(command_line),
        None => Some(""),
    }
}

/// Copies one loaded kernel image into a low 2 MiB-aligned memory slot and frees
/// the memory that it took before.
pub fn relocate_kernel(allocator: &mut PageAllocator<'_>, kernel_loaded: &LoadedFile) -> (relocated:
    Option<LoadedFile>)
    requires
        old(allocator).well_formed(),
        kernel_loaded.sound(),
    ensures
        final(allocator).well_formed(),
        final(allocator).capacity() == old(allocator).capacity(),
        final(final(allocator).buffer())@ == final(old(allocator).buffer())@,
        match kernel_relocated(
            old(allocator).map(),
            kernel_loaded.physical_start,
            kernel_loaded.page_count,
            kernel_loaded.size_bytes,
            old(allocator).capacity(),
        ) {
            (map, Some(start)) => final(allocator).map() == map && (relocated matches Some(file)
                && file.physical_start == start && file.page_count == kernel_loaded.page_count
                && file.size_bytes == kernel_loaded.size_bytes && file.contents@
                == kernel_loaded.contents@),
            (map, None) => final(allocator).map() == map && relocated is None,
        },
{
    reveal(kernel_relocated);
    let relocated_start: u64 = match allocator.allocate_aligned_pages_for_size(
        EFI_MEMORY_TYPE::EfiBootServicesData,
        kernel_loaded.size_bytes,
        KERNEL_ALIGNMENT,
        AllocationDirection::Low,
    ) {
        Ok(start) => start,
        Err(_) => return None,
    };
    match allocator.FreePages(kernel_loaded.physical_start, kernel_loaded.page_count) {
        Ok(()) => {},
        Err(_) => return None,
    }
    let contents = copy_range(
        kernel_loaded.contents.as_slice(),
        0,
        kernel_loaded.contents.len(),
    );
    assert(contents@ =~= kernel_loaded.contents@);
    Some(
        LoadedFile::new(
            relocated_start,
            kernel_loaded.page_count,
            kernel_loaded.size_bytes,
            contents,
        ),
    )
}

/// The memory map after a kernel was moved to aligned memory, and its new address.
/// The new memory stays taken when the old cannot be freed.
#[verifier::opaque]
pub open spec fn kernel_relocated(
    map: Seq<EFI_MEMORY_DESCRIPTOR>,
    start: u64,
    page_count: usize,
    size_bytes: usize,
    capacity: nat,
) -> (Seq<EFI_MEMORY_DESCRIPTOR>, Option<u64>) {
    if size_bytes + 4095 > u64::MAX {
        (map, None)
    } else {
        match aligned_allocation(
            map,
            EFI_MEMORY_TYPE::EfiBootServicesData,
            pages_needed(size_bytes as int),
            KERNEL_ALIGNMENT,
            AllocationDirection::Low,
            capacity,
        ) {
            Err(_) => (map, None),
            Ok((place, taken)) => if page_count == 0 || start % 4096 != 0 {
                (taken, None)
            } else {
                match released(taken, start, page_count as u64, capacity) {
                    Ok(after) => (after, Some(place)),
                    Err(_) => (taken, None),
                }
            },
        }
    }
}

/// Linux boot request built from already-selected boot artifacts.
pub struct LinuxBootRequest<'a> {
    /// Device tree passed to the Linux boot flow.
    pub device_tree: Dtb,
    /// Kernel command line passed to Linux.
    pub command_line: &'a str,
    /// Size in bytes of the selected kernel image.
    pub kernel_size_bytes: usize,
    /// Size in bytes of the selected initrd image, if one is present.
    pub initrd_size_bytes: Option<usize>,
}

/// What a step of changing a tree leaves and how it went, with the error as it is
/// reported for the boot.
pub open spec fn update_reported(step: (Seq<u8>, Result<(), DtbError>)) -> (
    Seq<u8>,
    Result<(), LinuxBootError>,
) {
    match step.1 {
        Ok(_) => (step.0, Ok(())),
        Err(error) => (step.0, Err(LinuxBootError::DeviceTreeUpdate(error))),
    }
}

/// The tree of `room` bytes after the range of the initrd was written to `/chosen`.
pub open spec fn initrd_filled(blob: Seq<u8>, room: int, start: u64, size: usize) -> (
    Seq<u8>,
    Result<(), LinuxBootError>,
) {
    let chosen = "/chosen".spec_bytes();
    if start + size > u64::MAX {
        (blob, Err(LinuxBootError::InitrdRangeOverflow))
    } else {
        let first = update_reported(
            property_set_at(
                blob,
                room,
                chosen,
                "linux,initrd-start".spec_bytes(),
                be64_bytes(start),
            ),
        );
        match first.1 {
            Err(_) => first,
            Ok(_) => update_reported(
                property_set_at(
                    first.0,
                    room,
                    chosen,
                    "linux,initrd-end".spec_bytes(),
                    be64_bytes((start + size) as u64),
                ),
            ),
        }
    }
}

/// The tree of `room` bytes after `/chosen` was filled for a boot: the range of the initrd
/// where there is one, and the command line. The first step that fails ends it.
pub open spec fn chosen_filled(
    blob: Seq<u8>,
    room: int,
    initrd: Option<(u64, usize)>,
    command_line: Seq<u8>,
) -> (Seq<u8>, Result<(), LinuxBootError>) {
    let chosen = "/chosen".spec_bytes();
    let created = update_reported(path_created(blob, room, chosen));
    let ranged = match (created.1, initrd) {
        (Ok(_), Some((start, size))) => initrd_filled(created.0, room, start, size),
        _ => created,
    };
    match ranged.1 {
        Err(_) => ranged,
        Ok(_) => update_reported(
            property_set_at(
                ranged.0,
                room,
                chosen,
                "bootargs".spec_bytes(),
                command_line.push(0u8),
            ),
        ),
    }
}

impl<'a> LinuxBootRequest<'a> {
    /// Returns the device tree selected for this Linux boot.
    pub fn device_tree(&self) -> (tree: &Dtb)
        ensures
            *tree == self.device_tree,
    {
        &self.device_tree
    }

    /// Returns the Linux command line.
    pub fn command_line(&self) -> (text: &'a str)
        ensures
            text == self.command_line,
    {
        self.command_line
    }

    /// Returns the size in bytes of the selected kernel image.
    pub fn kernel_size_bytes(&self) -> (size: usize)
        ensures
            size == self.kernel_size_bytes,
    {
        self.kernel_size_bytes
    }

    /// Returns the size in bytes of the selected initrd image, if any.
    pub fn initrd_size_bytes(&self) -> (size: Option<usize>)
        ensures
            size == self.initrd_size_bytes,
    {
        self.initrd_size_bytes
    }

    /// Fills Linux-specific `/chosen` properties in the cloned device tree.
    pub fn update_device_tree(&mut self, initrd: Option<&LoadedFile>, command_line: &str) -> (outcome:
        Result<(), LinuxBootError>)
        requires
            old(self).device_tree.well_formed(),
        ensures
            final(self).device_tree.well_formed(),
            final(self).device_tree.address() == old(self).device_tree.address(),
            final(self).command_line == old(self).command_line,
            final(self).kernel_size_bytes == old(self).kernel_size_bytes,
            final(self).initrd_size_bytes == old(self).initrd_size_bytes,
            final(self).device_tree.blob_size() == old(self).device_tree.blob_size(),
            (final(self).device_tree.head(), outcome) == chosen_filled(
                old(self).device_tree.head(),
                old(self).device_tree.blob_size(),
                initrd_range(initrd),
                command_line.spec_bytes(),
            ),
    {
        match self.device_tree.create_node("/chosen") {
            Ok(()) => {},
            Err(error) => return Err(LinuxBootError::DeviceTreeUpdate(error)),
        }
        if let Some(file) = initrd {
            let start: u64 = file.physical_start;
            let size: u64 = file.size_bytes as u64;
            if size > u64::MAX - start {
                return Err(LinuxBootError::InitrdRangeOverflow);
            }
            match self.device_tree.set_property_u64("/chosen", "linux,initrd-start", start) {
                Ok(()) => {},
                Err(error) => return Err(LinuxBootError::DeviceTreeUpdate(error)),
            }
            match self.device_tree.set_property_u64("/chosen", "linux,initrd-end", start + size) {
                Ok(()) => {},
                Err(error) => return Err(LinuxBootError::DeviceTreeUpdate(error)),
            }
        }
        match self.device_tree.set_property_string("/chosen", "bootargs", command_line) {
            Ok(()) => Ok(()),
            Err(error) => Err(LinuxBootError::DeviceTreeUpdate(error)),
        }
    }
}

/// Where an initrd is, if there is one.
pub open spec fn initrd_range(initrd: Option<&LoadedFile>) -> Option<(u64, usize)> {
    match initrd {
        Some(file) => Some((file.physical_start, file.size_bytes)),
        None => None,
    }
}

/// Builds one Linux boot request from already-selected boot artifacts. Use `None`
/// for `initrd` when the boot flow does not include an initrd.
pub fn boot<'a, Kernel: FileInfoView, Initrd: FileInfoView>(
    kernel: &Kernel,
    initrd: Option<&Initrd>,
    device_tree: &Dtb,
    allocator: &mut PageAllocator<'_>,
    command_line: &'a str,
) -> (request: Result<LinuxBootRequest<'a>, LinuxBootError>)
    requires
        device_tree.well_formed(),
        be32(device_tree.head(), 4) <= device_tree.blob_size(),
        old(allocator).well_formed(),
    ensures
        final(allocator).well_formed(),
        final(allocator).capacity() == old(allocator).capacity(),
        final(final(allocator).buffer())@ == final(old(allocator).buffer())@,
        match request_granted(
            kernel.metadata(),
            (match initrd {
                Some(file) => Some(file.metadata()),
                None => None,
            }),
            device_tree.blob(),
            be32(device_tree.head(), 4),
            old(allocator).map(),
            old(allocator).capacity(),
        ) {
            Err(error) => request == Err::<LinuxBootRequest<'a>, LinuxBootError>(error)
                && final(allocator).map() == old(allocator).map(),
            Ok((start, tree, map)) => final(allocator).map() == map && (request matches Ok(built)
                && built.device_tree.well_formed() && built.device_tree.address() == start
                && built.device_tree.head() == tree && built.device_tree.blob_size() == tree.len()
                && built.command_line == command_line
                && built.kernel_size_bytes == kernel.metadata().size_bytes
                && built.initrd_size_bytes == match initrd {
                Some(file) => Some(file.metadata().size_bytes),
                None => None,
            }),
        },
{
    match kernel.file_type() {
        FileType::File => {},
        FileType::Directory => return Err(LinuxBootError::KernelIsDirectory),
    }
    let initrd_size_bytes = match initrd {
        Some(initrd_file) => {
            match initrd_file.file_type() {
                FileType::File => {},
                FileType::Directory => return Err(LinuxBootError::InitrdIsDirectory),
            }
            Some(initrd_file.size_bytes())
        },
        None => None,
    };
    let size = device_tree.size();
    if size > usize::MAX - LINUX_DTB_EXTRA_SIZE {
        return Err(LinuxBootError::DeviceTreeClone(DtbError::SizeOverflow));
    }
    let cloned = match device_tree.clone(size + LINUX_DTB_EXTRA_SIZE, allocator) {
        Ok(cloned) => cloned,
        Err(error) => return Err(LinuxBootError::DeviceTreeClone(error)),
    };
    Ok(
        LinuxBootRequest {
            device_tree: cloned,
            command_line,
            kernel_size_bytes: kernel.size_bytes(),
            initrd_size_bytes,
        },
    )
}

/// The address and the bytes of the device tree for a boot and the memory map with
/// its memory taken, or why the request is refused. `total` is the size that the
/// header of the tree tells.
pub open spec fn request_granted(
    kernel: FileInfo,
    initrd: Option<FileInfo>,
    tree: Seq<u8>,
    total: u32,
    map: Seq<EFI_MEMORY_DESCRIPTOR>,
    capacity: nat,
) -> Result<(u64, Seq<u8>, Seq<EFI_MEMORY_DESCRIPTOR>), LinuxBootError> {
    if kernel.file_type is Directory {
        Err(LinuxBootError::KernelIsDirectory)
    } else if initrd matches Some(file) && file.file_type is Directory {
        Err(LinuxBootError::InitrdIsDirectory)
    } else if tree.len() + LINUX_DTB_EXTRA_SIZE > usize::MAX {
        Err(LinuxBootError::DeviceTreeClone(DtbError::SizeOverflow))
    } else {
        match clone_granted(
            total as int,
            tree.len() + LINUX_DTB_EXTRA_SIZE,
            map,
            capacity,
        ) {
            Err(fault) => Err(LinuxBootError::DeviceTreeClone(clone_reported(fault))),
            Ok((start, size, after)) => Ok((start, enlarged(tree.take(total as int), size), after)),
        }
    }
}

/// What control is transferred to: the kernel's entry with the hart identifier in
/// `a0` and the address of the device tree in `a1`.
pub struct KernelStart {
    /// Address of the first kernel instruction.
    pub entry: u64,
    /// Hart identifier passed in register `a0`.
    pub boot_hart: usize,
    /// Updated device tree whose address is passed in `a1`.
    pub device_tree: Dtb,
}

/// The address and the bytes of the tree that a kernel is started with, and the
/// memory map then; or why the kernel is not started, and the memory map then.
#[verifier::opaque]
pub open spec fn start_prepared(
    kernel: (u64, usize),
    initrd: Option<(u64, usize)>,
    tree: Seq<u8>,
    total: u32,
    command_line: Seq<u8>,
    map: Seq<EFI_MEMORY_DESCRIPTOR>,
    capacity: nat,
) -> (Result<(u64, Seq<u8>), LinuxBootError>, Seq<EFI_MEMORY_DESCRIPTOR>) {
    let kernel_info = FileInfo { file_type: FileType::File, size_bytes: kernel.1 };
    let initrd_info = match initrd {
        Some((_, size)) => Some(FileInfo { file_type: FileType::File, size_bytes: size }),
        None => None,
    };
    match request_granted(kernel_info, initrd_info, tree, total, map, capacity) {
        Err(error) => (Err(error), map),
        Ok((start, cloned, after)) => match chosen_filled(
            cloned,
            cloned.len() as int,
            initrd,
            command_line,
        ) {
            (updated, Ok(_)) => (Ok((start, updated)), after),
            (_, Err(error)) => (Err(error), after),
        },
    }
}

/// Builds a Linux boot request, updates `/chosen`, and returns what control is to
/// be transferred to.
pub fn boot_and_start(
    kernel_image: &LoadedFile,
    initrd: Option<&LoadedFile>,
    device_tree: &Dtb,
    allocator: &mut PageAllocator<'_>,
    command_line: &str,
    boot_hart: usize,
) -> (start: Result<KernelStart, LinuxBootError>)
    requires
        device_tree.well_formed(),
        be32(device_tree.head(), 4) <= device_tree.blob_size(),
        old(allocator).well_formed(),
    ensures
        final(allocator).well_formed(),
        final(allocator).capacity() == old(allocator).capacity(),
        final(final(allocator).buffer())@ == final(old(allocator).buffer())@,
        ({
            let prepared = start_prepared(
                (kernel_image.physical_start, kernel_image.size_bytes),
                initrd_range(initrd),
                device_tree.blob(),
                be32(device_tree.head(), 4),
                command_line.spec_bytes(),
                old(allocator).map(),
                old(allocator).capacity(),
            );
            final(allocator).map() == prepared.1 && match start {
                Ok(ready) => ready.entry == kernel_image.physical_start && ready.boot_hart
                    == boot_hart && ready.device_tree.blob_size() == ready.device_tree.head().len()
                    && prepared.0 == Ok::<(u64, Seq<u8>), LinuxBootError>(
                    (ready.device_tree.address(), ready.device_tree.head()),
                ),
                Err(error) => prepared.0 == Err::<(u64, Seq<u8>), LinuxBootError>(error),
            }
        }),
{
    reveal(start_prepared);
    let kernel_info = FileInfo::new(FileType::File, kernel_image.size_bytes);
    let initrd_info = match initrd {
        Some(file) => Some(FileInfo::new(FileType::File, file.size_bytes)),
        None => None,
    };
    let mut request = match boot(
        &kernel_info,
        initrd_info.as_ref(),
        device_tree,
        allocator,
        command_line,
    ) {
        Ok(request) => request,
        Err(error) => return Err(error),
    };
    match request.update_device_tree(initrd, command_line) {
        Ok(()) => {},
        Err(error) => return Err(error),
    }
    Ok(
        KernelStart {
            entry: kernel_image.physical_start,
            boot_hart,
            device_tree: request.device_tree,
        },
    )
}

/// What came of loaded boot artifacts.
pub enum BootOutcome {
    /// No kernel candidate could be loaded.
    NoKernel,
    /// There is no root device name for the block device.
    UnsupportedRoot,
    /// The device tree could not be opened.
    InvalidDeviceTree(DtbError),
    /// The kernel is no RISC-V boot image.
    InvalidKernel(LinuxBootError),
    /// There is no aligned memory for the kernel.
    NotRelocated,
    /// The boot request was rejected, or its device tree could not be updated.
    Rejected {
        /// Address that the kernel was moved to.
        entry: u64,
        /// Why the kernel is not started.
        error: LinuxBootError,
    },
    /// The kernel is to be started.
    Start {
        /// Kernel image in aligned memory.
        kernel: LoadedFile,
        /// What control is transferred to.
        start: KernelStart,
    },
}

/// What a boot outcome says.
pub enum OutcomeView {
    NoKernel,
    UnsupportedRoot,
    InvalidDeviceTree(DtbError),
    InvalidKernel(LinuxBootError),
    NotRelocated,
    Rejected { entry: u64, error: LinuxBootError },
    Start { kernel: LoadedView, entry: u64, tree: LoadedView, boot_hart: usize },
}

impl BootOutcome {
    /// What the outcome says.
    pub open spec fn shown(&self) -> OutcomeView {
        match self {
            BootOutcome::NoKernel => OutcomeView::NoKernel,
            BootOutcome::UnsupportedRoot => OutcomeView::UnsupportedRoot,
            BootOutcome::InvalidDeviceTree(error) => OutcomeView::InvalidDeviceTree(*error),
            BootOutcome::InvalidKernel(error) => OutcomeView::InvalidKernel(*error),
            BootOutcome::NotRelocated => OutcomeView::NotRelocated,
            BootOutcome::Rejected { entry, error } => OutcomeView::Rejected {
                entry: *entry,
                error: *error,
            },
            BootOutcome::Start { kernel, start } => OutcomeView::Start {
                kernel: kernel.shown(),
                entry: start.entry,
                tree: LoadedView {
                    start: start.device_tree.address(),
                    data: start.device_tree.head(),
                },
                boot_hart: start.boot_hart,
            },
        }
    }
}

/// What comes of a loaded kernel and an initrd, and the memory map afterwards. The
/// device tree is at `address`, from where on `memory` can be read.
#[verifier::opaque]
pub open spec fn artifacts_booted(
    kernel: LoadedView,
    initrd: Option<LoadedView>,
    root: (usize, u32),
    boot_hart: usize,
    address: usize,
    memory: Seq<u8>,
    map: Seq<EFI_MEMORY_DESCRIPTOR>,
    capacity: nat,
) -> (OutcomeView, Seq<EFI_MEMORY_DESCRIPTOR>) {
    if root.0 >= 26 {
        (OutcomeView::UnsupportedRoot, map)
    } else {
        match (pointer_fault(address, memory), kernel_fault(kernel.data)) {
            (Some(error), _) => (OutcomeView::InvalidDeviceTree(error), map),
            (None, Some(error)) => (OutcomeView::InvalidKernel(error), map),
            (None, None) => {
                let size = kernel.data.len() as usize;
                match kernel_relocated(
                    map,
                    kernel.start,
                    pages_needed(size as int) as usize,
                    size,
                    capacity,
                ) {
                    (moved, None) => (OutcomeView::NotRelocated, moved),
                    (moved, Some(entry)) => {
                        let prepared = start_prepared(
                            (entry, size),
                            (match initrd {
                                Some(file) => Some((file.start, file.data.len() as usize)),
                                None => None,
                            }),
                            memory.take(be32(memory, 4) as int),
                            be32(memory, 4),
                            root_text(root.0 as int, root.1 as nat),
                            moved,
                            capacity,
                        );
                        match prepared.0 {
                            Err(error) => (OutcomeView::Rejected { entry, error }, prepared.1),
                            Ok((start, tree)) => (
                                OutcomeView::Start {
                                    kernel: LoadedView { start: entry, data: kernel.data },
                                    entry,
                                    tree: LoadedView { start, data: tree },
                                    boot_hart,
                                },
                                prepared.1,
                            ),
                        }
                    },
                }
            },
        }
    }
}

/// Where an initrd is and what it holds, if there is one.
pub open spec fn initrd_shown(initrd: Option<&LoadedFile>) -> Option<LoadedView> {
    match initrd {
        Some(file) => Some(file.shown()),
        None => None,
    }
}

/// Boots a loaded kernel and an initrd: names the root device, opens the device
/// tree, checks the kernel, moves it to aligned memory and prepares its start.
#[verifier::spinoff_prover]
#[verifier::rlimit(40)]
pub fn boot_loaded(
    kernel_loaded: &LoadedFile,
    initrd: Option<&LoadedFile>,
    allocator: &mut PageAllocator<'_>,
    block_device_index: usize,
    partition_number: u32,
    boot_hart: usize,
    device_tree_address: usize,
    device_tree_memory: &[u8],
) -> (outcome: BootOutcome)
    requires
        kernel_loaded.tight(),
        initrd matches Some(file) ==> file.tight(),
        old(allocator).well_formed(),
    ensures
        final(allocator).well_formed(),
        final(allocator).capacity() == old(allocator).capacity(),
        final(final(allocator).buffer())@ == final(old(allocator).buffer())@,
        (outcome.shown(), final(allocator).map()) == artifacts_booted(
            kernel_loaded.shown(),
            initrd_shown(initrd),
            (block_device_index, partition_number),
            boot_hart,
            device_tree_address,
            device_tree_memory@,
            old(allocator).map(),
            old(allocator).capacity(),
        ),
        !(outcome is NoKernel),
        outcome matches BootOutcome::Start { kernel, start } ==> kernel.tight()
            && kernel.physical_start == start.entry && kernel.data() == kernel_loaded.data()
            && start.device_tree.blob_size() == start.device_tree.head().len(),
{
    reveal(artifacts_booted);
    let mut command_line_buffer: [u8; 24] = [0u8; 24];
    let command_line = match root_command_line(
        block_device_index,
        partition_number,
        &mut command_line_buffer,
    ) {
        Some(command_line) => command_line,
        None => return BootOutcome::UnsupportedRoot,
    };
    let device_tree = match Dtb::from_ptr(device_tree_address, device_tree_memory) {
        Ok(device_tree) => device_tree,
        Err(error) => return BootOutcome::InvalidDeviceTree(error),
    };
    assert(be32(device_tree.head(), 4) == be32(device_tree_memory@, 4));
    match check_kernel_header(kernel_loaded) {
        Ok(()) => {},
        Err(error) => return BootOutcome::InvalidKernel(error),
    }
    let kernel = match relocate_kernel(allocator, kernel_loaded) {
        Some(kernel) => kernel,
        None => return BootOutcome::NotRelocated,
    };
    assert(kernel.data() =~= kernel_loaded.data());
    match boot_and_start(&kernel, initrd, &device_tree, allocator, command_line, boot_hart) {
        Ok(start) => BootOutcome::Start { kernel, start },
        Err(error) => BootOutcome::Rejected { entry: kernel.physical_start, error },
    }
}

/// What a boot attempt loaded, each with its place among the candidates, and what
/// came of it.
pub struct BootReport {
    /// Loaded kernel.
    pub kernel: Option<(usize, LoadedFile)>,
    /// Loaded initrd.
    pub initrd: Option<(usize, LoadedFile)>,
    /// What came of the loaded files.
    pub outcome: BootOutcome,
}

/// The paths at which a kernel is looked for.
pub open spec fn kernel_paths() -> Seq<Seq<u8>> {
    seq!["/boot/vmlinuz".spec_bytes(), "/vmlinuz".spec_bytes()]
}

/// The paths at which an initrd is looked for.
pub open spec fn initrd_paths() -> Seq<Seq<u8>> {
    seq!["/boot/initrd.img".spec_bytes(), "/initrd.img".spec_bytes()]
}

/// What an attempt to boot from a filesystem loads, what comes of it, and the
/// memory map afterwards, when the device reports no error.
pub open spec fn filesystem_booted<'d, F: MountedVolume<'d>>(
    holding: F::Holding,
    root: (usize, u32),
    boot_hart: usize,
    address: usize,
    memory: Seq<u8>,
    map: Seq<EFI_MEMORY_DESCRIPTOR>,
    capacity: nat,
) -> (Option<(int, LoadedView)>, Option<(int, LoadedView)>, OutcomeView, Seq<
    EFI_MEMORY_DESCRIPTOR,
>) {
    let (kernel, first) = first_loaded::<F>(holding, kernel_paths(), map, capacity, 0);
    match kernel {
        None => (None, None, OutcomeView::NoKernel, first),
        Some((_, image)) => {
            let (initrd, second) = first_loaded::<F>(holding, initrd_paths(), first, capacity, 0);
            let (outcome, after) = artifacts_booted(
                image,
                (match initrd {
                    Some((_, file)) => Some(file),
                    None => None,
                }),
                root,
                boot_hart,
                address,
                memory,
                second,
                capacity,
            );
            (kernel, initrd, outcome, after)
        },
    }
}

/// A loaded file with its place among the candidates.
pub open spec fn artifact_shown(artifact: Option<(usize, LoadedFile)>) -> Option<(int, LoadedView)> {
    match artifact {
        Some((index, file)) => Some((index as int, file.shown())),
        None => None,
    }
}

/// Whether a loaded file holds what the filesystem has at one of the paths.
#[verifier::opaque]
pub open spec fn artifact_from<'d, F: MountedVolume<'d>>(
    artifact: Option<(usize, LoadedFile)>,
    holding: F::Holding,
    paths: Seq<Seq<u8>>,
) -> bool {
    artifact matches Some((index, file)) ==> index < paths.len() && file.tight() && (F::state_at(
        holding,
        paths[index as int],
    ) matches Some(state) && state.data == Some(file.data()))
}

impl BootReport {
    /// What the attempt loaded and what came of it.
    pub open spec fn shown(&self) -> (
        Option<(int, LoadedView)>,
        Option<(int, LoadedView)>,
        OutcomeView,
    ) {
        (artifact_shown(self.kernel), artifact_shown(self.initrd), self.outcome.shown())
    }

    /// Whether a kernel that is to be started is at its entry, takes the pages that it
    /// needs, and holds what was loaded.
    pub open spec fn placed(&self) -> bool {
        self.outcome matches BootOutcome::Start { kernel, start } ==> kernel.tight()
            && kernel.physical_start == start.entry && (self.kernel matches Some((_, loaded))
            && kernel.data() == loaded.data())
    }
}

/// One line of text with its arguments.
pub open spec fn boot_line(format: &str, arguments: Seq<FormatArgument<'_>>) -> Seq<u8> {
    rendered(format.spec_bytes(), arguments) + "\n".spec_bytes()
}

/// The path of a kernel candidate.
pub open spec fn kernel_path_text(index: usize) -> &'static str {
    if index == 0 {
        "/boot/vmlinuz"
    } else {
        "/vmlinuz"
    }
}

/// The path of an initrd candidate.
pub open spec fn initrd_path_text(index: usize) -> &'static str {
    if index == 0 {
        "/boot/initrd.img"
    } else {
        "/initrd.img"
    }
}

/// Whether an error came up while the device tree was updated, after the boot request
/// was granted.
pub open spec fn is_update_error(error: LinuxBootError) -> bool {
    error is InitrdRangeOverflow || error is DeviceTreeUpdate
}

/// The lines that tell what came of a loaded kernel.
pub open spec fn outcome_lines(path: &str, outcome: BootOutcome) -> Seq<u8> {
    let matching = boot_line(
        "linux: kernel object {} matches RISC-V boot image header",
        seq![FormatArgument::Str(path)],
    );
    match outcome {
        BootOutcome::NoKernel => Seq::empty(),
        BootOutcome::UnsupportedRoot => boot_line(
            "linux: unsupported root device index",
            Seq::empty(),
        ),
        BootOutcome::InvalidDeviceTree(_) => boot_line(
            "linux: invalid device-tree pointer",
            Seq::empty(),
        ),
        BootOutcome::InvalidKernel(_) => boot_line(
            "linux: kernel object {} does not match RISC-V boot image header",
            seq![FormatArgument::Str(path)],
        ),
        BootOutcome::NotRelocated => matching + boot_line(
            "linux: failed to relocate kernel to aligned memory",
            Seq::empty(),
        ),
        BootOutcome::Rejected { entry, error } => matching + boot_line(
            "linux: relocated kernel image to {:#018x}",
            seq![FormatArgument::U64(entry)],
        ) + if is_update_error(error) {
            boot_line("linux: failed to update cloned device-tree", Seq::empty())
        } else {
            boot_line("linux: boot request rejected", Seq::empty())
        },
        BootOutcome::Start { kernel, start } => matching + boot_line(
            "linux: relocated kernel image to {:#018x}",
            seq![FormatArgument::U64(start.entry)],
        ) + boot_line("linux: transferring control to kernel", Seq::empty()) + boot_line(
            "linux: entry={:#018x}, boot_hart={}, device_tree={:#018x}",
            seq![
                FormatArgument::U64(start.entry),
                FormatArgument::Usize(start.boot_hart),
                FormatArgument::U64(start.device_tree.address()),
            ],
        ),
    }
}

/// The line that tells of a loaded file, if one was loaded.
pub open spec fn loaded_line(
    filesystem_name: &str,
    path: &str,
    loaded: Option<(usize, LoadedFile)>,
) -> Seq<u8> {
    match loaded {
        Some((_, file)) => loaded_file_line(
            filesystem_name,
            path,
            file.size_bytes,
            file.physical_start,
        ),
        None => Seq::empty(),
    }
}

/// The lines that tell of a boot attempt.
pub open spec fn report_lines(filesystem_name: &str, report: BootReport) -> Seq<u8> {
    let kernel_path = kernel_path_text(
        match report.kernel {
            Some((index, _)) => index,
            None => 0,
        },
    );
    let initrd_path = initrd_path_text(
        match report.initrd {
            Some((index, _)) => index,
            None => 0,
        },
    );
    loaded_line(filesystem_name, kernel_path, report.kernel) + loaded_line(
        filesystem_name,
        initrd_path,
        report.initrd,
    ) + outcome_lines(kernel_path, report.outcome)
}

/// Prints one line without arguments.
fn print_plain(text: &str, output: &mut Vec<u8>)
    ensures
        final(output)@ == old(output)@ + boot_line(text, Seq::empty()),
{
    let ghost before = output@;
    let none: [FormatArgument<'_>; 0] = [];
    assert(none@ =~= Seq::empty());
    crate::print::println(text, &none, output);
    assert(output@ =~= before + boot_line(text, Seq::empty()));
}

/// Prints one line with one argument.
fn print_with(format: &str, argument: FormatArgument<'_>, output: &mut Vec<u8>)
    ensures
        final(output)@ == old(output)@ + boot_line(format, seq![argument]),
{
    let ghost before = output@;
    let arguments = [argument];
    assert(arguments@ =~= seq![argument]);
    crate::print::println(format, &arguments, output);
    assert(output@ =~= before + boot_line(format, seq![argument]));
}

/// Prints what came of a loaded kernel.
fn print_outcome(path: &str, outcome: &BootOutcome, output: &mut Vec<u8>)
    ensures
        final(output)@ == old(output)@ + outcome_lines(path, *outcome),
{
    let ghost before = output@;
    let matching = "linux: kernel object {} matches RISC-V boot image header";
    match outcome {
        BootOutcome::NoKernel => {},
        BootOutcome::UnsupportedRoot => {
            print_plain("linux: unsupported root device index", output);
        },
        BootOutcome::InvalidDeviceTree(_) => {
            print_plain("linux: invalid device-tree pointer", output);
        },
        BootOutcome::InvalidKernel(_) => {
            print_with(
                "linux: kernel object {} does not match RISC-V boot image header",
                FormatArgument::Str(path),
                output,
            );
        },
        BootOutcome::NotRelocated => {
            print_with(matching, FormatArgument::Str(path), output);
            print_plain("linux: failed to relocate kernel to aligned memory", output);
        },
        BootOutcome::Rejected { entry, error } => {
            print_with(matching, FormatArgument::Str(path), output);
            print_with(
                "linux: relocated kernel image to {:#018x}",
                FormatArgument::U64(*entry),
                output,
            );
            match error {
                LinuxBootError::InitrdRangeOverflow | LinuxBootError::DeviceTreeUpdate(_) => {
                    print_plain("linux: failed to update cloned device-tree", output);
                },
                _ => {
                    print_plain("linux: boot request rejected", output);
                },
            }
        },
        BootOutcome::Start { kernel, start } => {
            print_with(matching, FormatArgument::Str(path), output);
            print_with(
                "linux: relocated kernel image to {:#018x}",
                FormatArgument::U64(start.entry),
                output,
            );
            print_plain("linux: transferring control to kernel", output);
            let arguments = [
                FormatArgument::U64(start.entry),
                FormatArgument::Usize(start.boot_hart),
                FormatArgument::U64(start.device_tree.pointer()),
            ];
            assert(arguments@ =~= seq![
                FormatArgument::U64(start.entry),
                FormatArgument::Usize(start.boot_hart),
                FormatArgument::U64(start.device_tree.address()),
            ]);
            crate::print::println(
                "linux: entry={:#018x}, boot_hart={}, device_tree={:#018x}",
                &arguments,
                output,
            );
        },
    }
    assert(output@ =~= before + outcome_lines(path, *outcome));
}

/// Prints what a boot attempt loaded and what came of it.
pub fn print_boot_report(filesystem_name: &str, report: &BootReport, output: &mut Vec<u8>)
    ensures
        final(output)@ == old(output)@ + report_lines(filesystem_name, *report),
{
    let ghost before = output@;
    let mut kernel_path: &str = "/boot/vmlinuz";
    if let Some((index, file)) = &report.kernel {
        if *index != 0 {
            kernel_path = "/vmlinuz";
        }
        print_loaded_file(filesystem_name, kernel_path, file, output);
    }
    if let Some((index, file)) = &report.initrd {
        let initrd_path = if *index == 0 {
            "/boot/initrd.img"
        } else {
            "/initrd.img"
        };
        print_loaded_file(filesystem_name, initrd_path, file, output);
    }
    print_outcome(kernel_path, &report.outcome, output);
    assert(output@ =~= before + report_lines(filesystem_name, *report));
}

/// Whether a filesystem was searched for a kernel and then for an initrd, and what was
/// loaded was booted, whatever the device reported meanwhile.
#[verifier::opaque]
pub open spec fn filesystem_tried<'d, F: MountedVolume<'d>>(
    holding: F::Holding,
    root: (usize, u32),
    boot_hart: usize,
    address: usize,
    memory: Seq<u8>,
    capacity: nat,
    before: Trial,
    after: Trial,
    report: BootReport,
) -> bool {
    match report.kernel {
        None => report.initrd is None && candidates_tried::<F>(
            holding,
            kernel_paths(),
            capacity,
            before,
            after,
            None,
        ),
        Some((_, kernel)) => exists|first: Trial, second: Trial| #[trigger]
            candidates_tried::<F>(holding, kernel_paths(), capacity, before, first, report.kernel)
                && #[trigger] candidates_tried::<F>(
                holding,
                initrd_paths(),
                capacity,
                first,
                second,
                report.initrd,
            ) && after.faults == second.faults && (report.outcome.shown(), after.map)
                == artifacts_booted(
                kernel.shown(),
                (match report.initrd {
                    Some((_, file)) => Some(file.shown()),
                    None => None,
                }),
                root,
                boot_hart,
                address,
                memory,
                second.map,
                capacity,
            ),
    }
}

/// Collects the kernel candidates in search order.
fn kernel_candidates() -> (candidates: Vec<BootPath>)
    ensures
        all_texts(candidates@),
        texts_of(candidates@) == kernel_paths(),
{
    let mut candidates: Vec<BootPath> = Vec::new();
    if let Some(path) = kernel_candidate_path(0) {
        candidates.push(path);
    }
    if let Some(path) = kernel_candidate_path(1) {
        candidates.push(path);
    }
    assert(texts_of(candidates@) =~= kernel_paths());
    candidates
}

/// Collects the initrd candidates in search order.
fn initrd_candidates() -> (candidates: Vec<BootPath>)
    ensures
        all_texts(candidates@),
        texts_of(candidates@) == initrd_paths(),
{
    let mut candidates: Vec<BootPath> = Vec::new();
    if let Some(path) = initrd_candidate_path(0) {
        candidates.push(path);
    }
    if let Some(path) = initrd_candidate_path(1) {
        candidates.push(path);
    }
    assert(texts_of(candidates@) =~= initrd_paths());
    candidates
}

/// Tries the Linux boot method using one mounted filesystem and root partition.
pub fn try_boot_from_filesystem<'d, F: FileSystem<'d>>(
    volume: &mut F,
    allocator: &mut PageAllocator<'_>,
    block_device_index: usize,
    partition_number: u32,
    boot_hart: usize,
    device_tree_address: usize,
    device_tree_memory: &[u8],
) -> (report: BootReport)
    requires
        old(volume).readable(),
        old(allocator).well_formed(),
    ensures
        final(volume).readable(),
        final(volume).holding() == old(volume).holding(),
        *final(final(volume).source()) == *final(old(volume).source()),
        final(allocator).well_formed(),
        final(allocator).capacity() == old(allocator).capacity(),
        final(final(allocator).buffer())@ == final(old(allocator).buffer())@,
        final(volume).device_faults().len() >= old(volume).device_faults().len(),
        report.kernel is None <==> report.outcome is NoKernel,
        report.placed(),
        artifact_from::<F>(report.kernel, old(volume).holding(), kernel_paths()),
        artifact_from::<F>(report.initrd, old(volume).holding(), initrd_paths()),
        filesystem_tried::<F>(
            old(volume).holding(),
            (block_device_index, partition_number),
            boot_hart,
            device_tree_address,
            device_tree_memory@,
            old(allocator).capacity(),
            (Trial { faults: old(volume).device_faults(), map: old(allocator).map() }),
            (Trial { faults: final(volume).device_faults(), map: final(allocator).map() }),
            report,
        ),
        final(volume).device_faults().len() == old(volume).device_faults().len() ==> final(
            volume
        ).device_faults() == old(volume).device_faults() && ({
            let booted = filesystem_booted::<F>(
                old(volume).holding(),
                (block_device_index, partition_number),
                boot_hart,
                device_tree_address,
                device_tree_memory@,
                old(allocator).map(),
                old(allocator).capacity(),
            );
            report.shown() == (booted.0, booted.1, booted.2) && final(allocator).map() == booted.3
        }),
{
    reveal(artifact_from);
    reveal(filesystem_tried);
    let kernels = kernel_candidates();
    let (kernel_index, kernel_loaded) = match load_first_file(volume, &kernels, allocator) {
        Some(loaded) => loaded,
        None => {
            return BootReport { kernel: None, initrd: None, outcome: BootOutcome::NoKernel };
        },
    };
    let ghost first = Trial { faults: volume.device_faults(), map: allocator.map() };
    let initrds = initrd_candidates();
    let initrd = load_first_file(volume, &initrds, allocator);
    let ghost second = Trial { faults: volume.device_faults(), map: allocator.map() };
    assert(kernel_paths()[kernel_index as int] == texts_of(kernels@)[kernel_index as int]);
    let initrd_file = match &initrd {
        Some(loaded) => {
            assert(initrd_paths()[loaded.0 as int] == texts_of(initrds@)[loaded.0 as int]);
            Some(&loaded.1)
        },
        None => None,
    };
    let outcome = boot_loaded(
        &kernel_loaded,
        initrd_file,
        allocator,
        block_device_index,
        partition_number,
        boot_hart,
        device_tree_address,
        device_tree_memory,
    );
    let report = BootReport { kernel: Some((kernel_index, kernel_loaded)), initrd, outcome };
    proof {
        let holding = old(volume).holding();
        let before = Trial { faults: old(volume).device_faults(), map: old(allocator).map() };
        let capacity = old(allocator).capacity();
        assert(candidates_tried::<F>(
            holding,
            kernel_paths(),
            capacity,
            before,
            first,
            report.kernel,
        ));
        assert(candidates_tried::<F>(
            holding,
            initrd_paths(),
            capacity,
            first,
            second,
            report.initrd,
        ));
    }
    report
}

/// The memory map that a boot attempt starts from: that of the device tree at
/// `address`, with room for eight memory regions, sixteen reserved regions and 32
/// descriptors.
#[verifier::opaque]
pub open spec fn boot_map(address: usize, memory: Seq<u8>, firmware: FirmwareRanges) -> Option<
    Seq<EFI_MEMORY_DESCRIPTOR>,
> {
    if fdt_fault(address, memory) is Some {
        None
    } else {
        match map_of_tree(
            parts_of_tree(
                address,
                be32(memory, 4) as usize,
                reserve_map_of(memory),
                structure_of(memory),
                strings_of(memory),
                8,
                16,
            ),
            firmware,
            32,
        ) {
            Ok(map) => Some(map),
            Err(_) => None,
        }
    }
}

/// What a boot report says of an attempt on a filesystem, when the device reports
/// no error.
#[verifier::opaque]
pub open spec fn report_of<'d, F: MountedVolume<'d>>(
    holding: F::Holding,
    root: (usize, u32),
    boot_hart: usize,
    address: usize,
    memory: Seq<u8>,
    map: Seq<EFI_MEMORY_DESCRIPTOR>,
) -> (Option<(int, LoadedView)>, Option<(int, LoadedView)>, OutcomeView) {
    let booted = filesystem_booted::<F>(holding, root, boot_hart, address, memory, map, 32);
    (booted.0, booted.1, booted.2)
}

/// Whether a boot report is one of an attempt on a filesystem with a memory map, before
/// and after which the device had reported the given errors. It is exact where there
/// was no error meanwhile.
pub open spec fn report_kept<'d, F: MountedVolume<'d>>(
    report: BootReport,
    holding: F::Holding,
    root: (usize, u32),
    boot_hart: usize,
    address: usize,
    memory: Seq<u8>,
    map: Seq<EFI_MEMORY_DESCRIPTOR>,
    faults_before: Seq<VirtioError>,
    faults_after: Seq<VirtioError>,
) -> bool {
    &&& report.kernel is None <==> report.outcome is NoKernel
    &&& report.placed()
    &&& artifact_from::<F>(report.kernel, holding, kernel_paths())
    &&& artifact_from::<F>(report.initrd, holding, initrd_paths())
    &&& exists|after: Trial| #[trigger]
        filesystem_tried::<F>(
            holding,
            root,
            boot_hart,
            address,
            memory,
            32,
            (Trial { faults: faults_before, map }),
            after,
            report,
        ) && after.faults == faults_after
    &&& faults_after.len() >= faults_before.len()
    &&& faults_after.len() == faults_before.len() ==> faults_after == faults_before
        && report.shown() == report_of::<F>(holding, root, boot_hart, address, memory, map)
}

/// Tries the Linux boot method using one mounted filesystem on a boot-flagged
/// partition. Nothing is tried where no page allocator can be built.
pub fn try_boot_from_volume<'d, F: FileSystem<'d>>(
    volume: &mut F,
    block_device_index: usize,
    partition_number: u32,
    boot_hart: usize,
    device_tree_address: usize,
    device_tree_memory: &[u8],
    firmware: &FirmwareRanges,
) -> (report: Option<BootReport>)
    requires
        old(volume).readable(),
    ensures
        final(volume).readable(),
        final(volume).holding() == old(volume).holding(),
        *final(final(volume).source()) == *final(old(volume).source()),
        match boot_map(device_tree_address, device_tree_memory@, *firmware) {
            None => report is None && final(volume).device_faults() == old(volume).device_faults(),
            Some(map) => report matches Some(attempt) && report_kept::<F>(
                attempt,
                old(volume).holding(),
                (block_device_index, partition_number),
                boot_hart,
                device_tree_address,
                device_tree_memory@,
                map,
                old(volume).device_faults(),
                final(volume).device_faults(),
            ),
        },
{
    reveal(report_of);
    reveal(boot_map);
    let mut regions: [MemoryRegion; 8] = [MemoryRegion { base: 0, size: 0 };8];
    let mut reserved: [MemoryRegion; 16] = [MemoryRegion { base: 0, size: 0 };16];
    let mut memory_map: [EFI_MEMORY_DESCRIPTOR; 32] = [EMPTY_MEMORY_DESCRIPTOR();32];
    let mut allocator = match page_allocator_from_live_fdt(
        device_tree_address,
        device_tree_memory,
        &mut regions,
        &mut reserved,
        firmware,
        &mut memory_map,
    ) {
        Some(allocator) => allocator,
        None => return None,
    };
    Some(
        try_boot_from_filesystem(
            volume,
            &mut allocator,
            block_device_index,
            partition_number,
            boot_hart,
            device_tree_address,
            device_tree_memory,
        ),
    )
}

/// What came of an attempt to boot from a partition.
pub enum PartitionAttempt {
    /// The partition holds no filesystem that can be mounted.
    NotMounted,
    /// No page allocator could be built from the device tree.
    NoAllocator,
    /// The filesystem was searched for boot artifacts.
    Tried(BootReport),
}

/// Whether an attempt to boot from a partition came out as it must. `holding` is what
/// the filesystem holds, if the partition has one that can be mounted.
pub open spec fn attempt_kept<'d, F: MountedVolume<'d>>(
    attempt: PartitionAttempt,
    holding: Option<F::Holding>,
    root: (usize, u32),
    boot_hart: usize,
    address: usize,
    memory: Seq<u8>,
    firmware: FirmwareRanges,
    faults_before: Seq<VirtioError>,
    faults_after: Seq<VirtioError>,
) -> bool {
    match attempt {
        PartitionAttempt::NotMounted => one_more(faults_before, faults_after) || (holding is None
            && faults_after == faults_before),
        PartitionAttempt::NoAllocator => holding is Some && boot_map(address, memory, firmware)
            is None && faults_after == faults_before,
        PartitionAttempt::Tried(report) => match (holding, boot_map(address, memory, firmware)) {
            (Some(held), Some(map)) => report_kept::<F>(
                report,
                held,
                root,
                boot_hart,
                address,
                memory,
                map,
                faults_before,
                faults_after,
            ),
            _ => false,
        },
    }
}

/// What a FAT filesystem at `first_lba` holds, if there is one.
pub open spec fn fat_holding(medium: Seq<u8>, sectors: u64, first_lba: u64) -> Option<
    (Seq<u8>, FatLayout, u64),
> {
    match boot_layout(sector_at(medium, first_lba as int), first_lba) {
        Err(_) => None,
        Ok(layout) => Some((medium, layout, sectors)),
    }
}

/// What an ext4 filesystem at `first_lba` holds, if there is one.
pub open spec fn ext4_holding(medium: Seq<u8>, sectors: u64, first_lba: u64) -> Option<
    (Seq<u8>, Ext4Layout, u64),
> {
    match superblock_layout(window(medium, first_lba * 512 + 1024, 1024), first_lba) {
        Err(_) => None,
        Ok(layout) => if first_lba + 2 > u64::MAX {
            None
        } else {
            Some((medium, layout, sectors))
        },
    }
}

/// Tries the Linux boot method on what came of mounting a filesystem. Without a
/// mounted filesystem, nothing is tried.
pub fn try_boot_from_mounted<'d, F: FileSystem<'d>>(
    mounted: &mut Result<F, F::Error>,
    block_device_index: usize,
    partition_number: u32,
    boot_hart: usize,
    device_tree_address: usize,
    device_tree_memory: &[u8],
    firmware: &FirmwareRanges,
) -> (attempt: PartitionAttempt)
    requires
        *old(mounted) matches Ok(volume) ==> volume.readable(),
    ensures
        match (*old(mounted), *final(mounted)) {
            (Err(before), Err(after)) => attempt is NotMounted && before == after,
            (Ok(before), Ok(after)) => !(attempt is NotMounted) && after.readable()
                && after.holding() == before.holding()
                && *final(after.source()) == *final(before.source()) && attempt_kept::<F>(
                attempt,
                Some(before.holding()),
                (block_device_index, partition_number),
                boot_hart,
                device_tree_address,
                device_tree_memory@,
                *firmware,
                before.device_faults(),
                after.device_faults(),
            ),
            _ => false,
        },
{
    match mounted {
        Ok(volume) => {
            match try_boot_from_volume(
                volume,
                block_device_index,
                partition_number,
                boot_hart,
                device_tree_address,
                device_tree_memory,
                firmware,
            ) {
                Some(report) => PartitionAttempt::Tried(report),
                None => PartitionAttempt::NoAllocator,
            }
        },
        Err(_) => PartitionAttempt::NotMounted,
    }
}

/// Tries the Linux boot method on a partition that is mounted as FAT.
fn try_boot_from_fat<D: BlockDevice>(
    device: &mut D,
    first_lba: u64,
    block_device_index: usize,
    partition_number: u32,
    boot_hart: usize,
    device_tree_address: usize,
    device_tree_memory: &[u8],
    firmware: &FirmwareRanges,
) -> (attempt: PartitionAttempt)
    ensures
        final(device).medium() == old(device).medium(),
        final(device).sectors() == old(device).sectors(),
        attempt_kept::<FatVolume<'_, D>>(
            attempt,
            fat_holding(old(device).medium(), old(device).sectors(), first_lba),
            (block_device_index, partition_number),
            boot_hart,
            device_tree_address,
            device_tree_memory@,
            *firmware,
            old(device).faults(),
            final(device).faults(),
        ),
{
    let mut mounted = FatVolume::new(device, first_lba);
    let attempt = try_boot_from_mounted(
        &mut mounted,
        block_device_index,
        partition_number,
        boot_hart,
        device_tree_address,
        device_tree_memory,
        firmware,
    );
    proof {
        if let Ok(volume) = mounted {
            FatVolume::device_released(volume);
        }
    }
    attempt
}

/// Tries the Linux boot method on a partition that is mounted as ext4.
fn try_boot_from_ext4<D: BlockDevice>(
    device: &mut D,
    first_lba: u64,
    block_device_index: usize,
    partition_number: u32,
    boot_hart: usize,
    device_tree_address: usize,
    device_tree_memory: &[u8],
    firmware: &FirmwareRanges,
) -> (attempt: PartitionAttempt)
    ensures
        final(device).medium() == old(device).medium(),
        final(device).sectors() == old(device).sectors(),
        attempt_kept::<Ext4Volume<'_, D>>(
            attempt,
            ext4_holding(old(device).medium(), old(device).sectors(), first_lba),
            (block_device_index, partition_number),
            boot_hart,
            device_tree_address,
            device_tree_memory@,
            *firmware,
            old(device).faults(),
            final(device).faults(),
        ),
{
    let mut mounted = Ext4Volume::new(device, first_lba);
    let attempt = try_boot_from_mounted(
        &mut mounted,
        block_device_index,
        partition_number,
        boot_hart,
        device_tree_address,
        device_tree_memory,
        firmware,
    );
    proof {
        if let Ok(volume) = mounted {
            Ext4Volume::device_released(volume);
        }
    }
    attempt
}

/// Tries the Linux boot method on one boot-flagged partition, mounted as what
/// probing its start found.
pub fn try_boot_from_partition<D: BlockDevice, P: PartitionEntry>(
    device: &mut D,
    partition: P,
    filesystem: LinuxBootFilesystem,
    block_device_index: usize,
    partition_number: u32,
    boot_hart: usize,
    device_tree_address: usize,
    device_tree_memory: &[u8],
    firmware: &FirmwareRanges,
) -> (attempt: PartitionAttempt)
    ensures
        final(device).medium() == old(device).medium(),
        final(device).sectors() == old(device).sectors(),
        match filesystem {
            LinuxBootFilesystem::Unknown => attempt is NotMounted && *final(device) == *old(device),
            LinuxBootFilesystem::Fat => attempt_kept::<FatVolume<'_, D>>(
                attempt,
                fat_holding(old(device).medium(), old(device).sectors(), partition.first()),
                (block_device_index, partition_number),
                boot_hart,
                device_tree_address,
                device_tree_memory@,
                *firmware,
                old(device).faults(),
                final(device).faults(),
            ),
            LinuxBootFilesystem::Ext4 => attempt_kept::<Ext4Volume<'_, D>>(
                attempt,
                ext4_holding(old(device).medium(), old(device).sectors(), partition.first()),
                (block_device_index, partition_number),
                boot_hart,
                device_tree_address,
                device_tree_memory@,
                *firmware,
                old(device).faults(),
                final(device).faults(),
            ),
        },
{
    match filesystem {
        LinuxBootFilesystem::Fat => try_boot_from_fat(
            device,
            partition.first_lba(),
            block_device_index,
            partition_number,
            boot_hart,
            device_tree_address,
            device_tree_memory,
            firmware,
        ),
        LinuxBootFilesystem::Ext4 => try_boot_from_ext4(
            device,
            partition.first_lba(),
            block_device_index,
            partition_number,
            boot_hart,
            device_tree_address,
            device_tree_memory,
            firmware,
        ),
        LinuxBootFilesystem::Unknown => PartitionAttempt::NotMounted,
    }
}

/// What a property of `/chosen` holds in a device tree.
pub open spec fn chosen_property(blob: Seq<u8>, name: Seq<u8>) -> Option<Seq<u8>> {
    match node_at_path(structure_of(blob), "/chosen".spec_bytes()) {
        Some(node) => property_of(structure_of(blob), strings_of(blob), node, name),
        None => None,
    }
}

/// An ASCII literal without zero characters is a name.
proof fn literal_is_name(text: &str)
    requires
        is_ascii_chars(text@),
        forall|i: int| 0 <= i < text@.len() ==> #[trigger] text@[i] != '\0',
    ensures
        plain_name(text.spec_bytes()),
{
    literal_bytes(text);
    assert forall|i: int| 0 <= i < text.spec_bytes().len() implies text.spec_bytes()[i] != 0 by {
        assert(text.spec_bytes()[i] == text@[i] as u8);
        assert((text@[i] as u32) < 128);
    }
}

/// The names that are written to `/chosen` differ, and the path has two parts.
proof fn chosen_names()
    ensures
        plain_name("linux,initrd-start".spec_bytes()),
        plain_name("linux,initrd-end".spec_bytes()),
        plain_name("bootargs".spec_bytes()),
        "linux,initrd-start".spec_bytes() != "linux,initrd-end".spec_bytes(),
        "linux,initrd-start".spec_bytes() != "bootargs".spec_bytes(),
        "linux,initrd-end".spec_bytes() != "bootargs".spec_bytes(),
        forall|i: int|
            1 <= i < path_parts("/chosen".spec_bytes()).len() ==> plain_name(
                #[trigger] path_parts("/chosen".spec_bytes())[i],
            ),
{
    reveal_strlit("linux,initrd-start");
    reveal_strlit("linux,initrd-end");
    reveal_strlit("bootargs");
    reveal_strlit("/chosen");
    reveal_strlit("chosen");
    literal_is_name("linux,initrd-start");
    literal_is_name("linux,initrd-end");
    literal_is_name("bootargs");
    literal_is_name("chosen");
    literal_bytes("linux,initrd-start");
    literal_bytes("linux,initrd-end");
    literal_bytes("bootargs");
    literal_bytes("/chosen");
    literal_bytes("chosen");
    let path = "/chosen".spec_bytes();
    assert(path.len() == 7);
    assert forall|i: int| 0 <= i < 7 implies path[i] == "/chosen"@[i] as u8 by {}
    assert(path[0] == 0x2f);
    assert forall|i: int| 1 <= i < 7 implies path[i] != 0x2f by {
        assert(path[i] == "/chosen"@[i] as u8);
    }
    assert(path.subrange(1, 7) =~= "chosen".spec_bytes()) by {
        assert forall|i: int| 0 <= i < 6 implies path.subrange(1, 7)[i] == "chosen".spec_bytes()[i] by {
            assert(path[i + 1] == "/chosen"@[i + 1] as u8);
            assert("chosen".spec_bytes()[i] == "chosen"@[i] as u8);
        }
    }
    reveal_with_fuel(parts_from, 9);
    assert(path_parts(path) =~= seq![path.subrange(0, 0), path.subrange(1, 7)]);
}

/// A property of `/chosen` that was set in a proper device tree is read back, and
/// the other properties of `/chosen` keep their values.
proof fn chosen_property_reads_back(blob: Seq<u8>, name: Seq<u8>, value: Seq<u8>)
    requires
        proper_tree(blob),
        plain_name(name),
        property_set_at(
            blob,
            blob.len() as int,
            "/chosen".spec_bytes(),
            name,
            value,
        ).1 is Ok,
    ensures
        ({
            let after = property_set_at(
            blob,
            blob.len() as int,
            "/chosen".spec_bytes(),
            name,
            value,
        ).0;
            &&& after.len() == blob.len()
            &&& proper_tree(after)
            &&& chosen_property(after, name) == Some(value)
            &&& forall|other: Seq<u8>|
                #![trigger chosen_property(after, other)]
                other != name && chosen_property(blob, other) is Some ==> chosen_property(
                    after,
                    other,
                ) == chosen_property(blob, other)
        }),
{
    property_reads_back(blob, "/chosen".spec_bytes(), name, value);
}

/// When `/chosen` of a proper device tree was filled for a boot, the command line and
/// the range of the initrd are read back from it, and every other property that
/// `/chosen` had after its creation keeps its value.
pub proof fn filled_chosen_reads_back(
    blob: Seq<u8>,
    initrd: Option<(u64, usize)>,
    command_line: Seq<u8>,
)
    requires
        proper_tree(blob),
        chosen_filled(blob, blob.len() as int, initrd, command_line).1 is Ok,
    ensures
        ({
            let after = chosen_filled(blob, blob.len() as int, initrd, command_line).0;
            let created = path_created(blob, blob.len() as int, "/chosen".spec_bytes()).0;
            &&& after.len() == blob.len()
            &&& proper_tree(after)
            &&& chosen_property(after, "bootargs".spec_bytes()) == Some(command_line.push(0u8))
            &&& initrd matches Some((start, size)) ==> chosen_property(
                after,
                "linux,initrd-start".spec_bytes(),
            ) == Some(be64_bytes(start)) && chosen_property(after, "linux,initrd-end".spec_bytes())
                == Some(be64_bytes((start + size) as u64)) && start + size <= u64::MAX
            &&& forall|other: Seq<u8>|
                #![trigger chosen_property(after, other)]
                other != "bootargs".spec_bytes() && (initrd is Some ==> other
                    != "linux,initrd-start".spec_bytes() && other
                    != "linux,initrd-end".spec_bytes()) && chosen_property(created, other) is Some
                    ==> chosen_property(after, other) == chosen_property(created, other)
        }),
{
    chosen_names();
    let chosen = "/chosen".spec_bytes();
    created_path_is_found(blob, chosen);
    let created = path_created(blob, blob.len() as int, chosen).0;
    match initrd {
        None => {
            chosen_property_reads_back(
                created,
                "bootargs".spec_bytes(),
                command_line.push(0u8),
            );
        },
        Some((start, size)) => {
            let first_name = "linux,initrd-start".spec_bytes();
            let second_name = "linux,initrd-end".spec_bytes();
            let first = property_set_at(created, blob.len() as int, chosen, first_name, be64_bytes(start)).0;
            chosen_property_reads_back(created, first_name, be64_bytes(start));
            let end = be64_bytes((start + size) as u64);
            let second = property_set_at(first, blob.len() as int, chosen, second_name, end).0;
            chosen_property_reads_back(first, second_name, end);
            chosen_property_reads_back(second, "bootargs".spec_bytes(), command_line.push(0u8));
            let after = chosen_filled(blob, blob.len() as int, initrd, command_line).0;
            assert forall|other: Seq<u8>|
                #![trigger chosen_property(after, other)]
                other != "bootargs".spec_bytes() && other != first_name && other != second_name
                    && chosen_property(created, other) is Some implies chosen_property(after, other)
                == chosen_property(created, other) by {
                assert(chosen_property(first, other) == chosen_property(created, other));
                assert(chosen_property(second, other) == chosen_property(first, other));
            }
            assert(chosen_property(second, first_name) == Some(be64_bytes(start)));
            assert(chosen_property(after, first_name) == Some(be64_bytes(start)));
        },
    }
}

/// The device tree that a kernel is started with tells the command line and the
/// range of the initrd.
pub proof fn started_tree_tells(
    kernel: (u64, usize),
    initrd: Option<(u64, usize)>,
    tree: Seq<u8>,
    command_line: Seq<u8>,
    map: Seq<EFI_MEMORY_DESCRIPTOR>,
    capacity: nat,
)
    requires
        proper_tree(tree),
        start_prepared(kernel, initrd, tree, be32(tree, 4), command_line, map, capacity).0 is Ok,
    ensures
        ({
            let passed = start_prepared(
                kernel,
                initrd,
                tree,
                be32(tree, 4),
                command_line,
                map,
                capacity,
            ).0->Ok_0.1;
            &&& proper_tree(passed)
            &&& chosen_property(passed, "bootargs".spec_bytes()) == Some(command_line.push(0u8))
            &&& initrd matches Some((start, size)) ==> chosen_property(
                passed,
                "linux,initrd-start".spec_bytes(),
            ) == Some(be64_bytes(start)) && chosen_property(
                passed,
                "linux,initrd-end".spec_bytes(),
            ) == Some(be64_bytes((start + size) as u64))
        }),
{
    reveal(start_prepared);
    let total = be32(tree, 4) as int;
    assert(tree.take(total) =~= tree);
    let size = clone_granted(total, (tree.len() + LINUX_DTB_EXTRA_SIZE) as int, map, capacity)->Ok_0.1;
    enlarged_tree_is_proper(tree, size);
    filled_chosen_reads_back(enlarged(tree, size), initrd, command_line);
}

/// A kernel is moved to a 2 MiB-aligned address of memory that was free.
pub proof fn relocated_kernel_is_aligned(
    map: Seq<EFI_MEMORY_DESCRIPTOR>,
    start: u64,
    page_count: usize,
    size_bytes: usize,
    capacity: nat,
)
    requires
        map_sound(map),
        kernel_relocated(map, start, page_count, size_bytes, capacity).1 is Some,
    ensures
        kernel_relocated(map, start, page_count, size_bytes, capacity).1 matches Some(entry)
            && entry % KERNEL_ALIGNMENT == 0 && forall|address: int|
            #![trigger kind_at(map, address)]
            entry <= address < entry + pages_needed(size_bytes as int) * 4096 ==> kind_at(
                map,
                address,
            ) == Some(CONVENTIONAL),
{
    reveal(kernel_relocated);
    granted_aligned_pages_were_free(
        map,
        EFI_MEMORY_TYPE::EfiBootServicesData,
        pages_needed(size_bytes as int),
        KERNEL_ALIGNMENT,
        AllocationDirection::Low,
        capacity,
    );
    let (entry, taken) = aligned_allocation(
        map,
        EFI_MEMORY_TYPE::EfiBootServicesData,
        pages_needed(size_bytes as int),
        KERNEL_ALIGNMENT,
        AllocationDirection::Low,
        capacity,
    )->Ok_0;
    assert forall|address: int|
        #![trigger kind_at(map, address)]
        entry <= address < entry + pages_needed(size_bytes as int) * 4096 implies kind_at(
        map,
        address,
    ) == Some(CONVENTIONAL) by {
        assert(kind_at(taken, address) is Some);
    }
}

} // verus!
