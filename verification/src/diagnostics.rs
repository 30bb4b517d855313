//! Firmware diagnostics.
//!
//! The text tells the device-tree information first and then the EFI-style page map
//! built from that information.

use vstd::prelude::*;
use vstd::string::*;
use crate::bytes::be32;
use crate::devicetree::{fitting, MemoryRegion};
use crate::dtb_memory::{all_reserved, memory_regions, reserved_regions, tree_memory};
use crate::dtb_read::{fdt_fault, reserve_map_of, strings_of, structure_of, Fdt};
use crate::memory::{
    map_of_tree, memory_map_from_fdt, parts_of_tree, FirmwareRanges, TreeParts,
    EMPTY_MEMORY_DESCRIPTOR,
};
use crate::memory_map::EFI_MEMORY_DESCRIPTOR;
use crate::print::{rendered, FormatArgument};

verus! {

/// One printed line.
pub open spec fn line(format: &str, arguments: Seq<FormatArgument<'_>>) -> Seq<u8> {
    rendered(format.spec_bytes(), arguments) + "\n".spec_bytes()
}

/// The line of one region.
pub open spec fn region_line(format: &str, regions: Seq<MemoryRegion>, index: int) -> Seq<u8> {
    line(
        format,
        seq![
            FormatArgument::Usize((index + 1) as usize),
            FormatArgument::U64(regions[index].base),
            FormatArgument::U64(regions[index].size),
        ],
    )
}

/// The lines of the first `count` regions.
pub open spec fn region_lines(format: &str, regions: Seq<MemoryRegion>, count: nat) -> Seq<u8>
    decreases count,
{
    if count == 0 {
        Seq::empty()
    } else {
        region_lines(format, regions, (count - 1) as nat) + region_line(
            format,
            regions,
            count - 1,
        )
    }
}

/// Size in bytes of a descriptor, or the largest number where it does not fit.
pub open spec fn size_in_bytes(descriptor: EFI_MEMORY_DESCRIPTOR) -> u64 {
    if descriptor.NumberOfPages * 4096 > u64::MAX {
        u64::MAX
    } else {
        (descriptor.NumberOfPages * 4096) as u64
    }
}

/// The diagnostics name of an EFI memory type.
pub open spec fn memory_type_name(kind: u32) -> &'static str {
    match kind {
        0 => "EfiReservedMemoryType",
        1 => "EfiLoaderCode",
        2 => "EfiLoaderData",
        3 => "EfiBootServicesCode",
        4 => "EfiBootServicesData",
        5 => "EfiRuntimeServicesCode",
        6 => "EfiRuntimeServicesData",
        7 => "EfiConventionalMemory",
        8 => "EfiUnusableMemory",
        9 => "EfiACPIReclaimMemory",
        10 => "EfiACPIMemoryNVS",
        11 => "EfiMemoryMappedIO",
        12 => "EfiMemoryMappedIOPortSpace",
        13 => "EfiPalCode",
        14 => "EfiPersistentMemory",
        15 => "EfiUnacceptedMemoryType",
        _ => "unknown",
    }
}

/// The line of one descriptor.
pub open spec fn descriptor_line(map: Seq<EFI_MEMORY_DESCRIPTOR>, index: int) -> Seq<u8> {
    line(
        "efi-memory {}: type={}, base={:#018x}, size={:#018x}, attr={:#018x}",
        seq![
            FormatArgument::Usize((index + 1) as usize),
            FormatArgument::Str(memory_type_name(map[index].Type)),
            FormatArgument::U64(map[index].PhysicalStart),
            FormatArgument::U64(size_in_bytes(map[index])),
            FormatArgument::U64(map[index].Attribute),
        ],
    )
}

/// The lines of the first `count` descriptors.
pub open spec fn descriptor_lines(map: Seq<EFI_MEMORY_DESCRIPTOR>, count: nat) -> Seq<u8>
    decreases count,
{
    if count == 0 {
        Seq::empty()
    } else {
        descriptor_lines(map, (count - 1) as nat) + descriptor_line(map, count - 1)
    }
}

/// The lines of the memory and reservation ranges of a tree, as many as there is
/// room for.
#[verifier::opaque]
pub open spec fn tree_lines(
    memory: Seq<MemoryRegion>,
    reserved: Seq<MemoryRegion>,
    memory_room: nat,
    reserved_room: nat,
) -> Seq<u8> {
    region_lines(
        "memory {}: base={:#018x}, size={:#018x}",
        memory,
        fitting(memory, memory_room) as nat,
    ) + region_lines(
        "reserved {}: base={:#018x}, size={:#018x}",
        reserved,
        fitting(reserved, reserved_room) as nat,
    )
}

/// The lines of the memory map of a tree, or one that says that there is none.
#[verifier::opaque]
pub open spec fn map_lines(parts: TreeParts, firmware: FirmwareRanges, capacity: nat) -> Seq<u8> {
    match map_of_tree(parts, firmware, capacity) {
        Ok(map) => descriptor_lines(map, map.len()),
        Err(_) => line("diagnostics: efi-memory-map unavailable", Seq::empty()),
    }
}

/// The lines of the first regions depend on those alone.
proof fn lines_depend_on_regions(
    format: &str,
    first: Seq<MemoryRegion>,
    second: Seq<MemoryRegion>,
    count: nat,
)
    requires
        count <= first.len(),
        count <= second.len(),
        forall|i: int| 0 <= i < count ==> first[i] == second[i],
    ensures
        region_lines(format, first, count) == region_lines(format, second, count),
    decreases count,
{
    if count > 0 {
        lines_depend_on_regions(format, first, second, (count - 1) as nat);
    }
}

/// Returns a short diagnostics name for one EFI memory type.
pub fn efi_memory_type_name(descriptor: EFI_MEMORY_DESCRIPTOR) -> (name: &'static str)
    ensures
        name == memory_type_name(descriptor.Type),
{
    match descriptor.Type {
        0 => "EfiReservedMemoryType",
        1 => "EfiLoaderCode",
        2 => "EfiLoaderData",
        3 => "EfiBootServicesCode",
        4 => "EfiBootServicesData",
        5 => "EfiRuntimeServicesCode",
        6 => "EfiRuntimeServicesData",
        7 => "EfiConventionalMemory",
        8 => "EfiUnusableMemory",
        9 => "EfiACPIReclaimMemory",
        10 => "EfiACPIMemoryNVS",
        11 => "EfiMemoryMappedIO",
        12 => "EfiMemoryMappedIOPortSpace",
        13 => "EfiPalCode",
        14 => "EfiPersistentMemory",
        15 => "EfiUnacceptedMemoryType",
        _ => "unknown",
    }
}

/// Prints the lines of the first `count` regions.
fn print_regions(format: &str, regions: &[MemoryRegion], count: usize, output: &mut Vec<u8>)
    requires
        count <= regions@.len(),
    ensures
        final(output)@ == old(output)@ + region_lines(format, regions@, count as nat),
{
    let ghost before = output@;
    let mut index: usize = 0;
    assert(output@ =~= before + region_lines(format, regions@, 0));
    while index < count
        invariant
            index <= count <= regions@.len(),
            output@ == before + region_lines(format, regions@, index as nat),
        decreases count - index,
    {
        let arguments = [
            FormatArgument::Usize(index + 1),
            FormatArgument::U64(regions[index].base),
            FormatArgument::U64(regions[index].size),
        ];
        assert(arguments@ =~= seq![
            FormatArgument::Usize((index + 1) as usize),
            FormatArgument::U64(regions@[index as int].base),
            FormatArgument::U64(regions@[index as int].size),
        ]);
        crate::print::println(format, &arguments, output);
        index += 1;
        assert(output@ =~= before + region_lines(format, regions@, index as nat));
    }
}

/// Prints memory and reservation ranges decoded directly from the FDT.
pub fn print_fdt_information(
    fdt: &Fdt<'_>,
    memory_buffer: &mut [MemoryRegion],
    reserved_buffer: &mut [MemoryRegion],
    output: &mut Vec<u8>,
)
    ensures
        final(memory_buffer)@.len() == old(memory_buffer)@.len(),
        final(reserved_buffer)@.len() == old(reserved_buffer)@.len(),
        final(output)@ == old(output)@ + tree_lines(
            tree_memory(fdt.structure(), fdt.strings()),
            all_reserved(
                fdt.reserve_map(),
                fdt.structure(),
                fdt.strings(),
            ),
            old(memory_buffer)@.len(),
            old(reserved_buffer)@.len(),
        ),
{
    reveal(tree_lines);
    let ghost before = output@;
    let ghost memory = tree_memory(fdt.structure(), fdt.strings());
    let ghost reserved = all_reserved(
        fdt.reserve_map(),
        fdt.structure(),
        fdt.strings(),
    );
    let memory_count = memory_regions(fdt, memory_buffer);
    let reserved_count = reserved_regions(fdt, reserved_buffer);
    print_regions(
        "memory {}: base={:#018x}, size={:#018x}",
        memory_buffer,
        memory_count,
        output,
    );
    print_regions(
        "reserved {}: base={:#018x}, size={:#018x}",
        reserved_buffer,
        reserved_count,
        output,
    );
    proof {
        lines_depend_on_regions(
            "memory {}: base={:#018x}, size={:#018x}",
            memory_buffer@,
            memory,
            memory_count as nat,
        );
        lines_depend_on_regions(
            "reserved {}: base={:#018x}, size={:#018x}",
            reserved_buffer@,
            reserved,
            reserved_count as nat,
        );
    }
    assert(output@ =~= before + tree_lines(
        memory,
        reserved,
        old(memory_buffer)@.len(),
        old(reserved_buffer)@.len(),
    ));
}

/// Prints the EFI-style memory map produced by the memory subsystem.
pub fn print_memory_map(
    fdt: &Fdt<'_>,
    memory_buffer: &mut [MemoryRegion],
    reserved_buffer: &mut [MemoryRegion],
    firmware: &FirmwareRanges,
    memory_map: &mut [EFI_MEMORY_DESCRIPTOR],
    output: &mut Vec<u8>,
)
    ensures
        final(output)@ == old(output)@ + map_lines(
            parts_of_tree(
                fdt.base(),
                fdt.total_size(),
                fdt.reserve_map(),
                fdt.structure(),
                fdt.strings(),
                old(memory_buffer)@.len(),
                old(reserved_buffer)@.len(),
            ),
            *firmware,
            old(memory_map)@.len(),
        ),
{
    reveal(map_lines);
    let ghost before = output@;
    let descriptor_count = match memory_map_from_fdt(
        fdt,
        memory_buffer,
        reserved_buffer,
        firmware,
        memory_map,
    ) {
        Ok(descriptor_count) => descriptor_count,
        Err(_) => {
            let arguments: [FormatArgument<'_>; 0] = [];
            assert(arguments@ =~= Seq::empty());
            crate::print::println("diagnostics: efi-memory-map unavailable", &arguments, output);
            assert(output@ =~= before + line(
                "diagnostics: efi-memory-map unavailable",
                Seq::empty(),
            ));
            return;
        },
    };
    let ghost map = memory_map@.take(descriptor_count as int);
    let mut index: usize = 0;
    assert(output@ =~= before + descriptor_lines(map, 0));
    while index < descriptor_count
        invariant
            index <= descriptor_count <= memory_map@.len(),
            map == memory_map@.take(descriptor_count as int),
            output@ == before + descriptor_lines(map, index as nat),
        decreases descriptor_count - index,
    {
        let descriptor = memory_map[index];
        assert(map[index as int] == descriptor);
        let size_in_bytes: u64 = if descriptor.NumberOfPages > u64::MAX / 4096 {
            u64::MAX
        } else {
            descriptor.NumberOfPages * 4096
        };
        let arguments = [
            FormatArgument::Usize(index + 1),
            FormatArgument::Str(efi_memory_type_name(descriptor)),
            FormatArgument::U64(descriptor.PhysicalStart),
            FormatArgument::U64(size_in_bytes),
            FormatArgument::U64(descriptor.Attribute),
        ];
        assert(arguments@ =~= seq![
            FormatArgument::Usize((index + 1) as usize),
            FormatArgument::Str(memory_type_name(map[index as int].Type)),
            FormatArgument::U64(map[index as int].PhysicalStart),
            FormatArgument::U64(crate::diagnostics::size_in_bytes(map[index as int])),
            FormatArgument::U64(map[index as int].Attribute),
        ]);
        crate::print::println(
            "efi-memory {}: type={}, base={:#018x}, size={:#018x}, attr={:#018x}",
            &arguments,
            output,
        );
        index += 1;
        assert(output@ =~= before + descriptor_lines(map, index as nat));
    }
    assert(map.len() == descriptor_count);
}

/// What the diagnostics say of the device tree at `address`, with room for eight
/// memory regions, sixteen reserved regions and 32 descriptors.
pub open spec fn diagnostics_text(
    boot_hart: usize,
    address: usize,
    entry_stack: usize,
    memory: Seq<u8>,
    firmware: FirmwareRanges,
) -> Seq<u8> {
    line(
        "entry: boot_hart={}, device_tree={:#018x}, sp={:#018x}",
        seq![
            FormatArgument::Usize(boot_hart),
            FormatArgument::Usize(address),
            FormatArgument::Usize(entry_stack),
        ],
    ) + if fdt_fault(address, memory) is Some {
        line("diagnostics: memory-map unavailable", Seq::empty())
    } else {
        tree_lines(
            tree_memory(structure_of(memory), strings_of(memory)),
            all_reserved(
                reserve_map_of(memory),
                structure_of(memory),
                strings_of(memory),
            ),
            8,
            16,
        ) + map_lines(
            parts_of_tree(
                address,
                be32(memory, 4) as usize,
                reserve_map_of(memory),
                structure_of(memory),
                strings_of(memory),
                8,
                16,
            ),
            firmware,
            32,
        )
    }
}

/// Prints firmware diagnostics using the live device tree at `device_tree` and the
/// memory subsystem. `memory` is what can be read from that address on.
pub fn print_diagnostics(
    boot_hart: usize,
    device_tree: usize,
    entry_stack: usize,
    memory: &[u8],
    firmware: &FirmwareRanges,
    output: &mut Vec<u8>,
)
    ensures
        final(output)@ == old(output)@ + diagnostics_text(
            boot_hart,
            device_tree,
            entry_stack,
            memory@,
            *firmware,
        ),
{
    let ghost before = output@;
    let entry = [
        FormatArgument::Usize(boot_hart),
        FormatArgument::Usize(device_tree),
        FormatArgument::Usize(entry_stack),
    ];
    assert(entry@ =~= seq![
        FormatArgument::Usize(boot_hart),
        FormatArgument::Usize(device_tree),
        FormatArgument::Usize(entry_stack),
    ]);
    crate::print::println(
        "entry: boot_hart={}, device_tree={:#018x}, sp={:#018x}",
        &entry,
        output,
    );
    let mut regions: [MemoryRegion; 8] = [MemoryRegion { base: 0, size: 0 };8];
    let mut reserved: [MemoryRegion; 16] = [MemoryRegion { base: 0, size: 0 };16];
    let mut memory_map: [EFI_MEMORY_DESCRIPTOR; 32] = [EMPTY_MEMORY_DESCRIPTOR();32];
    let fdt = match Fdt::from_ptr(device_tree, memory) {
        Ok(fdt) => fdt,
        Err(_) => {
            let arguments: [FormatArgument<'_>; 0] = [];
            assert(arguments@ =~= Seq::empty());
            crate::print::println("diagnostics: memory-map unavailable", &arguments, output);
            assert(output@ =~= before + diagnostics_text(
                boot_hart,
                device_tree,
                entry_stack,
                memory@,
                *firmware,
            ));
            return;
        },
    };
    print_fdt_information(&fdt, &mut regions, &mut reserved, output);
    print_memory_map(&fdt, &mut regions, &mut reserved, firmware, &mut memory_map, output);
    assert(output@ =~= before + diagnostics_text(
        boot_hart,
        device_tree,
        entry_stack,
        memory@,
        *firmware,
    ));
}

} // verus!
