//! Names that are printed for memory types and trap causes.

use vstd::prelude::*;
use vstd::string::*;
use crate::devicetree::MemoryRegion;
use crate::diagnostics::{
    descriptor_line, descriptor_lines, line, memory_type_name, region_line, region_lines,
};
use crate::interrupts::{cause_name, trap_cause, trap_report};
use crate::memory::EFI_MEMORY_TYPE;
use crate::memory_map::{end_of, sound, EFI_MEMORY_DESCRIPTOR};
use crate::print::{rendered, FormatArgument};

verus! {

/// The name of a memory type is the one that it has in UEFI, and other numbers have none. No
/// two types have the same number.
pub proof fn memory_types_have_their_names(kind: EFI_MEMORY_TYPE, other: EFI_MEMORY_TYPE)
    ensures
        kind.code() == other.code() ==> kind == other,
        memory_type_name(kind.code()) == match kind {
            EFI_MEMORY_TYPE::EfiReservedMemoryType => "EfiReservedMemoryType",
            EFI_MEMORY_TYPE::EfiLoaderCode => "EfiLoaderCode",
            EFI_MEMORY_TYPE::EfiLoaderData => "EfiLoaderData",
            EFI_MEMORY_TYPE::EfiBootServicesCode => "EfiBootServicesCode",
            EFI_MEMORY_TYPE::EfiBootServicesData => "EfiBootServicesData",
            EFI_MEMORY_TYPE::EfiRuntimeServicesCode => "EfiRuntimeServicesCode",
            EFI_MEMORY_TYPE::EfiRuntimeServicesData => "EfiRuntimeServicesData",
            EFI_MEMORY_TYPE::EfiConventionalMemory => "EfiConventionalMemory",
            EFI_MEMORY_TYPE::EfiUnusableMemory => "EfiUnusableMemory",
            EFI_MEMORY_TYPE::EfiACPIReclaimMemory => "EfiACPIReclaimMemory",
            EFI_MEMORY_TYPE::EfiACPIMemoryNVS => "EfiACPIMemoryNVS",
            EFI_MEMORY_TYPE::EfiMemoryMappedIO => "EfiMemoryMappedIO",
            EFI_MEMORY_TYPE::EfiMemoryMappedIOPortSpace => "EfiMemoryMappedIOPortSpace",
            EFI_MEMORY_TYPE::EfiPalCode => "EfiPalCode",
            EFI_MEMORY_TYPE::EfiPersistentMemory => "EfiPersistentMemory",
            EFI_MEMORY_TYPE::EfiUnacceptedMemoryType => "EfiUnacceptedMemoryType",
            EFI_MEMORY_TYPE::EfiMaxMemoryType => "unknown",
        },
{
}

/// What an instruction does when it faults.
pub enum Access {
    Fetch,
    Load,
    Store,
}

/// Who faults.
pub open spec fn who(access: Access) -> Seq<char> {
    match access {
        Access::Fetch => "instruction"@,
        Access::Load => "load"@,
        Access::Store => "store or AMO"@,
    }
}

/// Exceptions come in threes: each kind of access has one for a misaligned address, one for an
/// access that is not allowed, and one for a missing page, and the name says which.
pub proof fn access_faults_have_their_names(access: Access)
    ensures
        ({
            let first: u64 = match access {
                Access::Fetch => 0,
                Access::Load => 4,
                Access::Store => 6,
            };
            let page: u64 = match access {
                Access::Fetch => 12,
                Access::Load => 13,
                Access::Store => 15,
            };
            &&& cause_name(false, first)@ == who(access) + " address misaligned"@
            &&& cause_name(false, (first + 1) as u64)@ == who(access) + " access fault"@
            &&& cause_name(false, page)@ == who(access) + " page fault"@
        }),
{
    reveal_strlit("instruction");
    reveal_strlit("load");
    reveal_strlit("store or AMO");
    reveal_strlit(" address misaligned");
    reveal_strlit(" access fault");
    reveal_strlit(" page fault");
    match access {
        Access::Fetch => {
            reveal_strlit("instruction address misaligned");
            reveal_strlit("instruction access fault");
            reveal_strlit("instruction page fault");
            assert("instruction address misaligned"@ =~= "instruction"@ + " address misaligned"@);
            assert("instruction access fault"@ =~= "instruction"@ + " access fault"@);
            assert("instruction page fault"@ =~= "instruction"@ + " page fault"@);
        },
        Access::Load => {
            reveal_strlit("load address misaligned");
            reveal_strlit("load access fault");
            reveal_strlit("load page fault");
            assert("load address misaligned"@ =~= "load"@ + " address misaligned"@);
            assert("load access fault"@ =~= "load"@ + " access fault"@);
            assert("load page fault"@ =~= "load"@ + " page fault"@);
        },
        Access::Store => {
            reveal_strlit("store or AMO address misaligned");
            reveal_strlit("store or AMO access fault");
            reveal_strlit("store or AMO page fault");
            assert("store or AMO address misaligned"@ =~= "store or AMO"@
                + " address misaligned"@);
            assert("store or AMO access fault"@ =~= "store or AMO"@ + " access fault"@);
            assert("store or AMO page fault"@ =~= "store or AMO"@ + " page fault"@);
        },
    }
}

/// Interrupts of the supervisor come every four codes, and causes beyond the known ones are
/// called unknown.
pub proof fn other_causes_have_their_names(code: u64)
    ensures
        cause_name(true, code) == if code == 1 {
            "supervisor software interrupt"
        } else if code == 1 + 4 {
            "supervisor timer interrupt"
        } else if code == 1 + 4 + 4 {
            "supervisor external interrupt"
        } else {
            "unknown interrupt"
        },
        code > 15 || code == 10 || code == 11 || code == 14 ==> cause_name(false, code)
            == "unknown exception",
        cause_name(false, 8) == "environment call from U-mode",
        cause_name(false, 9) == "environment call from S-mode",
{
}

/// The highest bit of a cause tells interrupts, and the others are the code: both together
/// are the cause again.
pub proof fn cause_is_bit_and_code(scause: u64)
    ensures
        ({
            let cause = trap_cause(scause);
            &&& cause.code < 0x8000_0000_0000_0000
            &&& scause == cause.code + if cause.is_interrupt {
                0x8000_0000_0000_0000int
            } else {
                0
            }
        }),
{
}

/// Each region of a report has a line of its own with its number, counted from one, its base
/// and its size, behind the lines of those before it. The result is what stands behind it.
pub proof fn every_region_is_told(
    format: &str,
    regions: Seq<MemoryRegion>,
    count: nat,
    index: int,
) -> (behind: Seq<u8>)
    requires
        0 <= index < count <= regions.len(),
    ensures
        region_lines(format, regions, count) == region_lines(format, regions, index as nat) + line(
            format,
            seq![
                FormatArgument::Usize((index + 1) as usize),
                FormatArgument::U64(regions[index].base),
                FormatArgument::U64(regions[index].size),
            ],
        ) + behind,
        count == index + 1 ==> behind.len() == 0,
        region_lines(format, regions, 0).len() == 0,
    decreases count,
{
    if count == index + 1 {
        let whole = region_lines(format, regions, count);
        assert(whole =~= whole + Seq::<u8>::empty());
        Seq::empty()
    } else {
        let rest = every_region_is_told(format, regions, (count - 1) as nat, index);
        let behind = rest + region_line(format, regions, count - 1);
        assert(region_lines(format, regions, count) =~= region_lines(
            format,
            regions,
            index as nat,
        ) + region_line(format, regions, index) + behind);
        behind
    }
}

/// Each descriptor of a memory map has a line of its own with its number, counted from one, the
/// name of its type, its base, its size in bytes and its attributes, behind the lines of those
/// before it. The result is what stands behind it.
pub proof fn every_descriptor_is_told(
    map: Seq<EFI_MEMORY_DESCRIPTOR>,
    count: nat,
    index: int,
) -> (behind: Seq<u8>)
    requires
        0 <= index < count <= map.len(),
        sound(map[index]),
    ensures
        descriptor_lines(map, count) == descriptor_lines(map, index as nat) + line(
            "efi-memory {}: type={}, base={:#018x}, size={:#018x}, attr={:#018x}",
            seq![
                FormatArgument::Usize((index + 1) as usize),
                FormatArgument::Str(memory_type_name(map[index].Type)),
                FormatArgument::U64(map[index].PhysicalStart),
                FormatArgument::U64((end_of(map[index]) - map[index].PhysicalStart) as u64),
                FormatArgument::U64(map[index].Attribute),
            ],
        ) + behind,
        count == index + 1 ==> behind.len() == 0,
        descriptor_lines(map, 0).len() == 0,
    decreases count,
{
    if count == index + 1 {
        let whole = descriptor_lines(map, count);
        assert(whole =~= whole + Seq::<u8>::empty());
        Seq::empty()
    } else {
        let rest = every_descriptor_is_told(map, (count - 1) as nat, index);
        let behind = rest + descriptor_line(map, count - 1);
        assert(descriptor_lines(map, count) =~= descriptor_lines(map, index as nat)
            + descriptor_line(map, index) + behind);
        behind
    }
}

/// The report of a trap names the kind that the highest bit tells, the number in the other bits
/// and its name, and the two addresses.
pub proof fn trap_is_reported(scause: u64, stval: u64, sepc: u64)
    ensures
        ({
            let interrupt = scause >= 0x8000_0000_0000_0000;
            let code = if interrupt {
                (scause - 0x8000_0000_0000_0000) as u64
            } else {
                scause
            };
            let format = if interrupt {
                "rustfimware: s-mode interrupt cause={} ({}) stval={:#018x} sepc={:#018x}"
            } else {
                "rustfimware: s-mode exception cause={} ({}) stval={:#018x} sepc={:#018x}"
            };
            trap_report(scause, stval, sepc) == rendered(
                format.spec_bytes(),
                seq![
                    FormatArgument::U64(code),
                    FormatArgument::Str(cause_name(interrupt, code)),
                    FormatArgument::U64(stval),
                    FormatArgument::U64(sepc),
                ],
            ) + "\n".spec_bytes()
        }),
{
    cause_is_bit_and_code(scause);
}

} // verus!
