//! Decoding of S-mode traps.

use vstd::prelude::*;
use vstd::string::*;
use crate::print::{rendered, FormatArgument};

verus! {

/// A decoded trap cause.
#[derive(Clone, Copy, Debug, PartialEq, Eq, Structural)]
pub struct TrapCause {
    /// Whether the trap is an interrupt.
    pub is_interrupt: bool,
    /// Architecture-defined cause value without the high bit.
    pub code: u64,
}

/// The cause that a value of the 64-bit `scause` register stands for: the high bit
/// tells interrupts, the other bits are the code.
pub open spec fn trap_cause(scause: u64) -> TrapCause {
    TrapCause {
        is_interrupt: scause >= 0x8000_0000_0000_0000,
        code: if scause >= 0x8000_0000_0000_0000 {
            (scause - 0x8000_0000_0000_0000) as u64
        } else {
            scause
        },
    }
}

/// Decodes a value of the `scause` register.
pub fn decode_trap_cause(scause: u64) -> (cause: TrapCause)
    ensures
        cause == trap_cause(scause),
{
    if scause >= 0x8000_0000_0000_0000 {
        TrapCause { is_interrupt: true, code: scause - 0x8000_0000_0000_0000 }
    } else {
        TrapCause { is_interrupt: false, code: scause }
    }
}

/// The name of a trap cause.
pub open spec fn cause_name(is_interrupt: bool, cause_code: u64) -> &'static str {
    if is_interrupt {
        match cause_code {
            1 => "supervisor software interrupt",
            5 => "supervisor timer interrupt",
            9 => "supervisor external interrupt",
            _ => "unknown interrupt",
        }
    } else {
        match cause_code {
            0 => "instruction address misaligned",
            1 => "instruction access fault",
            2 => "illegal instruction",
            3 => "breakpoint",
            4 => "load address misaligned",
            5 => "load access fault",
            6 => "store or AMO address misaligned",
            7 => "store or AMO access fault",
            8 => "environment call from U-mode",
            9 => "environment call from S-mode",
            12 => "instruction page fault",
            13 => "load page fault",
            15 => "store or AMO page fault",
            _ => "unknown exception",
        }
    }
}

/// Returns one short symbolic name for a trap cause code.
pub fn trap_cause_name(is_interrupt: bool, cause_code: u64) -> (name: &'static str)
    ensures
        name == cause_name(is_interrupt, cause_code),
{
    if is_interrupt {
        match cause_code {
            1 => "supervisor software interrupt",
            5 => "supervisor timer interrupt",
            9 => "supervisor external interrupt",
            _ => "unknown interrupt",
        }
    } else {
        match cause_code {
            0 => "instruction address misaligned",
            1 => "instruction access fault",
            2 => "illegal instruction",
            3 => "breakpoint",
            4 => "load address misaligned",
            5 => "load access fault",
            6 => "store or AMO address misaligned",
            7 => "store or AMO access fault",
            8 => "environment call from U-mode",
            9 => "environment call from S-mode",
            12 => "instruction page fault",
            13 => "load page fault",
            15 => "store or AMO page fault",
            _ => "unknown exception",
        }
    }
}

/// The arguments of a trap report.
pub open spec fn trap_arguments(scause: u64, stval: u64, sepc: u64) -> Seq<FormatArgument<'static>> {
    let cause = trap_cause(scause);
    seq![
        FormatArgument::U64(cause.code),
        FormatArgument::Str(cause_name(cause.is_interrupt, cause.code)),
        FormatArgument::U64(stval),
        FormatArgument::U64(sepc),
    ]
}

/// The report of a trap.
pub open spec fn trap_report(scause: u64, stval: u64, sepc: u64) -> Seq<u8> {
    rendered(
        if trap_cause(scause).is_interrupt {
            "rustfimware: s-mode interrupt cause={} ({}) stval={:#018x} sepc={:#018x}".spec_bytes()
        } else {
            "rustfimware: s-mode exception cause={} ({}) stval={:#018x} sepc={:#018x}".spec_bytes()
        },
        trap_arguments(scause, stval, sepc),
    ) + "\n".spec_bytes()
}

/// Reports one S-mode trap by its decoded cause.
pub fn report_trap(scause: u64, stval: u64, sepc: u64, output: &mut Vec<u8>)
    ensures
        final(output)@ == old(output)@ + trap_report(scause, stval, sepc),
{
    let cause = decode_trap_cause(scause);
    let cause_name = trap_cause_name(cause.is_interrupt, cause.code);
    let arguments = [
        FormatArgument::U64(cause.code),
        FormatArgument::Str(cause_name),
        FormatArgument::U64(stval),
        FormatArgument::U64(sepc),
    ];
    assert(arguments@ =~= trap_arguments(scause, stval, sepc));
    let ghost before = output@;
    if cause.is_interrupt {
        crate::print::println(
            "rustfimware: s-mode interrupt cause={} ({}) stval={:#018x} sepc={:#018x}",
            &arguments,
            output,
        );
    } else {
        crate::print::println(
            "rustfimware: s-mode exception cause={} ({}) stval={:#018x} sepc={:#018x}",
            &arguments,
            output,
        );
    }
    assert(output@ =~= before + trap_report(scause, stval, sepc));
}

} // verus!
