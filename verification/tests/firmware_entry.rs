//! Traps and firmware entry.

use rustfw::firmware::{needs_relocation, stack_top};
use rustfw::interrupts::{decode_trap_cause, report_trap, trap_cause_name, TrapCause};

fn report(scause: u64, stval: u64, sepc: u64) -> String {
    let mut output = Vec::new();
    report_trap(scause, stval, sepc, &mut output);
    String::from_utf8(output).unwrap()
}

#[test]
fn trap_causes_are_decoded() {
    assert_eq!(decode_trap_cause(5), TrapCause { is_interrupt: false, code: 5 });
    assert_eq!(
        decode_trap_cause(0x8000_0000_0000_0005),
        TrapCause { is_interrupt: true, code: 5 },
    );
}

#[test]
fn trap_causes_have_names() {
    assert_eq!(trap_cause_name(true, 5), "supervisor timer interrupt");
    assert_eq!(trap_cause_name(true, 2), "unknown interrupt");
    assert_eq!(trap_cause_name(false, 2), "illegal instruction");
    assert_eq!(trap_cause_name(false, 15), "store or AMO page fault");
    assert_eq!(trap_cause_name(false, 14), "unknown exception");
}

#[test]
fn traps_are_reported() {
    assert_eq!(
        report(13, 0x1000, 0x8020_0044),
        "rustfimware: s-mode exception cause=13 (load page fault) stval=0x0000000000001000 sepc=0x0000000080200044\n",
    );
    assert_eq!(
        report(0x8000_0000_0000_0009, 0, 1),
        "rustfimware: s-mode interrupt cause=9 (supervisor external interrupt) stval=0x0000000000000000 sepc=0x0000000000000001\n",
    );
}

#[test]
fn only_the_primary_image_is_relocated() {
    assert_eq!(stack_top(), 0x8020_0000);
    assert!(needs_relocation(0x8020_0000));
    assert!(!needs_relocation(0x9f00_0000));
}
