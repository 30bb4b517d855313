//! Formatted output.

use rustfw::print::{into_argument, parse_format_spec, print, FormatArgument, FormatKind, ParsedFormatSpec};

fn printed(format: &str, arguments: &[FormatArgument<'_>]) -> String {
    let mut output = Vec::new();
    rustfw::print::println(format, arguments, &mut output);
    String::from_utf8(output).unwrap()
}

#[test]
fn basic_string_formatting() {
    assert_eq!(printed("greeting={}", &[into_argument("hello")]), "greeting=hello\n");
}

#[test]
fn partition_style_formatting() {
    let arguments = [
        into_argument(1usize),
        into_argument(235520u64),
        into_argument(33318879u64),
        into_argument("-"),
        into_argument("Linux filesystem"),
        into_argument("ext4"),
        into_argument(true),
    ];
    assert_eq!(
        printed(
            "partition {}: start={}, size={}, label='{}', type='{}', fs='{}', bootflag={}",
            &arguments,
        ),
        "partition 1: start=235520, size=33318879, label='-', type='Linux filesystem', fs='ext4', bootflag=true\n",
    );
}

#[test]
fn memory_map_type_formatting() {
    let arguments = [
        into_argument(1usize),
        into_argument("EfiReservedMemoryType"),
        into_argument(0x8000_0000usize),
        into_argument(0x0006_0000usize),
        into_argument(0u64),
    ];
    assert_eq!(
        printed(
            "efi-memory {}: type={}, base={:#018x}, size={:#018x}, attr={:#018x}",
            &arguments,
        ),
        "efi-memory 1: type=EfiReservedMemoryType, base=0x0000000080000000, size=0x0000000000060000, attr=0x0000000000000000\n",
    );
}

#[test]
fn text_without_braces_is_printed_as_it_is() {
    let mut output = b"before ".to_vec();
    print("plain text, 100%", &[], &mut output);
    assert_eq!(output, b"before plain text, 100%");
}

#[test]
fn hexadecimal_widths() {
    assert_eq!(printed("{:x}", &[into_argument(0xbeefu32)]), "beef\n");
    assert_eq!(printed("{:#x}", &[into_argument(0u64)]), "0x0\n");
    assert_eq!(printed("{:08x}", &[into_argument(0xbeefu32)]), "0000beef\n");
    assert_eq!(printed("{:#06x}", &[into_argument(0xabu64)]), "0x00ab\n");
    assert_eq!(printed("{:#x}", &[into_argument(u64::MAX)]), "0xffffffffffffffff\n");
    assert_eq!(printed("{:2x}", &[into_argument(0x12345u32)]), "12345\n");
}

#[test]
fn decimal_limits() {
    assert_eq!(printed("{}", &[into_argument(0u32)]), "0\n");
    assert_eq!(printed("{}", &[into_argument(u64::MAX)]), "18446744073709551615\n");
    assert_eq!(printed("{}", &[into_argument(false)]), "false\n");
}

#[test]
fn unknown_specifiers_are_reported_in_the_text() {
    assert_eq!(printed("{:?}", &[into_argument(1u32)]), "<format-error>\n");
    assert_eq!(printed("{:x}", &[into_argument("text")]), "<format-error>\n");
}

#[test]
fn format_specifiers_are_parsed() {
    assert_eq!(
        parse_format_spec(b":#018x"),
        Some(ParsedFormatSpec {
            kind: FormatKind::LowerHex,
            alternate: true,
            width: 18,
            zero_pad: true,
        }),
    );
    assert_eq!(
        parse_format_spec(b""),
        Some(ParsedFormatSpec {
            kind: FormatKind::Display,
            alternate: false,
            width: 0,
            zero_pad: false,
        }),
    );
    assert_eq!(parse_format_spec(b"x"), None);
    assert_eq!(parse_format_spec(b":#018d"), None);
}
