//! Small formatter for console output.
//!
//! Formatted text is appended to a byte vector, which the caller sends to the
//! console.

use vstd::prelude::*;
use vstd::string::*;
use crate::gpt::hex_digit;

verus! {

/// One runtime formatting argument supported by the firmware printer.
#[derive(Clone, Copy)]
pub enum FormatArgument<'a> {
    /// UTF-8 string slice argument.
    Str(&'a str),
    /// Boolean argument rendered as `true` or `false`.
    Bool(bool),
    /// Machine-sized unsigned integer argument.
    Usize(usize),
    /// `u64` argument.
    U64(u64),
    /// `u32` argument.
    U32(u32),
}

/// Converts a value into one runtime formatting argument.
pub trait IntoFormatArgument<'a>: Sized {
    /// The formatting argument for this value.
    spec fn argument(self) -> FormatArgument<'a>;

    /// Returns the runtime formatting argument for this value.
    fn into_argument(self) -> (argument: FormatArgument<'a>)
        ensures
            argument == self.argument(),
    ;
}

impl<'a> IntoFormatArgument<'a> for &'a str {
    open spec fn argument(self) -> FormatArgument<'a> {
        FormatArgument::Str(self)
    }

    /// Returns the string formatting argument.
    fn into_argument(self) -> (argument: FormatArgument<'a>) {
        FormatArgument::Str(self)
    }
}

impl<'a> IntoFormatArgument<'a> for bool {
    open spec fn argument(self) -> FormatArgument<'a> {
        FormatArgument::Bool(self)
    }

    /// Returns the boolean formatting argument.
    fn into_argument(self) -> (argument: FormatArgument<'a>) {
        FormatArgument::Bool(self)
    }
}

impl<'a> IntoFormatArgument<'a> for usize {
    open spec fn argument(self) -> FormatArgument<'a> {
        FormatArgument::Usize(self)
    }

    /// Returns the machine-sized integer formatting argument.
    fn into_argument(self) -> (argument: FormatArgument<'a>) {
        FormatArgument::Usize(self)
    }
}

impl<'a> IntoFormatArgument<'a> for u64 {
    open spec fn argument(self) -> FormatArgument<'a> {
        FormatArgument::U64(self)
    }

    /// Returns the `u64` formatting argument.
    fn into_argument(self) -> (argument: FormatArgument<'a>) {
        FormatArgument::U64(self)
    }
}

impl<'a> IntoFormatArgument<'a> for u32 {
    open spec fn argument(self) -> FormatArgument<'a> {
        FormatArgument::U32(self)
    }

    /// Returns the `u32` formatting argument.
    fn into_argument(self) -> (argument: FormatArgument<'a>) {
        FormatArgument::U32(self)
    }
}

impl<'a> IntoFormatArgument<'a> for u8 {
    open spec fn argument(self) -> FormatArgument<'a> {
        FormatArgument::U32(self as u32)
    }

    /// Returns the `u8` formatting argument.
    fn into_argument(self) -> (argument: FormatArgument<'a>) {
        FormatArgument::U32(self as u32)
    }
}

/// Converts one supported value into a runtime formatting argument.
pub fn into_argument<'a, T: IntoFormatArgument<'a>>(value: T) -> (argument: FormatArgument<'a>)
    ensures
        argument == value.argument(),
{
    value.into_argument()
}

/// The decimal digits of a number.
pub open spec fn decimal_text(value: nat) -> Seq<u8>
    decreases value,
{
    if value < 10 {
        seq![(0x30 + value) as u8]
    } else {
        decimal_text(value / 10).push((0x30 + value % 10) as u8)
    }
}

/// The lower-case hexadecimal digits of a number.
pub open spec fn hexadecimal_text(value: nat) -> Seq<u8>
    decreases value,
{
    if value < 16 {
        seq![hex_digit(value as int)]
    } else {
        hexadecimal_text(value / 16).push(hex_digit(value as int % 16))
    }
}

/// `count` copies of one byte.
pub open spec fn repeated(byte: u8, count: int) -> Seq<u8> {
    Seq::new(count as nat, |i: int| byte)
}

/// Supported formatting modes.
#[derive(Clone, Copy, Debug, PartialEq, Eq, Structural)]
pub enum FormatKind {
    /// Standard display formatting.
    Display,
    /// Lowercase hexadecimal formatting.
    LowerHex,
}

/// One parsed format specifier.
#[derive(Clone, Copy, Debug, PartialEq, Eq, Structural)]
pub struct ParsedFormatSpec {
    /// Rendering mode selected by the specifier.
    pub kind: FormatKind,
    /// Whether the alternate form should be used.
    pub alternate: bool,
    /// Minimum output width.
    pub width: usize,
    /// Whether width padding should use zero bytes.
    pub zero_pad: bool,
}

/// Whether a byte is a decimal digit.
pub open spec fn is_digit(byte: u8) -> bool {
    0x30 <= byte <= 0x39
}

/// Number of decimal digits from place `from` on.
pub open spec fn digits_from(bytes: Seq<u8>, from: int) -> nat
    decreases bytes.len() - from,
{
    if from < 0 || from >= bytes.len() || !is_digit(bytes[from]) {
        0
    } else {
        1 + digits_from(bytes, from + 1)
    }
}

/// The number that decimal digits stand for.
pub open spec fn digits_value(digits: Seq<u8>) -> nat
    decreases digits.len(),
{
    if digits.len() == 0 {
        0
    } else {
        (digits_value(digits.drop_last()) * 10 + (digits.last() - 0x30)) as nat
    }
}

/// A number, or the largest machine-sized one where it does not fit.
pub open spec fn saturated(value: nat) -> usize {
    if value > usize::MAX {
        usize::MAX
    } else {
        value as usize
    }
}

/// What the text between braces asks for: nothing for display; a colon, an optional
/// `#`, an optional `0`, an optional width and `x` for hexadecimal.
pub open spec fn specifier(text: Seq<u8>) -> Option<ParsedFormatSpec> {
    if text.len() == 0 {
        Some(
            ParsedFormatSpec {
                kind: FormatKind::Display,
                alternate: false,
                width: 0,
                zero_pad: false,
            },
        )
    } else if text[0] != 0x3a {
        None
    } else {
        let alternate = text.len() > 1 && text[1] == 0x23;
        let flag: int = if alternate {
            2
        } else {
            1
        };
        let zero_pad = text.len() > flag && text[flag] == 0x30;
        let start: int = if zero_pad {
            flag + 1
        } else {
            flag
        };
        let end = start + digits_from(text, start);
        if end + 1 == text.len() && text[end] == 0x78 {
            Some(
                ParsedFormatSpec {
                    kind: FormatKind::LowerHex,
                    alternate,
                    width: saturated(digits_value(text.subrange(start, end))),
                    zero_pad,
                },
            )
        } else {
            None
        }
    }
}

/// A number in hexadecimal form with prefix and padding. Spaces go before the
/// prefix, zeros behind it.
pub open spec fn padded_hexadecimal(value: u64, specification: ParsedFormatSpec) -> Seq<u8> {
    let digits = hexadecimal_text(value as nat);
    let prefix = if specification.alternate {
        "0x".spec_bytes()
    } else {
        Seq::empty()
    };
    let used = (if specification.alternate {
        2int
    } else {
        0int
    }) + digits.len();
    let missing = if specification.width > used {
        specification.width - used
    } else {
        0
    };
    if specification.zero_pad {
        prefix + repeated(0x30, missing) + digits
    } else {
        repeated(0x20, missing) + prefix + digits
    }
}

/// An argument with display formatting.
pub open spec fn displayed(argument: FormatArgument<'_>) -> Seq<u8> {
    match argument {
        FormatArgument::Str(value) => value.spec_bytes(),
        FormatArgument::Bool(value) => if value {
            "true".spec_bytes()
        } else {
            "false".spec_bytes()
        },
        FormatArgument::Usize(value) => decimal_text(value as nat),
        FormatArgument::U64(value) => decimal_text(value as nat),
        FormatArgument::U32(value) => decimal_text(value as nat),
    }
}

/// An argument with hexadecimal formatting, which only numbers have.
pub open spec fn hexadecimal(argument: FormatArgument<'_>, specification: ParsedFormatSpec) -> Seq<u8> {
    match argument {
        FormatArgument::Usize(value) => padded_hexadecimal(value as u64, specification),
        FormatArgument::U64(value) => padded_hexadecimal(value, specification),
        FormatArgument::U32(value) => padded_hexadecimal(value as u64, specification),
        _ => "<format-error>".spec_bytes(),
    }
}

/// An argument formatted as the text between braces asks.
pub open spec fn argument_text(argument: FormatArgument<'_>, text: Seq<u8>) -> Seq<u8> {
    match specifier(text) {
        Some(specification) => match specification.kind {
            FormatKind::Display => displayed(argument),
            FormatKind::LowerHex => hexadecimal(argument, specification),
        },
        None => "<format-error>".spec_bytes(),
    }
}

/// Place of the first closing brace at or after `from`.
pub open spec fn closing_brace(format: Seq<u8>, from: int) -> Option<int>
    decreases format.len() - from,
{
    if from < 0 || from >= format.len() {
        None
    } else if format[from] == 0x7d {
        Some(from)
    } else {
        closing_brace(format, from + 1)
    }
}

/// What is printed of a format string from `index` on, when the text since `start`
/// is still to be printed and `used` arguments have been. Doubled braces stand for
/// single ones. A closing brace on its own discards the text before it.
pub open spec fn rendered_from(
    format: Seq<u8>,
    arguments: Seq<FormatArgument<'_>>,
    start: int,
    index: int,
    used: int,
) -> Seq<u8>
    decreases format.len() - index,
{
    if index < 0 || index >= format.len() {
        format.subrange(start, format.len() as int)
    } else {
        let literal = format.subrange(start, index);
        let doubled = index + 1 < format.len() && format[index + 1] == format[index];
        if format[index] == 0x7b {
            if doubled {
                literal + "{".spec_bytes() + rendered_from(
                    format,
                    arguments,
                    index + 2,
                    index + 2,
                    used,
                )
            } else {
                match closing_brace(format, index + 1) {
                    None => literal + "<format-error>".spec_bytes(),
                    Some(end) => if used < 0 || used >= arguments.len() {
                        literal + "<missing-arg>".spec_bytes()
                    } else if end <= index || end >= format.len() {
                        literal
                    } else {
                        literal + argument_text(
                            arguments[used],
                            format.subrange(index + 1, end),
                        ) + rendered_from(format, arguments, end + 1, end + 1, used + 1)
                    },
                }
            }
        } else if format[index] == 0x7d {
            if doubled {
                literal + "}".spec_bytes() + rendered_from(
                    format,
                    arguments,
                    index + 2,
                    index + 2,
                    used,
                )
            } else {
                "<format-error>".spec_bytes()
            }
        } else {
            rendered_from(format, arguments, start, index + 1, used)
        }
    }
}

/// What a format string and its arguments print.
pub open spec fn rendered(format: Seq<u8>, arguments: Seq<FormatArgument<'_>>) -> Seq<u8> {
    rendered_from(format, arguments, 0, 0, 0)
}

proof fn plain_text_from(
    format: Seq<u8>,
    arguments: Seq<FormatArgument<'_>>,
    start: int,
    index: int,
    used: int,
)
    requires
        forall|i: int| 0 <= i < format.len() ==> format[i] != 0x7b && format[i] != 0x7d,
        0 <= index,
    ensures
        rendered_from(format, arguments, start, index, used) == format.subrange(
            start,
            format.len() as int,
        ),
    decreases format.len() - index,
{
    if index < format.len() {
        plain_text_from(format, arguments, start, index + 1, used);
    }
}

/// Text without braces prints as it is.
pub proof fn plain_text_is_printed(format: Seq<u8>, arguments: Seq<FormatArgument<'_>>)
    requires
        forall|i: int| 0 <= i < format.len() ==> format[i] != 0x7b && format[i] != 0x7d,
    ensures
        rendered(format, arguments) == format,
{
    plain_text_from(format, arguments, 0, 0, 0);
    assert(format.subrange(0, format.len() as int) =~= format);
}

/// Appends bytes to the output.
fn puts(output: &mut Vec<u8>, text: &[u8])
    ensures
        final(output)@ == old(output)@ + text@,
{
    let ghost before = output@;
    let mut index: usize = 0;
    while index < text.len()
        invariant
            index <= text@.len(),
            output@ == before + text@.take(index as int),
        decreases text@.len() - index,
    {
        output.push(text[index]);
        index += 1;
        assert(output@ =~= before + text@.take(index as int));
    }
    assert(text@.take(index as int) =~= text@);
}

/// Appends a number of copies of one byte to the output.
fn put_repeated(output: &mut Vec<u8>, byte: u8, count: usize)
    ensures
        final(output)@ == old(output)@ + repeated(byte, count as int),
{
    let ghost before = output@;
    let mut index: usize = 0;
    assert(output@ =~= before + repeated(byte, 0));
    while index < count
        invariant
            index <= count,
            output@ == before + repeated(byte, index as int),
        decreases count - index,
    {
        output.push(byte);
        index += 1;
        assert(output@ =~= before + repeated(byte, index as int));
    }
}

/// Writes one format string with its argument array to `output`.
///
/// Supported forms are `{}`, `{:x}`, `{:#x}`, `{:02x}` and `{:#018x}`, plus escaped
/// braces `{{` and `}}`.
pub fn print(format: &str, arguments: &[FormatArgument<'_>], output: &mut Vec<u8>)
    ensures
        final(output)@ == old(output)@ + rendered(format.spec_bytes(), arguments@),
{
    let bytes = format.as_bytes();
    let ghost whole = output@ + rendered(bytes@, arguments@);
    let mut literal_start: usize = 0;
    let mut index: usize = 0;
    let mut argument_index: usize = 0;
    while index < bytes.len()
        invariant
            bytes@ == format.spec_bytes(),
            literal_start <= index <= bytes@.len(),
            argument_index <= arguments@.len(),
            whole == old(output)@ + rendered(bytes@, arguments@),
            whole == output@ + rendered_from(
                bytes@,
                arguments@,
                literal_start as int,
                index as int,
                argument_index as int,
            ),
        decreases bytes@.len() - index,
    {
        let ghost before = output@;
        let ghost literal = bytes@.subrange(literal_start as int, index as int);
        let byte: u8 = bytes[index];
        if byte == 0x7b {
            flush_literal(bytes, literal_start, index, output);
            if index + 1 < bytes.len() && bytes[index + 1] == 0x7b {
                puts(output, "{".as_bytes());
                proof {
                    let rest = rendered_from(
                        bytes@,
                        arguments@,
                        index + 2,
                        index + 2,
                        argument_index as int,
                    );
                    assert(before + (literal + "{".spec_bytes() + rest) =~= output@ + rest);
                }
                index += 2;
                literal_start = index;
            } else {
                let spec_end: usize = match find_closing_brace(bytes, index + 1) {
                    Some(end) => end,
                    None => {
                        puts(output, "<format-error>".as_bytes());
                        assert(output@ =~= before + (literal + "<format-error>".spec_bytes()));
                        return;
                    },
                };
                if argument_index >= arguments.len() {
                    puts(output, "<missing-arg>".as_bytes());
                    assert(output@ =~= before + (literal + "<missing-arg>".spec_bytes()));
                    return;
                }
                let spec = &bytes[index + 1..spec_end];
                print_argument(&arguments[argument_index], spec, output);
                proof {
                    let text = argument_text(arguments@[argument_index as int], spec@);
                    let rest = rendered_from(
                        bytes@,
                        arguments@,
                        spec_end + 1,
                        spec_end + 1,
                        argument_index + 1,
                    );
                    assert(before + (literal + text + rest) =~= output@ + rest);
                }
                argument_index += 1;
                index = spec_end + 1;
                literal_start = index;
            }
        } else if byte == 0x7d {
            if index + 1 < bytes.len() && bytes[index + 1] == 0x7d {
                flush_literal(bytes, literal_start, index, output);
                puts(output, "}".as_bytes());
                proof {
                    let rest = rendered_from(
                        bytes@,
                        arguments@,
                        index + 2,
                        index + 2,
                        argument_index as int,
                    );
                    assert(before + (literal + "}".spec_bytes() + rest) =~= output@ + rest);
                }
                index += 2;
                literal_start = index;
            } else {
                puts(output, "<format-error>".as_bytes());
                return;
            }
        } else {
            index += 1;
        }
    }
    flush_literal(bytes, literal_start, bytes.len(), output);
}

/// Writes one format string with its argument array and a trailing newline to
/// `output`.
pub fn println(format: &str, arguments: &[FormatArgument<'_>], output: &mut Vec<u8>)
    ensures
        final(output)@ == old(output)@ + rendered(format.spec_bytes(), arguments@)
            + "\n".spec_bytes(),
{
    print(format, arguments, output);
    puts(output, "\n".as_bytes());
}

/// Prints one part of the format literal.
fn flush_literal(format: &[u8], start: usize, end: usize, output: &mut Vec<u8>)
    requires
        start <= end <= format@.len(),
    ensures
        final(output)@ == old(output)@ + format@.subrange(start as int, end as int),
{
    let part = &format[start..end];
    puts(output, part);
}

/// Returns the place of the next closing brace.
fn find_closing_brace(bytes: &[u8], start: usize) -> (place: Option<usize>)
    ensures
        match place {
            Some(end) => closing_brace(bytes@, start as int) == Some(end as int) && start <= end
                < bytes@.len(),
            None => closing_brace(bytes@, start as int) is None,
        },
{
    let mut index: usize = start;
    while index < bytes.len()
        invariant
            start <= index,
            closing_brace(bytes@, start as int) == closing_brace(bytes@, index as int),
        decreases bytes@.len() - index,
    {
        if bytes[index] == 0x7d {
            return Some(index);
        }
        index += 1;
    }
    None
}

/// Prints one argument according to one format specifier.
fn print_argument(argument: &FormatArgument<'_>, spec: &[u8], output: &mut Vec<u8>)
    ensures
        final(output)@ == old(output)@ + argument_text(*argument, spec@),
{
    match parse_format_spec(spec) {
        Some(specification) => match specification.kind {
            FormatKind::Display => print_display(argument, output),
            FormatKind::LowerHex => print_hex(argument, specification, output),
        },
        None => puts(output, "<format-error>".as_bytes()),
    }
}

/// Parses the text between one `{` and `}`.
pub fn parse_format_spec(spec: &[u8]) -> (parsed: Option<ParsedFormatSpec>)
    ensures
        parsed == specifier(spec@),
{
    if spec.len() == 0 {
        return Some(
            ParsedFormatSpec {
                kind: FormatKind::Display,
                alternate: false,
                width: 0,
                zero_pad: false,
            },
        );
    }
    if spec[0] != 0x3a {
        return None;
    }
    let mut index: usize = 1;
    let mut alternate = false;
    let mut zero_pad = false;
    if index < spec.len() && spec[index] == 0x23 {
        alternate = true;
        index += 1;
    }
    if index < spec.len() && spec[index] == 0x30 {
        zero_pad = true;
        index += 1;
    }
    let start = index;
    let mut width: usize = 0;
    assert(spec@.subrange(start as int, start as int) =~= Seq::empty());
    while index < spec.len() && spec[index] >= 0x30 && spec[index] <= 0x39
        invariant
            start <= index <= spec@.len(),
            digits_from(spec@, start as int) == index - start + digits_from(spec@, index as int),
            width == saturated(digits_value(spec@.subrange(start as int, index as int))),
        decreases spec@.len() - index,
    {
        let digit: usize = (spec[index] - 0x30) as usize;
        proof {
            let longer = spec@.subrange(start as int, index + 1);
            assert(longer.drop_last() =~= spec@.subrange(start as int, index as int));
            assert(longer.last() == spec@[index as int]);
        }
        width = if width > (usize::MAX - digit) / 10 {
            usize::MAX
        } else {
            width * 10 + digit
        };
        index += 1;
    }
    if index < spec.len() && spec.len() - index == 1 && spec[index] == 0x78 {
        return Some(
            ParsedFormatSpec { kind: FormatKind::LowerHex, alternate, width, zero_pad },
        );
    }
    None
}

/// Prints one argument with display formatting.
fn print_display(argument: &FormatArgument<'_>, output: &mut Vec<u8>)
    ensures
        final(output)@ == old(output)@ + displayed(*argument),
{
    match argument {
        FormatArgument::Str(value) => puts(output, value.as_bytes()),
        FormatArgument::Bool(value) => {
            if *value {
                puts(output, "true".as_bytes())
            } else {
                puts(output, "false".as_bytes())
            }
        },
        FormatArgument::Usize(value) => print_decimal_u64(*value as u64, output),
        FormatArgument::U64(value) => print_decimal_u64(*value, output),
        FormatArgument::U32(value) => print_decimal_u64(*value as u64, output),
    }
}

/// Prints one argument with lowercase hexadecimal formatting.
fn print_hex(argument: &FormatArgument<'_>, specification: ParsedFormatSpec, output: &mut Vec<u8>)
    ensures
        final(output)@ == old(output)@ + hexadecimal(*argument, specification),
{
    let value: u64 = match argument {
        FormatArgument::Usize(value) => *value as u64,
        FormatArgument::U64(value) => *value,
        FormatArgument::U32(value) => *value as u64,
        _ => {
            puts(output, "<format-error>".as_bytes());
            return;
        },
    };
    print_hex_u64(value, specification, output);
}

/// Emits one `u64` in decimal form.
pub(crate) fn print_decimal_u64(value: u64, output: &mut Vec<u8>)
    ensures
        final(output)@ == old(output)@ + decimal_text(value as nat),
    decreases value,
{
    let ghost before = output@;
    if value >= 10 {
        print_decimal_u64(value / 10, output);
    }
    output.push(0x30 + (value % 10) as u8);
    assert(output@ =~= before + decimal_text(value as nat));
}

/// Emits the hexadecimal digits of one `u64`.
fn print_hex_digits(value: u64, output: &mut Vec<u8>)
    ensures
        final(output)@ == old(output)@ + hexadecimal_text(value as nat),
    decreases value,
{
    let ghost before = output@;
    if value >= 16 {
        print_hex_digits(value / 16, output);
    }
    let digit: u8 = (value % 16) as u8;
    output.push(
        if digit < 10 {
            0x30 + digit
        } else {
            0x61 + (digit - 10)
        },
    );
    assert(output@ =~= before + hexadecimal_text(value as nat));
}

/// Emits one `u64` in lowercase hexadecimal form with prefix and padding.
fn print_hex_u64(value: u64, specification: ParsedFormatSpec, output: &mut Vec<u8>)
    ensures
        final(output)@ == old(output)@ + padded_hexadecimal(value, specification),
{
    let ghost before = output@;
    let ghost digits = hexadecimal_text(value as nat);
    let mut text: Vec<u8> = Vec::new();
    print_hex_digits(value, &mut text);
    assert(text@ =~= digits);
    let prefix_length: usize = if specification.alternate {
        2
    } else {
        0
    };
    let padding: usize = if specification.width > text.len() && specification.width - text.len()
        > prefix_length {
        specification.width - text.len() - prefix_length
    } else {
        0
    };
    if !specification.zero_pad {
        put_repeated(output, 0x20, padding);
    }
    if specification.alternate {
        puts(output, "0x".as_bytes());
    }
    if specification.zero_pad {
        put_repeated(output, 0x30, padding);
    }
    puts(output, text.as_slice());
    assert(output@ =~= before + padded_hexadecimal(value, specification));
}

} // verus!
