//! Printed text says what was printed.

use vstd::prelude::*;
use vstd::string::*;
use vstd::utf8::*;
use crate::linux::{literal_bytes, root_text};
use crate::print::{
    argument_text, closing_brace, decimal_text, digits_from, digits_value, hexadecimal,
    hexadecimal_text, padded_hexadecimal, rendered, rendered_from, repeated, specifier,
    FormatArgument, FormatKind, ParsedFormatSpec,
};

verus! {

/// The number that a digit stands for, if it is one of a base.
pub open spec fn digit_value(digit: u8, base: int) -> Option<int> {
    let value = if 0x30 <= digit <= 0x39 {
        digit - 0x30
    } else if 0x61 <= digit <= 0x66 {
        digit - 0x61 + 10
    } else {
        base
    };
    if value < base {
        Some(value)
    } else {
        None
    }
}

/// The number that digits of a base stand for, the highest one first.
pub open spec fn number_of(digits: Seq<u8>, base: int) -> Option<int>
    decreases digits.len(),
{
    if digits.len() == 0 {
        Some(0)
    } else {
        match (number_of(digits.drop_last(), base), digit_value(digits.last(), base)) {
            (Some(high), Some(low)) => Some(high * base + low),
            _ => None,
        }
    }
}

/// The decimal digits of a number are read as that number, and have no needless zero.
pub proof fn decimal_digits_are_read(value: nat)
    ensures
        number_of(decimal_text(value), 10) == Some(value as int),
        decimal_text(value).len() > 0,
        decimal_text(value)[0] == 0x30 ==> value == 0 && decimal_text(value).len() == 1,
    decreases value,
{
    let text = decimal_text(value);
    reveal_with_fuel(number_of, 2);
    if value < 10 {
        assert(text.drop_last() =~= Seq::empty());
    } else {
        decimal_digits_are_read(value / 10);
        assert(text.drop_last() =~= decimal_text(value / 10));
        assert(text[0] == decimal_text(value / 10)[0]);
    }
}

/// The hexadecimal digits of a number are read as that number, and have no needless zero.
pub proof fn hexadecimal_digits_are_read(value: nat)
    ensures
        number_of(hexadecimal_text(value), 16) == Some(value as int),
        hexadecimal_text(value).len() > 0,
        hexadecimal_text(value)[0] == 0x30 ==> value == 0 && hexadecimal_text(value).len() == 1,
    decreases value,
{
    let text = hexadecimal_text(value);
    reveal_with_fuel(number_of, 2);
    if value < 16 {
        assert(text.drop_last() =~= Seq::empty());
    } else {
        hexadecimal_digits_are_read(value / 16);
        assert(text.drop_last() =~= hexadecimal_text(value / 16));
        assert(text[0] == hexadecimal_text(value / 16)[0]);
    }
}

/// Zeros before digits change nothing.
proof fn zeros_count_nothing(count: nat, digits: Seq<u8>, base: int)
    requires
        base == 10 || base == 16,
    ensures
        number_of(repeated(0x30, count as int) + digits, base) == number_of(digits, base),
    decreases digits.len(), count,
{
    let zeros = repeated(0x30, count as int);
    let whole = zeros + digits;
    if digits.len() > 0 {
        assert(whole.drop_last() =~= zeros + digits.drop_last());
        zeros_count_nothing(count, digits.drop_last(), base);
    } else if count > 0 {
        let fewer = repeated(0x30, count - 1);
        assert(whole.drop_last() =~= fewer + digits);
        assert(whole.last() == 0x30);
        zeros_count_nothing((count - 1) as nat, digits, base);
    } else {
        assert(whole =~= digits);
    }
}

/// A number that is printed in hexadecimal takes as much width as it is given, or more where
/// it needs more. With zeros, the prefix comes first and all behind it is the number; without,
/// spaces come first, and the number has no needless zero.
pub proof fn padded_number_is_read(value: u64, specification: ParsedFormatSpec)
    ensures
        ({
            let text = padded_hexadecimal(value, specification);
            let digits = hexadecimal_text(value as nat);
            let prefix = if specification.alternate {
                seq![0x30u8, 0x78u8]
            } else {
                Seq::empty()
            };
            &&& text.len() == if specification.width > prefix.len() + digits.len() {
                specification.width as nat
            } else {
                prefix.len() + digits.len()
            }
            &&& specification.zero_pad ==> text.take(prefix.len() as int) == prefix && number_of(
                text.skip(prefix.len() as int),
                16,
            ) == Some(value as int)
            &&& !specification.zero_pad ==> text == repeated(
                0x20,
                text.len() - prefix.len() - digits.len(),
            ) + prefix + digits
        }),
{
    reveal_strlit("0x");
    literal_bytes("0x");
    assert("0x".spec_bytes() =~= seq![0x30u8, 0x78u8]) by {
        assert("0x".spec_bytes()[0] == "0x"@[0] as u8);
        assert("0x".spec_bytes()[1] == "0x"@[1] as u8);
    }
    hexadecimal_digits_are_read(value as nat);
    let text = padded_hexadecimal(value, specification);
    let digits = hexadecimal_text(value as nat);
    let prefix = if specification.alternate {
        seq![0x30u8, 0x78u8]
    } else {
        Seq::empty()
    };
    let missing = text.len() - prefix.len() - digits.len();
    if specification.zero_pad {
        zeros_count_nothing(missing as nat, digits, 16);
        assert(text.take(prefix.len() as int) =~= prefix);
        assert(text.skip(prefix.len() as int) =~= repeated(0x30, missing) + digits);
    } else {
        assert(text =~= repeated(0x20, missing) + prefix + digits);
    }
}

/// Whether text has no braces.
pub open spec fn brace_free(text: Seq<u8>) -> bool {
    forall|i: int| 0 <= i < text.len() ==> text[i] != 0x7b && text[i] != 0x7d
}

/// Text without braces is kept until something else comes.
proof fn text_is_kept(
    format: Seq<u8>,
    arguments: Seq<FormatArgument<'_>>,
    start: int,
    index: int,
    until: int,
    used: int,
)
    requires
        0 <= start <= index <= until <= format.len(),
        forall|i: int| index <= i < until ==> format[i] != 0x7b && format[i] != 0x7d,
    ensures
        rendered_from(format, arguments, start, index, used) == rendered_from(
            format,
            arguments,
            start,
            until,
            used,
        ),
    decreases until - index,
{
    if index < until {
        text_is_kept(format, arguments, start, index + 1, until, used);
    }
}

/// What is printed from a place on depends on what stands there and on the arguments left.
#[verifier::spinoff_prover]
#[verifier::rlimit(30)]
proof fn rendering_shifts(
    format: Seq<u8>,
    tail: Seq<u8>,
    at: int,
    arguments: Seq<FormatArgument<'_>>,
    left: Seq<FormatArgument<'_>>,
    taken: int,
    start: int,
    index: int,
    used: int,
)
    requires
        0 <= at,
        format.len() == at + tail.len(),
        forall|i: int| 0 <= i < tail.len() ==> #[trigger] format[at + i] == tail[i],
        0 <= taken,
        arguments.len() == taken + left.len(),
        forall|i: int| 0 <= i < left.len() ==> #[trigger] arguments[taken + i] == left[i],
        0 <= start <= index <= tail.len(),
        0 <= used <= left.len(),
    ensures
        rendered_from(format, arguments, at + start, at + index, taken + used) == rendered_from(
            tail,
            left,
            start,
            index,
            used,
        ),
    decreases tail.len() - index,
{
    same_part(format, tail, at, start, index);
    if index >= tail.len() {
        same_part(format, tail, at, start, tail.len() as int);
    } else {
        assert(format[at + index] == tail[index]);
        if index + 1 < tail.len() {
            assert(format[at + (index + 1)] == tail[index + 1]);
        }
        let doubled = index + 1 < tail.len() && tail[index + 1] == tail[index];
        if tail[index] == 0x7b || tail[index] == 0x7d {
            if doubled {
                rendering_shifts(
                    format,
                    tail,
                    at,
                    arguments,
                    left,
                    taken,
                    index + 2,
                    index + 2,
                    used,
                );
            } else if tail[index] == 0x7b {
                brace_shifts(format, tail, at, index + 1);
                if let Some(end) = closing_brace(tail, index + 1) {
                    if used < left.len() && index < end < tail.len() {
                        assert(arguments[taken + used] == left[used]);
                        same_part(format, tail, at, index + 1, end);
                        rendering_shifts(
                            format,
                            tail,
                            at,
                            arguments,
                            left,
                            taken,
                            end + 1,
                            end + 1,
                            used + 1,
                        );
                    }
                }
            }
        } else {
            rendering_shifts(format, tail, at, arguments, left, taken, start, index + 1, used);
        }
    }
}

proof fn same_part(format: Seq<u8>, tail: Seq<u8>, at: int, start: int, end: int)
    requires
        0 <= at,
        format.len() == at + tail.len(),
        forall|i: int| 0 <= i < tail.len() ==> #[trigger] format[at + i] == tail[i],
        0 <= start <= end <= tail.len(),
    ensures
        format.subrange(at + start, at + end) == tail.subrange(start, end),
{
    let left = format.subrange(at + start, at + end);
    let right = tail.subrange(start, end);
    assert forall|i: int| 0 <= i < left.len() implies left[i] == right[i] by {
        assert(format[at + (start + i)] == tail[start + i]);
    }
    assert(left =~= right);
}

proof fn brace_shifts(format: Seq<u8>, tail: Seq<u8>, at: int, from: int)
    requires
        0 <= at,
        format.len() == at + tail.len(),
        forall|i: int| 0 <= i < tail.len() ==> #[trigger] format[at + i] == tail[i],
        0 <= from <= tail.len(),
    ensures
        match closing_brace(tail, from) {
            Some(end) => closing_brace(format, at + from) == Some(at + end) && from <= end
                < tail.len(),
            None => closing_brace(format, at + from) is None,
        },
    decreases tail.len() - from,
{
    if from < tail.len() {
        assert(format[at + from] == tail[from]);
        brace_shifts(format, tail, at, from + 1);
    }
}

proof fn brace_is_found(format: Seq<u8>, from: int, end: int)
    requires
        0 <= from <= end < format.len(),
        forall|i: int| from <= i < end ==> format[i] != 0x7d,
        format[end] == 0x7d,
    ensures
        closing_brace(format, from) == Some(end),
    decreases end - from,
{
    if from < end {
        brace_is_found(format, from + 1, end);
    }
}

/// Text, a pair of braces and more prints the text, the next argument as the braces ask, and
/// then what the rest prints with the arguments that are left.
#[verifier::spinoff_prover]
#[verifier::rlimit(30)]
pub proof fn argument_is_printed_in_place(
    text: Seq<u8>,
    asked: Seq<u8>,
    rest: Seq<u8>,
    argument: FormatArgument<'_>,
    others: Seq<FormatArgument<'_>>,
)
    requires
        brace_free(text),
        brace_free(asked),
    ensures
        rendered(
            text + seq![0x7bu8] + asked + seq![0x7du8] + rest,
            seq![argument] + others,
        ) == text + argument_text(argument, asked) + rendered(rest, others),
{
    let format = text + seq![0x7bu8] + asked + seq![0x7du8] + rest;
    let arguments = seq![argument] + others;
    let open = text.len() as int;
    let close = open + 1 + asked.len();
    assert(format[open] == 0x7b);
    assert(format[close] == 0x7d);
    assert forall|i: int| open + 1 <= i < close implies format[i] != 0x7d && format[i] != 0x7b by {
        assert(format[i] == asked[i - open - 1]);
    }
    text_is_kept(format, arguments, 0, 0, open, 0);
    brace_is_found(format, open + 1, close);
    assert(format.subrange(0, open) =~= text);
    assert(format.subrange(open + 1, close) =~= asked);
    let at = close + 1;
    assert forall|i: int| 0 <= i < rest.len() implies #[trigger] format[at + i] == rest[i] by {}
    assert forall|i: int| 0 <= i < others.len() implies #[trigger] arguments[1 + i] == others[i] by {}
    rendering_shifts(format, rest, at, arguments, others, 1, 0, 0, 0);
}

/// A doubled brace prints as a single one, between the text before it and what the rest
/// prints.
pub proof fn doubled_brace_is_printed(
    text: Seq<u8>,
    brace: u8,
    rest: Seq<u8>,
    arguments: Seq<FormatArgument<'_>>,
)
    requires
        brace_free(text),
        brace == 0x7b || brace == 0x7d,
    ensures
        rendered(text + seq![brace, brace] + rest, arguments) == text + seq![brace] + rendered(
            rest,
            arguments,
        ),
{
    let format = text + seq![brace, brace] + rest;
    let at = text.len() as int;
    reveal_strlit("{");
    reveal_strlit("}");
    literal_bytes("{");
    literal_bytes("}");
    assert("{".spec_bytes() =~= seq![0x7bu8]) by {
        assert("{".spec_bytes()[0] == "{"@[0] as u8);
    }
    assert("}".spec_bytes() =~= seq![0x7du8]) by {
        assert("}".spec_bytes()[0] == "}"@[0] as u8);
    }
    assert(format[at] == brace && format[at + 1] == brace);
    text_is_kept(format, arguments, 0, 0, at, 0);
    assert(format.subrange(0, at) =~= text);
    assert forall|i: int| 0 <= i < rest.len() implies #[trigger] format[at + 2 + i] == rest[i] by {}
    rendering_shifts(format, rest, at + 2, arguments, arguments, 0, 0, 0, 0);
}

/// What an argument prints between empty braces: text as it is, numbers in decimal.
pub proof fn arguments_are_displayed(argument: FormatArgument<'_>)
    ensures
        match argument {
            FormatArgument::Str(value) => argument_text(argument, Seq::empty())
                == value.spec_bytes(),
            FormatArgument::Bool(value) => argument_text(argument, Seq::empty()) == if value {
                "true".spec_bytes()
            } else {
                "false".spec_bytes()
            },
            FormatArgument::Usize(value) => number_of(argument_text(argument, Seq::empty()), 10)
                == Some(value as int),
            FormatArgument::U64(value) => number_of(argument_text(argument, Seq::empty()), 10)
                == Some(value as int),
            FormatArgument::U32(value) => number_of(argument_text(argument, Seq::empty()), 10)
                == Some(value as int),
        },
{
    match argument {
        FormatArgument::Usize(value) => decimal_digits_are_read(value as nat),
        FormatArgument::U64(value) => decimal_digits_are_read(value as nat),
        FormatArgument::U32(value) => decimal_digits_are_read(value as nat),
        _ => {},
    }
}

/// The width that a specifier asks for is the number that its digits stand for.
proof fn digits_are_counted(text: Seq<u8>, from: int, end: int)
    requires
        0 <= from <= end < text.len(),
        forall|i: int| from <= i < end ==> 0x30 <= #[trigger] text[i] <= 0x39,
        !(0x30 <= text[end] <= 0x39),
    ensures
        digits_from(text, from) == end - from,
    decreases end - from,
{
    if from < end {
        digits_are_counted(text, from + 1, end);
    }
}

proof fn decimal_value(digits: Seq<u8>)
    requires
        forall|i: int| 0 <= i < digits.len() ==> 0x30 <= #[trigger] digits[i] <= 0x39,
    ensures
        number_of(digits, 10) == Some(digits_value(digits) as int),
    decreases digits.len(),
{
    if digits.len() > 0 {
        decimal_value(digits.drop_last());
    }
}

/// A specifier for hexadecimal: a colon, `#` for the prefix, `0` for zeros, the width in
/// decimal, and `x`.
#[verifier::spinoff_prover]
#[verifier::rlimit(30)]
pub proof fn written_specifier_is_parsed(alternate: bool, zero_pad: bool, width: nat)
    requires
        0 < width <= usize::MAX,
    ensures
        ({
            let text = seq![0x3au8] + (if alternate {
                seq![0x23u8]
            } else {
                Seq::empty()
            }) + (if zero_pad {
                seq![0x30u8]
            } else {
                Seq::empty()
            }) + decimal_text(width) + seq![0x78u8];
            specifier(text) == Some(
                ParsedFormatSpec {
                    kind: FormatKind::LowerHex,
                    alternate,
                    width: width as usize,
                    zero_pad,
                },
            )
        }),
{
    let digits = decimal_text(width);
    let flag = if alternate {
        seq![0x23u8]
    } else {
        Seq::empty()
    };
    let zero = if zero_pad {
        seq![0x30u8]
    } else {
        Seq::empty()
    };
    let text = seq![0x3au8] + flag + zero + digits + seq![0x78u8];
    decimal_digits_are_read(width);
    decimal_digits_are_digits(width);
    let start = (1 + flag.len() + zero.len()) as int;
    let end = start + digits.len();
    assert(text[end] == 0x78);
    assert forall|i: int| start <= i < end implies 0x30 <= #[trigger] text[i] <= 0x39 by {
        assert(text[i] == digits[i - start]);
    }
    digits_are_counted(text, start, end);
    assert(text.subrange(start, end) =~= digits);
    decimal_value(digits);
    assert(text[start] == digits[0]);
    assert(alternate ==> text[1] == 0x23);
    assert(!alternate && zero_pad ==> text[1] == 0x30);
    assert(zero_pad ==> text[1 + flag.len() as int] == 0x30);
}

proof fn decimal_digits_are_digits(value: nat)
    ensures
        forall|i: int|
            0 <= i < decimal_text(value).len() ==> 0x30 <= #[trigger] decimal_text(value)[i] <= 0x39,
    decreases value,
{
    if value >= 10 {
        let front = decimal_text(value / 10);
        let text = decimal_text(value);
        decimal_digits_are_digits(value / 10);
        assert forall|i: int| 0 <= i < text.len() implies 0x30 <= #[trigger] text[i] <= 0x39 by {
            if i < front.len() {
                assert(text[i] == front[i]);
            }
        }
    }
}

/// The root argument of a kernel names the disk by a letter, counted from `a`, and the
/// partition by its number.
pub proof fn root_argument_names_partition(disk: int, partition: nat)
    requires
        0 <= disk < 26,
    ensures
        ({
            let text = root_text(disk, partition);
            &&& text.take(12) == "root=/dev/vd".spec_bytes()
            &&& "root=/dev/vd".spec_bytes().len() == 12
            &&& text[12] == 0x61 + disk
            &&& number_of(text.skip(13), 10) == Some(partition as int)
        }),
{
    reveal_strlit("root=/dev/vd");
    literal_bytes("root=/dev/vd");
    decimal_digits_are_read(partition);
    let text = root_text(disk, partition);
    assert(text.take(12) =~= "root=/dev/vd".spec_bytes());
    assert(text.skip(13) =~= decimal_text(partition));
}

} // verus!
