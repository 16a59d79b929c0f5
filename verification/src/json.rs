//! Machine-readable output: JSON text, line records and record terminators.

use vstd::prelude::*;
use vstd::string::StringExecFns;
use vstd::utf8::{encode_utf8, valid_utf8};

use crate::base64::{base64_reads_back, unbase64};
use crate::bytes::{
    decimal, decimal_chars, decimal_text, lemma_decimal_chars, lit, put, put_decimal, put_str,
};
use crate::sz::find_byteset;
use crate::text::decoded;

verus! {

broadcast use crate::bytes::group_append;

/// What terminates each output record.
#[derive(Clone, Copy, PartialEq, Eq, Structural, Debug)]
pub enum Terminator {
    /// A newline, which is lossy for records that contain one.
    Newline,
    /// A NUL byte, which no text record can contain.
    Null,
}

impl Terminator {
    /// The byte that ends a record.
    pub open spec fn byte(self) -> u8 {
        match self {
            Terminator::Newline => 0x0A,
            Terminator::Null => 0,
        }
    }

    /// Map a `--null` flag to the terminator (newline when `false`).
    pub fn from_null(null: bool) -> (terminator: Self)
        ensures
            terminator == if null {
                Terminator::Null
            } else {
                Terminator::Newline
            },
    {
        if null {
            Terminator::Null
        } else {
            Terminator::Newline
        }
    }

    /// The byte that ends a record.
    pub fn as_byte(self) -> (byte: u8)
        ensures
            byte == self.byte(),
    {
        match self {
            Terminator::Newline => 0x0A,
            Terminator::Null => 0,
        }
    }
}

/// Whether `data` is valid UTF-8.
pub fn is_utf8(data: &[u8]) -> (valid: bool)
    ensures
        valid == valid_utf8(data@),
{
    decoded(data).is_some()
}

/// The bytes JSON must escape: the quote, the backslash and the control characters.
pub open spec fn needs_escape(byte: u8) -> bool {
    byte == 0x22 || byte == 0x5C || byte < 0x20
}

/// A lowercase hexadecimal digit.
pub open spec fn hex_digit(value: int) -> u8 {
    if value < 10 {
        (0x30 + value) as u8
    } else {
        (0x57 + value) as u8
    }
}

/// One byte as JSON text spells it.
pub open spec fn escaped_byte(byte: u8) -> Seq<u8> {
    if byte == 0x22 {
        seq![0x5C, 0x22]
    } else if byte == 0x5C {
        seq![0x5C, 0x5C]
    } else if byte == 0x0A {
        seq![0x5C, 0x6E]
    } else if byte == 0x0D {
        seq![0x5C, 0x72]
    } else if byte == 0x09 {
        seq![0x5C, 0x74]
    } else if byte < 0x20 {
        seq![0x5C, 0x75, 0x30, 0x30, hex_digit(byte as int / 16), hex_digit(byte as int % 16)]
    } else {
        seq![byte]
    }
}

/// `data` as JSON text spells it, without the quotes around it.
pub open spec fn escaped(data: Seq<u8>) -> Seq<u8>
    decreases data.len(),
{
    if data.len() == 0 {
        Seq::empty()
    } else {
        escaped_byte(data[0]) + escaped(data.drop_first())
    }
}

proof fn lemma_escaped_concat(front: Seq<u8>, back: Seq<u8>)
    ensures
        escaped(front + back) == escaped(front) + escaped(back),
    decreases front.len(),
{
    if front.len() == 0 {
        assert(front + back =~= back);
        assert(escaped(front) + escaped(back) =~= escaped(back));
    } else {
        lemma_escaped_concat(front.drop_first(), back);
        assert((front + back).drop_first() =~= front.drop_first() + back);
        assert(escaped(front + back) =~= escaped(front) + escaped(back));
    }
}

proof fn lemma_escaped_plain(run: Seq<u8>)
    requires
        forall|at: int| 0 <= at < run.len() ==> !needs_escape(#[trigger] run[at]),
    ensures
        escaped(run) == run,
    decreases run.len(),
{
    if run.len() > 0 {
        assert(!needs_escape(run[0]));
        assert forall|at: int| 0 <= at < run.drop_first().len() implies !needs_escape(
            #[trigger] run.drop_first()[at],
        ) by {
            assert(run.drop_first()[at] == run[at + 1]);
        }
        lemma_escaped_plain(run.drop_first());
        assert(escaped(run) =~= run);
    }
}

/// The byte a hexadecimal digit stands for.
pub open spec fn hex_value(digit: u8) -> int {
    if digit < 0x3A {
        digit - 0x30
    } else {
        digit - 0x57
    }
}

/// What a JSON reader gets back from escaped text.
pub open spec fn unescaped(text: Seq<u8>) -> Seq<u8>
    decreases text.len(),
{
    if text.len() == 0 {
        Seq::empty()
    } else if text[0] != 0x5C || text.len() == 1 {
        seq![text[0]] + unescaped(text.drop_first())
    } else if text[1] == 0x75 && text.len() >= 6 {
        seq![(hex_value(text[4]) * 16 + hex_value(text[5])) as u8] + unescaped(
            text.subrange(6, text.len() as int),
        )
    } else {
        seq![
            if text[1] == 0x6E {
                0x0Au8
            } else if text[1] == 0x72 {
                0x0Du8
            } else if text[1] == 0x74 {
                0x09u8
            } else {
                text[1]
            },
        ] + unescaped(text.subrange(2, text.len() as int))
    }
}

/// Escaped text holds no control character, and a JSON reader gets back from it exactly what was
/// escaped.
pub proof fn escaped_text_reads_back(data: Seq<u8>)
    ensures
        forall|at: int| 0 <= at < escaped(data).len() ==> #[trigger] escaped(data)[at] >= 0x20,
        unescaped(escaped(data)) == data,
    decreases data.len(),
{
    if data.len() > 0 {
        escaped_text_reads_back(data.drop_first());
        let head = escaped_byte(data[0]);
        let tail = escaped(data.drop_first());
        let text = escaped(data);
        assert(text.subrange(head.len() as int, text.len() as int) =~= tail);
        assert(text[0] == head[0]);
        if head.len() == 1 {
            assert(text.drop_first() =~= tail);
        } else {
            assert(text[1] == head[1]);
            if head.len() == 6 {
                assert(text[4] == head[4] && text[5] == head[5]);
                assert(data[0] as int == (data[0] as int / 16) * 16 + data[0] as int % 16);
            }
        }
        assert(unescaped(text) =~= seq![data[0]] + data.drop_first());
        assert(seq![data[0]] + data.drop_first() =~= data);
    }
}

proof fn lemma_escaped_one(byte: u8)
    ensures
        escaped(seq![byte]) == escaped_byte(byte),
{
    let one = seq![byte];
    assert(one.drop_first() =~= Seq::<u8>::empty());
    assert(escaped(one.drop_first()) =~= Seq::<u8>::empty());
    assert(escaped(one) =~= escaped_byte(byte));
}

/// Append one byte as JSON text spells it.
fn put_escaped(output: &mut Vec<u8>, byte: u8)
    requires
        needs_escape(byte),
    ensures
        final(output)@ == old(output)@ + escaped_byte(byte),
{
    output.push(0x5C);
    if byte == 0x22 {
        output.push(0x22);
    } else if byte == 0x5C {
        output.push(0x5C);
    } else if byte == 0x0A {
        output.push(0x6E);
    } else if byte == 0x0D {
        output.push(0x72);
    } else if byte == 0x09 {
        output.push(0x74);
    } else {
        output.push(0x75);
        output.push(0x30);
        output.push(0x30);
        output.push(lower_hex(byte / 16));
        output.push(lower_hex(byte % 16));
    }
}

/// Append `data`, JSON-escaped, in bulk between escapes. Bytes at or above 0x80 pass through, so
/// the result is valid JSON only for valid UTF-8.
pub fn json_escape_to(output: &mut Vec<u8>, data: &[u8])
    ensures
        final(output)@ == old(output)@ + escaped(data@),
{
    let escapes: [u8; 34] = [
        0x22, 0x5C, 0x00, 0x01, 0x02, 0x03, 0x04, 0x05, 0x06, 0x07, 0x08, 0x09, 0x0A, 0x0B, 0x0C,
        0x0D, 0x0E, 0x0F, 0x10, 0x11, 0x12, 0x13, 0x14, 0x15, 0x16, 0x17, 0x18, 0x19, 0x1A, 0x1B,
        0x1C, 0x1D, 0x1E, 0x1F,
    ];
    let set: &[u8] = escapes.as_slice();
    proof {
        assert forall|byte: u8| #[trigger] set@.contains(byte) <==> needs_escape(byte) by {
            if needs_escape(byte) {
                let at: int = if byte == 0x22 {
                    0
                } else if byte == 0x5C {
                    1
                } else {
                    byte + 2
                };
                assert(set@[at] == byte);
            }
        }
    }
    let mut position: usize = 0;
    assert(data@.subrange(0, 0) =~= Seq::empty());
    assert(output@ + escaped(data@.subrange(0, 0)) =~= output@);
    loop
        invariant
            position <= data@.len(),
            output@ == old(output)@ + escaped(data@.subrange(0, position as int)),
            forall|byte: u8| #[trigger] set@.contains(byte) <==> needs_escape(byte),
        decreases data@.len() - position,
    {
        let rest: &[u8] = &data[position..data.len()];
        let found = find_byteset(rest, set);
        let ghost front = data@.subrange(0, position as int);
        match found {
            None => {
                put(output, rest);
                proof {
                    lemma_escaped_plain(rest@);
                    lemma_escaped_concat(front, rest@);
                    assert(front + rest@ =~= data@);
                }
                return;
            },
            Some(offset) => {
                let run: &[u8] = &rest[0..offset];
                put(output, run);
                let byte: u8 = rest[offset];
                proof {
                    assert forall|at: int| 0 <= at < run@.len() implies !needs_escape(
                        #[trigger] run@[at],
                    ) by {
                        assert(run@[at] == rest@[at]);
                        assert(!set@.contains(rest@[at]));
                    }
                    lemma_escaped_plain(run@);
                    lemma_escaped_concat(front, run@);
                    assert(front + run@ =~= data@.subrange(0, position + offset));
                    let before = data@.subrange(0, position + offset);
                    lemma_escaped_concat(before, seq![byte]);
                    lemma_escaped_one(byte);
                    assert(before + seq![byte] =~= data@.subrange(0, position + offset + 1));
                    assert(set@.contains(rest@[offset as int]));
                }
                put_escaped(output, byte);
                position = position + offset + 1;
                assert(output@ =~= old(output)@ + escaped(data@.subrange(0, position as int)));
            },
        }
    }
}

/// A value below sixteen as a lowercase hexadecimal digit.
pub fn lower_hex(value: u8) -> (digit: u8)
    requires
        value < 16,
    ensures
        digit == hex_digit(value as int),
{
    if value < 10 {
        0x30 + value
    } else {
        0x57 + value
    }
}

/// The alphabet of standard base64.
pub open spec fn base64_symbol(value: int) -> u8 {
    if value < 26 {
        (0x41 + value) as u8
    } else if value < 52 {
        (0x61 + (value - 26)) as u8
    } else if value < 62 {
        (0x30 + (value - 52)) as u8
    } else if value == 62 {
        0x2B
    } else {
        0x2F
    }
}

/// Standard base64 with padding.
pub open spec fn base64(data: Seq<u8>) -> Seq<u8>
    decreases data.len(),
{
    if data.len() == 0 {
        Seq::empty()
    } else if data.len() == 1 {
        let bits = data[0] as int * 0x10000;
        seq![base64_symbol(bits / 0x40000), base64_symbol(bits / 0x1000 % 64), 0x3D, 0x3D]
    } else if data.len() == 2 {
        let bits = data[0] as int * 0x10000 + data[1] as int * 0x100;
        seq![
            base64_symbol(bits / 0x40000),
            base64_symbol(bits / 0x1000 % 64),
            base64_symbol(bits / 0x40 % 64),
            0x3D,
        ]
    } else {
        let bits = data[0] as int * 0x10000 + data[1] as int * 0x100 + data[2] as int;
        seq![
            base64_symbol(bits / 0x40000),
            base64_symbol(bits / 0x1000 % 64),
            base64_symbol(bits / 0x40 % 64),
            base64_symbol(bits % 64),
        ] + base64(data.subrange(3, data.len() as int))
    }
}

fn base64_digit(value: u32) -> (symbol: u8)
    requires
        value < 64,
    ensures
        symbol == base64_symbol(value as int),
{
    if value < 26 {
        0x41 + value as u8
    } else if value < 52 {
        0x61 + (value - 26) as u8
    } else if value < 62 {
        0x30 + (value - 52) as u8
    } else if value == 62 {
        0x2B
    } else {
        0x2F
    }
}

/// Append `data` in standard base64 with padding.
pub fn base64_to(output: &mut Vec<u8>, data: &[u8])
    ensures
        final(output)@ == old(output)@ + base64(data@),
{
    let mut position: usize = 0;
    assert(data@.subrange(0, data@.len() as int) =~= data@);
    while position < data.len()
        invariant
            position <= data@.len(),
            output@ + base64(data@.subrange(position as int, data@.len() as int)) == old(output)@
                + base64(data@),
        decreases data@.len() - position,
    {
        let ghost rest = data@.subrange(position as int, data@.len() as int);
        let left: usize = data.len() - position;
        let first: u32 = data[position] as u32;
        assert(rest[0] == data@[position as int]);
        if left == 1 {
            let bits: u32 = first * 0x10000;
            output.push(base64_digit(bits / 0x40000));
            output.push(base64_digit(bits / 0x1000 % 64));
            output.push(0x3D);
            output.push(0x3D);
            position = position + 1;
        } else if left == 2 {
            assert(rest[1] == data@[position + 1]);
            let bits: u32 = first * 0x10000 + data[position + 1] as u32 * 0x100;
            output.push(base64_digit(bits / 0x40000));
            output.push(base64_digit(bits / 0x1000 % 64));
            output.push(base64_digit(bits / 0x40 % 64));
            output.push(0x3D);
            position = position + 2;
        } else {
            assert(rest[1] == data@[position + 1] && rest[2] == data@[position + 2]);
            let bits: u32 = first * 0x10000 + data[position + 1] as u32 * 0x100 + data[position
                + 2] as u32;
            output.push(base64_digit(bits / 0x40000));
            output.push(base64_digit(bits / 0x1000 % 64));
            output.push(base64_digit(bits / 0x40 % 64));
            output.push(base64_digit(bits % 64));
            position = position + 3;
            assert(rest.subrange(3, rest.len() as int) =~= data@.subrange(
                position as int,
                data@.len() as int,
            ));
        }
        assert(output@ + base64(data@.subrange(position as int, data@.len() as int)) =~= old(
            output,
        )@ + base64(data@)) by {
            if left <= 2 {
                assert(data@.subrange(position as int, data@.len() as int) =~= Seq::empty());
            }
        }
    }
    assert(data@.subrange(position as int, data@.len() as int) =~= Seq::empty());
}

/// The wrapper that every path and line field uses: `{"text":"…"}`, or `{"bytes":"<base64>"}`
/// where the bytes are not valid UTF-8.
pub open spec fn text_field(data: Seq<u8>) -> Seq<u8> {
    if valid_utf8(data) {
        lit("{\"text\":\"") + escaped(data) + lit("\"}")
    } else {
        lit("{\"bytes\":\"") + base64(data) + lit("\"}")
    }
}

/// Append the wrapper that every path and line field uses, falling back to base64 when the slice
/// is not valid UTF-8: passing invalid bytes through raw would emit JSON no decoder accepts.
pub fn json_text_field_to(output: &mut Vec<u8>, data: &[u8])
    ensures
        final(output)@ == old(output)@ + text_field(data@),
{
    if !is_utf8(data) {
        put_str(output, "{\"bytes\":\"");
        base64_to(output, data);
        put_str(output, "\"}");
    } else {
        put_str(output, "{\"text\":\"");
        json_escape_to(output, data);
        put_str(output, "\"}");
    }
}

/// One `{"type":"line","data":{"path":…,"text":…,"line_number":N}}` record.
pub open spec fn line_record(
    path: Seq<char>,
    line: Seq<u8>,
    number: nat,
    hash: Option<Seq<char>>,
) -> Seq<u8> {
    lit("{\"type\":\"line\",\"data\":{\"path\":") + text_field(encode_utf8(path)) + lit(
        ",\"text\":",
    ) + text_field(line) + lit(",\"line_number\":") + decimal(number) + (match hash {
        Some(name) => lit(",\"line_hash\":\"") + encode_utf8(name) + lit("\""),
        None => Seq::empty(),
    }) + lit("}}\n")
}

/// Append one line record. `index` is zero-based; the record reports it one-based, as every tool
/// numbers lines.
pub fn write_line_record(
    output: &mut Vec<u8>,
    path: &str,
    line: &[u8],
    index: usize,
    hash: Option<&str>,
)
    requires
        index < usize::MAX,
    ensures
        final(output)@ == old(output)@ + line_record(
            path@,
            line@,
            (index + 1) as nat,
            match hash {
                Some(name) => Some(name@),
                None => None,
            },
        ),
{
    put_str(output, "{\"type\":\"line\",\"data\":{\"path\":");
    json_text_field_to(output, path.as_bytes());
    put_str(output, ",\"text\":");
    json_text_field_to(output, line);
    put_str(output, ",\"line_number\":");
    put_decimal(output, (index + 1) as u64);
    // Named the same as the searcher's column, since it is the same value read back the same way.
    match hash {
        Some(name) => {
            put_str(output, ",\"line_hash\":\"");
            put_str(output, name);
            put_str(output, "\"");
        },
        None => {},
    }
    put_str(output, "}}\n");
}

/// Three digits of a number, leading zeros kept.
pub open spec fn three_digits(value: nat) -> Seq<char> {
    seq![
        (0x30 + value / 100 % 10) as char,
        (0x30 + value / 10 % 10) as char,
        (0x30 + value % 10) as char,
    ]
}

/// `value` with `,` between thousands groups.
pub open spec fn grouped(value: nat) -> Seq<char>
    decreases value,
{
    if value < 1000 {
        decimal_chars(value)
    } else {
        grouped(value / 1000) + ","@ + three_digits(value % 1000)
    }
}

/// Render `value` with `,` between thousands groups.
pub fn format_grouped_number(value: usize) -> (text: String)
    ensures
        text@ == grouped(value as nat),
    decreases value,
{
    if value < 1000 {
        decimal_text(value as u64)
    } else {
        let mut text = format_grouped_number(value / 1000);
        text.append(",");
        let low: usize = value % 1000;
        text.push((0x30 + (low / 100) % 10) as u8 as char);
        text.push((0x30 + (low / 10) % 10) as u8 as char);
        text.push((0x30 + low % 10) as u8 as char);
        assert(text@ =~= grouped(value as nat));
        text
    }
}

/// What ends a record: one line feed, or one NUL where those were asked for.
pub proof fn a_terminator_is_one_byte()
    ensures
        Terminator::Newline.byte() == '\n' as u8,
        Terminator::Null.byte() == 0,
{
}

/// A field of text is told from one of bytes by its name, and either reads back.
pub proof fn a_field_tells_text_from_bytes(data: Seq<u8>)
    ensures
        valid_utf8(data) ==> exists|text: Seq<u8>|
            #[trigger] unescaped(text) == data && text_field(data) == lit("{\"text\":\"") + text
                + lit("\"}"),
        !valid_utf8(data) ==> exists|text: Seq<u8>|
            #[trigger] unbase64(text) == data && text_field(data) == lit("{\"bytes\":\"") + text
                + lit("\"}"),
{
    escaped_text_reads_back(data);
    base64_reads_back(data);
    assert(unescaped(escaped(data)) == data);
    assert(unbase64(base64(data)) == data);
}

proof fn lemma_thousands(value: nat)
    requires
        value >= 1000,
    ensures
        decimal_chars(value) == decimal_chars(value / 1000) + three_digits(value % 1000),
{
    let tens = value / 10;
    let hundreds = value / 100;
    assert(tens / 10 == hundreds);
    assert(hundreds / 10 == value / 1000);
    assert(decimal_chars(value) == decimal_chars(tens).push((0x30 + value % 10) as char));
    assert(decimal_chars(tens) == decimal_chars(hundreds).push((0x30 + tens % 10) as char));
    assert(decimal_chars(hundreds) == decimal_chars(value / 1000).push(
        (0x30 + hundreds % 10) as char,
    ));
    assert(value % 1000 / 100 % 10 == hundreds % 10);
    assert(value % 1000 / 10 % 10 == tens % 10);
    assert(value % 1000 % 10 == value % 10);
    assert(decimal_chars(value) =~= decimal_chars(value / 1000) + three_digits(value % 1000));
}

proof fn lemma_short_number(value: nat)
    requires
        value < 1000,
    ensures
        decimal_chars(value).len() <= 3,
{
    reveal_with_fuel(decimal_chars, 4);
}

proof fn lemma_no_commas(text: Seq<char>)
    requires
        forall|i: int| 0 <= i < text.len() ==> #[trigger] text[i] != ',',
    ensures
        text.filter(|letter: char| letter != ',') == text,
    decreases text.len(),
{
    reveal(Seq::filter);
    if text.len() > 0 {
        lemma_no_commas(text.drop_last());
        assert(text.last() == text[text.len() - 1]);
        assert(text.drop_last().push(text.last()) =~= text);
    }
}

/// A grouped number is the number with a comma in front of every three digits, counted from its end,
/// and none in front of them all.
pub proof fn commas_stand_between_thousands(value: nat)
    ensures
        grouped(value).filter(|letter: char| letter != ',') == decimal_chars(value),
        grouped(value).len() > 0,
        grouped(value)[0] != ',',
        forall|i: int|
            0 <= i < grouped(value).len() ==> (#[trigger] grouped(value)[i] == ',' <==> (grouped(
                value,
            ).len() - i) % 4 == 0),
    decreases value,
{
    let text = grouped(value);
    let digit = |letter: char| letter != ',';
    lemma_decimal_chars(value);
    if value < 1000 {
        lemma_short_number(value);
        lemma_no_commas(text);
    } else {
        let front = grouped(value / 1000);
        let low = three_digits(value % 1000);
        commas_stand_between_thousands(value / 1000);
        lemma_thousands(value);
        reveal_strlit(",");
        lemma_no_commas(low);
        Seq::filter_distributes_over_add(front + ","@, low, digit);
        Seq::filter_distributes_over_add(front, ","@, digit);
        assert(","@.filter(digit) =~= Seq::empty()) by {
            reveal_with_fuel(Seq::filter, 2);
            assert(","@.drop_last() =~= Seq::<char>::empty());
        }
        assert(text.filter(digit) =~= decimal_chars(value));
        assert(text.len() == front.len() + 4);
        assert forall|i: int| 0 <= i < text.len() implies (#[trigger] text[i] == ',' <==> (
        text.len() - i) % 4 == 0) by {
            if i < front.len() {
                assert(text[i] == front[i]);
            } else if i > front.len() {
                assert(text[i] == low[i - front.len() - 1]);
            }
        }
        assert(text[0] == front[0]);
    }
}

} // verus!
