//! Byte strings: what the tools append to their output, and the ASCII questions they ask.

use vstd::prelude::*;
use vstd::string::StringExecFns;
use vstd::utf8::encode_utf8;

verus! {

pub const TAB: u8 = 0x09;

pub const LF: u8 = 0x0A;

pub const CR: u8 = 0x0D;

pub const SPACE: u8 = 0x20;

/// The bytes a string literal stands for in the output.
pub open spec fn lit(text: &str) -> Seq<u8> {
    encode_utf8(text@)
}

/// Appending two byte strings at once is appending the one and then the other.
pub broadcast proof fn lemma_append(out: Seq<u8>, first: Seq<u8>, second: Seq<u8>)
    ensures
        #[trigger] (out + (first + second)) == (out + first) + second,
{
    assert((out + (first + second)) =~= (out + first) + second);
}

/// Appending nothing changes nothing.
pub broadcast proof fn lemma_append_nothing(out: Seq<u8>)
    ensures
        #[trigger] (out + Seq::<u8>::empty()) == out,
{
    assert(out + Seq::<u8>::empty() =~= out);
}

pub broadcast group group_append {
    lemma_append,
    lemma_append_nothing,
}

/// `value` in decimal, without leading zeros.
pub open spec fn decimal(value: nat) -> Seq<u8>
    decreases value,
{
    if value < 10 {
        seq![(0x30 + value) as u8]
    } else {
        decimal(value / 10).push((0x30 + value % 10) as u8)
    }
}

/// `value` in decimal, as text.
pub open spec fn decimal_chars(value: nat) -> Seq<char>
    decreases value,
{
    if value < 10 {
        seq![(0x30 + value) as char]
    } else {
        decimal_chars(value / 10).push((0x30 + value % 10) as char)
    }
}

/// Append `data` to `out`.
pub fn put(out: &mut Vec<u8>, data: &[u8])
    ensures
        final(out)@ == old(out)@ + data@,
{
    out.extend_from_slice(data);
}

/// Append the bytes of `text` to `out`.
pub fn put_str(out: &mut Vec<u8>, text: &str)
    ensures
        final(out)@ == old(out)@ + encode_utf8(text@),
{
    out.extend_from_slice(text.as_bytes());
}

/// Append `value` in decimal to `out`.
pub fn put_decimal(out: &mut Vec<u8>, value: u64)
    ensures
        final(out)@ == old(out)@ + decimal(value as nat),
    decreases value,
{
    if value >= 10 {
        put_decimal(out, value / 10);
    }
    out.push(0x30 + (value % 10) as u8);
}

/// Append `true` or `false` to `out`.
pub fn put_bool(out: &mut Vec<u8>, value: bool)
    ensures
        final(out)@ == old(out)@ + bool_text(value),
{
    if value {
        put_str(out, "true");
    } else {
        put_str(out, "false");
    }
}

/// How a truth value is spelled in a record.
pub open spec fn bool_text(value: bool) -> Seq<u8> {
    if value {
        lit("true")
    } else {
        lit("false")
    }
}

fn digit_text(digit: u64) -> (text: &'static str)
    requires
        digit < 10,
    ensures
        text@ == seq![(0x30 + digit) as char],
{
    proof {
        reveal_strlit("0");
        reveal_strlit("1");
        reveal_strlit("2");
        reveal_strlit("3");
        reveal_strlit("4");
        reveal_strlit("5");
        reveal_strlit("6");
        reveal_strlit("7");
        reveal_strlit("8");
        reveal_strlit("9");
    }
    match digit {
        0 => "0",
        1 => "1",
        2 => "2",
        3 => "3",
        4 => "4",
        5 => "5",
        6 => "6",
        7 => "7",
        8 => "8",
        _ => "9",
    }
}

/// `value` in decimal, as text.
pub fn decimal_text(value: u64) -> (text: String)
    ensures
        text@ == decimal_chars(value as nat),
    decreases value,
{
    if value >= 10 {
        let mut text = decimal_text(value / 10);
        text.append(digit_text(value % 10));
        text
    } else {
        let mut text = String::new();
        text.append(digit_text(value));
        text
    }
}

/// Whether two byte strings hold the same bytes.
pub fn same_bytes(left: &[u8], right: &[u8]) -> (same: bool)
    ensures
        same == (left@ == right@),
{
    if left.len() != right.len() {
        return false;
    }
    let mut index: usize = 0;
    while index < left.len()
        invariant
            index <= left@.len(),
            left@.len() == right@.len(),
            forall|at: int| 0 <= at < index ==> left@[at] == right@[at],
        decreases left@.len() - index,
    {
        if left[index] != right[index] {
            assert(left@[index as int] != right@[index as int]);
            return false;
        }
        index += 1;
    }
    assert(left@ =~= right@);
    true
}

/// Whether `data` begins with `prefix`.
pub open spec fn begins_with(data: Seq<u8>, prefix: Seq<u8>) -> bool {
    &&& prefix.len() <= data.len()
    &&& data.subrange(0, prefix.len() as int) == prefix
}

/// Whether `data` begins with `prefix`.
pub fn starts_with(data: &[u8], prefix: &[u8]) -> (found: bool)
    ensures
        found == begins_with(data@, prefix@),
{
    if prefix.len() <= data.len() {
        same_bytes(&data[0..prefix.len()], prefix)
    } else {
        false
    }
}

/// The whitespace ASCII knows: space, tab, line feed, form feed and carriage return.
pub open spec fn ascii_space(byte: u8) -> bool {
    byte == 0x20 || byte == 0x09 || byte == 0x0A || byte == 0x0C || byte == 0x0D
}

pub fn is_ascii_space(byte: u8) -> (space: bool)
    ensures
        space == ascii_space(byte),
{
    byte == 0x20 || byte == 0x09 || byte == 0x0A || byte == 0x0C || byte == 0x0D
}

/// `data` without its leading ASCII whitespace.
pub open spec fn trimmed_start(data: Seq<u8>) -> Seq<u8>
    decreases data.len(),
{
    if data.len() > 0 && ascii_space(data[0]) {
        trimmed_start(data.subrange(1, data.len() as int))
    } else {
        data
    }
}

/// `data` without its trailing ASCII whitespace.
pub open spec fn trimmed_end(data: Seq<u8>) -> Seq<u8>
    decreases data.len(),
{
    if data.len() > 0 && ascii_space(data.last()) {
        trimmed_end(data.drop_last())
    } else {
        data
    }
}

/// `data` without the ASCII whitespace around it.
pub open spec fn trimmed(data: Seq<u8>) -> Seq<u8> {
    trimmed_end(trimmed_start(data))
}

pub fn trim_ascii_start(data: &[u8]) -> (rest: &[u8])
    ensures
        rest@ == trimmed_start(data@),
        rest@.len() <= data@.len(),
{
    let mut start: usize = 0;
    assert(data@.subrange(0, data@.len() as int) =~= data@);
    while start < data.len() && is_ascii_space(data[start])
        invariant
            start <= data@.len(),
            trimmed_start(data@) == trimmed_start(data@.subrange(start as int, data@.len() as int)),
        decreases data@.len() - start,
    {
        proof {
            let here = data@.subrange(start as int, data@.len() as int);
            assert(here.subrange(1, here.len() as int) =~= data@.subrange(
                start + 1,
                data@.len() as int,
            ));
        }
        start += 1;
    }
    proof {
        let here = data@.subrange(start as int, data@.len() as int);
        if here.len() > 0 {
            assert(here[0] == data@[start as int]);
        }
    }
    &data[start..data.len()]
}

pub fn trim_ascii_end(data: &[u8]) -> (rest: &[u8])
    ensures
        rest@ == trimmed_end(data@),
        rest@.len() <= data@.len(),
{
    let mut end: usize = data.len();
    assert(data@.subrange(0, data@.len() as int) =~= data@);
    while end > 0 && is_ascii_space(data[end - 1])
        invariant
            end <= data@.len(),
            trimmed_end(data@) == trimmed_end(data@.subrange(0, end as int)),
        decreases end,
    {
        proof {
            let here = data@.subrange(0, end as int);
            assert(here.drop_last() =~= data@.subrange(0, end - 1));
        }
        end -= 1;
    }
    &data[0..end]
}

pub fn trim_ascii(data: &[u8]) -> (rest: &[u8])
    ensures
        rest@ == trimmed(data@),
        rest@.len() <= data@.len(),
{
    trim_ascii_end(trim_ascii_start(data))
}

/// Where the first `byte` of `data` at or after `from` stands, or the end of `data`.
pub open spec fn byte_position(data: Seq<u8>, byte: u8, from: int) -> int
    decreases data.len() - from,
{
    if from < 0 || from >= data.len() {
        data.len() as int
    } else if data[from] == byte {
        from
    } else {
        byte_position(data, byte, from + 1)
    }
}

/// A position is the first of its byte exactly when nothing before it holds that byte.
pub proof fn lemma_byte_position(data: Seq<u8>, byte: u8, from: int)
    requires
        0 <= from <= data.len(),
    ensures
        from <= byte_position(data, byte, from) <= data.len(),
        byte_position(data, byte, from) < data.len() ==> data[byte_position(data, byte, from)]
            == byte,
        forall|at: int| from <= at < byte_position(data, byte, from) ==> data[at] != byte,
    decreases data.len() - from,
{
    if from < data.len() && data[from] != byte {
        lemma_byte_position(data, byte, from + 1);
    }
}

/// The number that a row of decimal digits stands for.
pub open spec fn worth_of(digits: Seq<u8>) -> int
    decreases digits.len(),
{
    if digits.len() == 0 {
        0
    } else {
        worth_of(digits.drop_last()) * 10 + (digits.last() - '0' as u8)
    }
}

/// A number is written in the digits `0` to `9`, without a zero in front, and reads back.
pub proof fn a_number_is_written_in_tens(value: nat)
    ensures
        worth_of(decimal(value)) == value,
        decimal(value).len() > 0,
        decimal(value)[0] == '0' as u8 <==> value == 0,
        value == 0 ==> decimal(value).len() == 1,
        forall|i: int|
            0 <= i < decimal(value).len() ==> '0' as u8 <= #[trigger] decimal(value)[i]
                <= '9' as u8,
    decreases value,
{
    reveal_with_fuel(worth_of, 2);
    if value >= 10 {
        a_number_is_written_in_tens(value / 10);
        assert(decimal(value).drop_last() =~= decimal(value / 10));
        assert(decimal(value)[0] == decimal(value / 10)[0]);
    } else {
        assert(decimal(value).drop_last() =~= Seq::empty());
    }
}

/// As text a number has the characters that it has as bytes.
pub proof fn lemma_decimal_chars(value: nat)
    ensures
        decimal_chars(value).len() == decimal(value).len(),
        decimal_chars(value).len() > 0,
        forall|i: int|
            0 <= i < decimal(value).len() ==> #[trigger] decimal_chars(value)[i] as u32
                == decimal(value)[i],
        forall|i: int|
            0 <= i < decimal(value).len() ==> '0' <= #[trigger] decimal_chars(value)[i] <= '9',
    decreases value,
{
    if value >= 10 {
        lemma_decimal_chars(value / 10);
    }
}

/// A text of ASCII is encoded a byte for a character.
pub proof fn lemma_ascii_bytes(text: Seq<char>)
    requires
        forall|i: int| 0 <= i < text.len() ==> (#[trigger] text[i] as u32) < 0x80,
    ensures
        encode_utf8(text).len() == text.len(),
        forall|i: int| 0 <= i < text.len() ==> #[trigger] encode_utf8(text)[i] == text[i] as u32,
    decreases text.len(),
{
    if text.len() > 0 {
        let rest = text.drop_first();
        assert forall|i: int| 0 <= i < rest.len() implies (#[trigger] rest[i] as u32) < 0x80 by {
            assert(rest[i] == text[i + 1]);
        }
        lemma_ascii_bytes(rest);
        let first = text[0] as u32;
        assert(first < 0x80);
        assert((first & 0x7F) as u8 == first) by (bit_vector)
            requires
                first < 0x80,
        ;
        assert(vstd::utf8::encode_scalar(first) =~= seq![first as u8]);
        assert forall|i: int| 0 <= i < text.len() implies #[trigger] encode_utf8(text)[i]
            == text[i] as u32 by {
            if i > 0 {
                assert(rest[i - 1] == text[i]);
            }
        }
    }
}

} // verus!
