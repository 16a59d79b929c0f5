//! Argument values: counts and byte budgets.

use vstd::prelude::*;
use vstd::string::StringExecFns;
use vstd::utf8::encode_utf8;

use crate::bytes::{
    a_number_is_written_in_tens, decimal, decimal_chars, lemma_decimal_chars, worth_of,
};
use crate::numbers::{parse_usize, read_count, CountFault};
use crate::text::{chars_of, push_chars};

verus! {

/// What a text that is not a count is answered.
pub open spec fn count_message(fault: CountFault) -> Seq<char> {
    match fault {
        CountFault::Empty => "cannot parse integer from empty string"@,
        CountFault::InvalidDigit => "invalid digit found in string"@,
        CountFault::TooLarge => "number too large to fit in target type"@,
    }
}

/// Parse a count that has to be at least 1.
pub fn parse_at_least_one(value: &str) -> (parsed: Result<usize, String>)
    ensures
        match (read_count(encode_utf8(value@), usize::MAX as int), parsed) {
            (Ok(count), Ok(parsed)) => parsed == count && count > 0,
            (Ok(count), Err(message)) => count == 0 && message@ == "must be at least 1"@,
            (Err(fault), Err(message)) => message@ == count_message(fault),
            (Err(fault), Ok(parsed)) => false,
        },
{
    match parse_usize(value.as_bytes()) {
        Ok(count) => {
            if count == 0 {
                Err(String::from_str("must be at least 1"))
            } else {
                Ok(count)
            }
        },
        Err(CountFault::Empty) => Err(String::from_str("cannot parse integer from empty string")),
        Err(CountFault::InvalidDigit) => Err(String::from_str("invalid digit found in string")),
        Err(CountFault::TooLarge) => Err(
            String::from_str("number too large to fit in target type"),
        ),
    }
}

/// The characters Unicode calls whitespace.
pub open spec fn white_space(character: char) -> bool {
    let code = character as u32;
    ||| 0x09 <= code <= 0x0D
    ||| code == 0x20
    ||| code == 0x85
    ||| code == 0xA0
    ||| code == 0x1680
    ||| 0x2000 <= code <= 0x200A
    ||| code == 0x2028
    ||| code == 0x2029
    ||| code == 0x202F
    ||| code == 0x205F
    ||| code == 0x3000
}

fn is_white_space(character: char) -> (yes: bool)
    ensures
        yes == white_space(character),
{
    let code: u32 = character as u32;
    (0x09 <= code && code <= 0x0D) || code == 0x20 || code == 0x85 || code == 0xA0 || code
        == 0x1680 || (0x2000 <= code && code <= 0x200A) || code == 0x2028 || code == 0x2029 || code
        == 0x202F || code == 0x205F || code == 0x3000
}

/// `text` without its leading whitespace.
pub open spec fn stripped_start(text: Seq<char>) -> Seq<char>
    decreases text.len(),
{
    if text.len() > 0 && white_space(text[0]) {
        stripped_start(text.drop_first())
    } else {
        text
    }
}

/// `text` without its trailing whitespace.
pub open spec fn stripped_end(text: Seq<char>) -> Seq<char>
    decreases text.len(),
{
    if text.len() > 0 && white_space(text.last()) {
        stripped_end(text.drop_last())
    } else {
        text
    }
}

/// `text` without the whitespace around it.
pub open spec fn stripped(text: Seq<char>) -> Seq<char> {
    stripped_end(stripped_start(text))
}

/// `text` without the whitespace around it.
pub fn strip(text: &[char]) -> (rest: &[char])
    ensures
        rest@ == stripped(text@),
{
    let mut start: usize = 0;
    assert(text@.subrange(0, text@.len() as int) =~= text@);
    while start < text.len() && is_white_space(text[start])
        invariant
            start <= text@.len(),
            stripped_start(text@) == stripped_start(
                text@.subrange(start as int, text@.len() as int),
            ),
        decreases text@.len() - start,
    {
        proof {
            assert(text@.subrange(start as int, text@.len() as int).drop_first() =~= text@.subrange(
                start + 1,
                text@.len() as int,
            ));
        }
        start += 1;
    }
    let rest: &[char] = &text[start..text.len()];
    proof {
        if rest@.len() > 0 {
            assert(rest@[0] == text@[start as int]);
        }
    }
    let mut end: usize = rest.len();
    assert(rest@.subrange(0, rest@.len() as int) =~= rest@);
    while end > 0 && is_white_space(rest[end - 1])
        invariant
            end <= rest@.len(),
            stripped_end(rest@) == stripped_end(rest@.subrange(0, end as int)),
        decreases end,
    {
        proof {
            assert(rest@.subrange(0, end as int).drop_last() =~= rest@.subrange(0, end - 1));
        }
        end -= 1;
    }
    &rest[0..end]
}

/// Whether `character` is an ASCII digit.
pub open spec fn ascii_digit(character: char) -> bool {
    '0' <= character <= '9'
}

/// How many ASCII digits `text` begins with.
pub open spec fn digits_len(text: Seq<char>, from: int) -> int
    decreases text.len() - from,
{
    if from < 0 || from >= text.len() || !ascii_digit(text[from]) {
        0
    } else {
        1 + digits_len(text, from + 1)
    }
}

/// The number the first `count` characters spell in decimal.
pub open spec fn digits_value(text: Seq<char>, count: int) -> int
    decreases count,
{
    if count <= 0 {
        0
    } else {
        digits_value(text, count - 1) * 10 + (text[count - 1] as int - 0x30)
    }
}

/// An ASCII letter in upper case, and every other character as it is.
pub open spec fn ascii_upper(character: char) -> char {
    if 'a' <= character <= 'z' {
        (character as u8 - 0x20) as char
    } else {
        character
    }
}

fn to_ascii_upper(character: char) -> (upper: char)
    ensures
        upper == ascii_upper(character),
{
    if 'a' <= character && character <= 'z' {
        (character as u8 - 0x20) as char
    } else {
        character
    }
}

/// `text` with its ASCII letters in upper case.
pub open spec fn uppercase(text: Seq<char>) -> Seq<char> {
    text.map_values(|character: char| ascii_upper(character))
}

/// `text` with its ASCII letters in upper case.
pub fn to_uppercase(text: &[char]) -> (upper: String)
    ensures
        upper@ == uppercase(text@),
{
    let mut upper = String::new();
    let mut index: usize = 0;
    while index < text.len()
        invariant
            index <= text@.len(),
            upper@ == uppercase(text@.take(index as int)),
        decreases text@.len() - index,
    {
        upper.push(to_ascii_upper(text[index]));
        index += 1;
        assert(upper@ =~= uppercase(text@.take(index as int)));
    }
    assert(text@.take(text@.len() as int) =~= text@);
    upper
}

/// How many bytes one of a unit is: a bare letter or a `B` suffix is decimal, an `i` is binary,
/// and case does not matter.
pub open spec fn unit_scale(unit: Seq<char>) -> Option<int> {
    let upper = uppercase(unit);
    if upper == ""@ || upper == "B"@ {
        Some(1)
    } else if upper == "K"@ || upper == "KB"@ {
        Some(1_000)
    } else if upper == "KI"@ || upper == "KIB"@ {
        Some(0x400)
    } else if upper == "M"@ || upper == "MB"@ {
        Some(1_000_000)
    } else if upper == "MI"@ || upper == "MIB"@ {
        Some(0x10_0000)
    } else if upper == "G"@ || upper == "GB"@ {
        Some(1_000_000_000)
    } else if upper == "GI"@ || upper == "GIB"@ {
        Some(0x4000_0000)
    } else if upper == "T"@ || upper == "TB"@ {
        Some(1_000_000_000_000)
    } else if upper == "TI"@ || upper == "TIB"@ {
        Some(0x100_0000_0000)
    } else {
        None
    }
}

fn is_unit(upper: &String, unit: &str) -> (same: bool)
    ensures
        same == (upper@ == unit@),
{
    crate::text::same_text(upper.as_str(), unit)
}

fn parse_unit(unit: &[char]) -> (scale: Option<u64>)
    ensures
        match scale {
            Some(scale) => unit_scale(unit@) == Some(scale as int) && 1 <= scale
                <= 1_099_511_627_776,
            None => unit_scale(unit@) is None,
        },
{
    let upper = to_uppercase(unit);
    if is_unit(&upper, "") || is_unit(&upper, "B") {
        Some(1)
    } else if is_unit(&upper, "K") || is_unit(&upper, "KB") {
        Some(1_000)
    } else if is_unit(&upper, "KI") || is_unit(&upper, "KIB") {
        Some(0x400)
    } else if is_unit(&upper, "M") || is_unit(&upper, "MB") {
        Some(1_000_000)
    } else if is_unit(&upper, "MI") || is_unit(&upper, "MIB") {
        Some(0x10_0000)
    } else if is_unit(&upper, "G") || is_unit(&upper, "GB") {
        Some(1_000_000_000)
    } else if is_unit(&upper, "GI") || is_unit(&upper, "GIB") {
        Some(0x4000_0000)
    } else if is_unit(&upper, "T") || is_unit(&upper, "TB") {
        Some(1_000_000_000_000)
    } else if is_unit(&upper, "TI") || is_unit(&upper, "TIB") {
        Some(0x100_0000_0000)
    } else {
        None
    }
}

/// The byte budget a text spells, or what it is answered.
pub open spec fn read_size(value: Seq<char>) -> Result<int, Seq<char>> {
    let text = stripped(value);
    let count = digits_len(text, 0);
    let unit = stripped(text.subrange(count, text.len() as int));
    match unit_scale(unit) {
        None => Err(
            "`"@ + unit
                + "` is not a size suffix; use K, M, G, T for powers of 1000 or Ki, Mi, Gi, Ti for powers of 1024"@,
        ),
        Some(scale) => if count == 0 {
            Err("`"@ + text + "` is not a number"@)
        } else if digits_value(text, count) * scale > usize::MAX {
            Err("`"@ + text + "` is larger than this platform can address"@)
        } else if digits_value(text, count) == 0 {
            Err("must be at least 1"@)
        } else {
            Ok(digits_value(text, count) * scale)
        },
    }
}

fn too_large(text: &[char]) -> (message: String)
    ensures
        message@ == "`"@ + text@ + "` is larger than this platform can address"@,
{
    let mut message = String::from_str("`");
    push_chars(&mut message, text);
    message.append("` is larger than this platform can address");
    message
}

proof fn lemma_digits(text: Seq<char>, from: int)
    requires
        0 <= from <= text.len(),
    ensures
        0 <= digits_len(text, from) <= text.len() - from,
        forall|at: int| from <= at < from + digits_len(text, from) ==> ascii_digit(text[at]),
    decreases text.len() - from,
{
    if from < text.len() && ascii_digit(text[from]) {
        lemma_digits(text, from + 1);
    }
}

proof fn lemma_value_grows(text: Seq<char>, short: int, long: int)
    requires
        0 <= short <= long <= text.len(),
        forall|at: int| 0 <= at < long ==> ascii_digit(text[at]),
    ensures
        0 <= digits_value(text, short) <= digits_value(text, long),
    decreases long,
{
    if short < long {
        lemma_value_grows(text, short, long - 1);
    } else if short > 0 {
        lemma_value_grows(text, short - 1, short - 1);
    }
}

/// Parse a byte budget: bare digits count bytes, a bare letter or a `B` suffix is decimal (`K` is
/// 1000), and an `i` is binary (`Ki` is 1024). Matching is case-insensitive, so `10mb`, `10MB` and
/// `10Mb` agree.
///
/// Overflow is reported rather than saturated: silently clamping would look like it worked.
pub fn parse_size(value: &str) -> (parsed: Result<usize, String>)
    ensures
        match (read_size(value@), parsed) {
            (Ok(size), Ok(parsed)) => parsed == size && size > 0,
            (Err(expected), Err(message)) => message@ == expected,
            _ => false,
        },
{
    let all = chars_of(value);
    let text: &[char] = strip(all.as_slice());
    let mut count: usize = 0;
    while count < text.len() && '0' <= text[count] && text[count] <= '9'
        invariant
            count <= text@.len(),
            digits_len(text@, 0) == count + digits_len(text@, count as int),
        decreases text@.len() - count,
    {
        count += 1;
    }
    proof {
        lemma_digits(text@, 0);
    }
    let unit: &[char] = strip(&text[count..text.len()]);
    let scale: u64 = match parse_unit(unit) {
        Some(scale) => scale,
        None => {
            let mut message = String::from_str("`");
            push_chars(&mut message, unit);
            message.append(
                "` is not a size suffix; use K, M, G, T for powers of 1000 or Ki, Mi, Gi, Ti for powers of 1024",
            );
            return Err(message);
        },
    };
    if count == 0 {
        let mut message = String::from_str("`");
        push_chars(&mut message, text);
        message.append("` is not a number");
        return Err(message);
    }
    let mut number: u128 = 0;
    let mut index: usize = 0;
    while index < count
        invariant
            index <= count <= text@.len(),
            text@ == stripped(value@),
            count == digits_len(text@, 0),
            forall|at: int| 0 <= at < count ==> ascii_digit(text@[at]),
            number == digits_value(text@, index as int),
            number <= usize::MAX,
            1 <= scale,
            unit_scale(stripped(text@.subrange(count as int, text@.len() as int))) == Some(
                scale as int,
            ),
        decreases count - index,
    {
        assert(ascii_digit(text@[index as int]));
        number = number * 10 + (text[index] as u32 - 0x30) as u128;
        index += 1;
        if number > usize::MAX as u128 {
            proof {
                lemma_value_grows(text@, index as int, count as int);
                let whole = digits_value(text@, count as int);
                assert(whole * scale >= whole) by (nonlinear_arith)
                    requires
                        whole >= 0,
                        scale >= 1,
                ;
            }
            return Err(too_large(text));
        }
    }
    assert(number * scale <= 0xFFFF_FFFF_FFFF_FFFF * 1_099_511_627_776) by (nonlinear_arith)
        requires
            0 <= number <= 0xFFFF_FFFF_FFFF_FFFF,
            0 <= scale <= 1_099_511_627_776,
    ;
    let size: u128 = number * scale as u128;
    if size > usize::MAX as u128 {
        return Err(too_large(text));
    }
    if number == 0 {
        return Err(String::from_str("must be at least 1"));
    }
    assert(size > 0) by (nonlinear_arith)
        requires
            size == number * scale,
            number > 0,
            scale >= 1,
    ;
    Ok(size as usize)
}

/// A byte budget reads the same in either case.
pub proof fn a_size_unit_ignores_case(unit: Seq<char>)
    ensures
        unit_scale(uppercase(unit)) == unit_scale(unit),
{
    assert(uppercase(uppercase(unit)) =~= uppercase(unit));
}

proof fn lemma_digits_of(value: nat, unit: Seq<char>, count: int)
    requires
        0 <= count <= decimal(value).len(),
    ensures
        digits_value(decimal_chars(value) + unit, count) == worth_of(decimal(value).take(count)),
    decreases count,
{
    lemma_decimal_chars(value);
    if count > 0 {
        lemma_digits_of(value, unit, count - 1);
        let front = decimal(value).take(count);
        assert(front.drop_last() =~= decimal(value).take(count - 1));
        assert((decimal_chars(value) + unit)[count - 1] == decimal_chars(value)[count - 1]);
    }
}

proof fn lemma_digits_run(text: Seq<char>, from: int, end: int)
    requires
        0 <= from <= end <= text.len(),
        forall|i: int| from <= i < end ==> '0' <= #[trigger] text[i] <= '9',
        end < text.len() ==> !('0' <= text[end] <= '9'),
    ensures
        digits_len(text, from) == end - from,
    decreases end - from,
{
    if from < end {
        lemma_digits_run(text, from + 1, end);
    }
}

/// A size is its number times its unit: powers of 1000 behind `K`, `M`, `G` and `T`, and powers of
/// 1024 where an `i` follows. One that no pointer can reach is refused.
pub proof fn a_size_is_a_number_of_units(value: nat, unit: Seq<char>)
    requires
        unit == ""@ || unit == "K"@ || unit == "Ki"@ || unit == "M"@ || unit == "Mi"@ || unit
            == "G"@ || unit == "Gi"@ || unit == "T"@ || unit == "Ti"@,
        value > 0,
    ensures
        ({
            let scale: int = if unit == "K"@ {
                1000
            } else if unit == "Ki"@ {
                1024
            } else if unit == "M"@ {
                1000int * 1000int
            } else if unit == "Mi"@ {
                1024int * 1024int
            } else if unit == "G"@ {
                1000int * 1000int * 1000int
            } else if unit == "Gi"@ {
                1024int * 1024int * 1024int
            } else if unit == "T"@ {
                1000int * 1000int * 1000int * 1000int
            } else if unit == "Ti"@ {
                1024int * 1024int * 1024int * 1024int
            } else {
                1
            };
            if value * scale <= usize::MAX {
                read_size(decimal_chars(value) + unit) == Ok::<int, Seq<char>>(value * scale)
            } else {
                read_size(decimal_chars(value) + unit) is Err
            }
        }),
{
    reveal_strlit("");
    reveal_strlit("B");
    reveal_strlit("K");
    reveal_strlit("KB");
    reveal_strlit("Ki");
    reveal_strlit("KI");
    reveal_strlit("KIB");
    reveal_strlit("M");
    reveal_strlit("MB");
    reveal_strlit("Mi");
    reveal_strlit("MI");
    reveal_strlit("MIB");
    reveal_strlit("G");
    reveal_strlit("GB");
    reveal_strlit("Gi");
    reveal_strlit("GI");
    reveal_strlit("GIB");
    reveal_strlit("T");
    reveal_strlit("TB");
    reveal_strlit("Ti");
    reveal_strlit("TI");
    reveal_strlit("TIB");
    let digits = decimal_chars(value);
    let text = digits + unit;
    a_number_is_written_in_tens(value);
    lemma_decimal_chars(value);
    let count = digits.len() as int;
    assert(text[0] == digits[0]);
    assert(unit.len() == 0 ==> text.last() == digits[count - 1]);
    assert(unit.len() > 0 ==> text.last() == unit.last());
    assert(stripped(text) == text);
    lemma_digits_run(text, 0, count);
    assert(text.subrange(count, text.len() as int) =~= unit);
    assert(stripped(unit) == unit);
    lemma_digits_of(value, unit, count);
    assert(decimal(value).take(count) =~= decimal(value));
    let upper = uppercase(unit);
    assert(upper.len() == unit.len());
    if unit == ""@ {
        assert(upper =~= ""@);
    } else if unit == "K"@ {
        assert(upper =~= "K"@);
    } else if unit == "Ki"@ {
        assert(upper =~= "KI"@);
    } else if unit == "M"@ {
        assert(upper =~= "M"@);
    } else if unit == "Mi"@ {
        assert(upper =~= "MI"@);
    } else if unit == "G"@ {
        assert(upper =~= "G"@);
    } else if unit == "Gi"@ {
        assert(upper =~= "GI"@);
    } else if unit == "T"@ {
        assert(upper =~= "T"@);
    } else {
        assert(upper =~= "TI"@);
    }
    let first = upper[0];
    assert(upper.len() > 0 ==> first == upper[0]);
    assert("KI"@[0] == 'K' && "KB"@[0] == 'K' && "K"@[0] == 'K');
    assert("MI"@[0] == 'M' && "MB"@[0] == 'M' && "M"@[0] == 'M');
    assert("GI"@[0] == 'G' && "GB"@[0] == 'G' && "G"@[0] == 'G');
    assert("TI"@[0] == 'T' && "TB"@[0] == 'T' && "T"@[0] == 'T' && "B"@[0] == 'B');
    assert("KI"@[1] == 'I' && "KB"@[1] == 'B' && "MI"@[1] == 'I' && "MB"@[1] == 'B');
    assert("GI"@[1] == 'I' && "GB"@[1] == 'B' && "TI"@[1] == 'I' && "TB"@[1] == 'B');
}

/// Whether a character leaves a blank: a space or a control that moves to another place, the next
/// line, a space that does not break, or one of the spaces of typography and of other scripts.
pub open spec fn leaves_a_blank(character: char) -> bool {
    let code = character as u32;
    ||| character == ' ' || character == '\t' || character == '\n' || character == '\r'
    ||| code == 0x0B || code == 0x0C || code == 0x85 || code == 0xA0 || code == 0x1680
    ||| 0x2000 <= code < 0x200B || code == 0x2028 || code == 0x2029 || code == 0x202F
    ||| code == 0x205F || code == 0x3000
}

proof fn lemma_blank(character: char)
    ensures
        white_space(character) == leaves_a_blank(character),
{
}

proof fn lemma_blank_front(before: Seq<char>, text: Seq<char>)
    requires
        forall|i: int| 0 <= i < before.len() ==> leaves_a_blank(#[trigger] before[i]),
    ensures
        stripped_start(before + text) == stripped_start(text),
    decreases before.len(),
{
    let whole = before + text;
    if before.len() > 0 {
        let rest = before.drop_first();
        assert forall|i: int| 0 <= i < rest.len() implies leaves_a_blank(#[trigger] rest[i]) by {
            assert(rest[i] == before[i + 1]);
        }
        lemma_blank_front(rest, text);
        assert(whole[0] == before[0]);
        assert(whole.drop_first() =~= rest + text);
    } else {
        assert(whole =~= text);
    }
}

proof fn lemma_blank_end(text: Seq<char>, after: Seq<char>)
    requires
        forall|i: int| 0 <= i < after.len() ==> leaves_a_blank(#[trigger] after[i]),
    ensures
        stripped_end(text + after) == stripped_end(text),
    decreases after.len(),
{
    let whole = text + after;
    if after.len() > 0 {
        let rest = after.drop_last();
        assert forall|i: int| 0 <= i < rest.len() implies leaves_a_blank(#[trigger] rest[i]) by {
            assert(rest[i] == after[i]);
        }
        lemma_blank_end(text, rest);
        assert(after[after.len() - 1] == whole.last());
        assert(whole.drop_last() =~= text + rest);
    } else {
        assert(whole =~= text);
    }
}

/// Blanks around a text are stripped, all of them, and nothing else is.
pub proof fn blanks_around_a_text_are_stripped(
    before: Seq<char>,
    text: Seq<char>,
    after: Seq<char>,
)
    requires
        forall|i: int| 0 <= i < before.len() ==> leaves_a_blank(#[trigger] before[i]),
        forall|i: int| 0 <= i < after.len() ==> leaves_a_blank(#[trigger] after[i]),
        text.len() > 0,
        !leaves_a_blank(text[0]),
        !leaves_a_blank(text.last()),
    ensures
        stripped(before + text + after) == text,
        stripped(before).len() == 0,
{
    assert(before + text + after =~= before + (text + after));
    lemma_blank_front(before, text + after);
    assert((text + after)[0] == text[0]);
    lemma_blank(text[0]);
    lemma_blank(text.last());
    assert(stripped_start(text + after) == text + after);
    lemma_blank_end(text, after);
    lemma_blank_front(before, Seq::empty());
    assert(before + Seq::<char>::empty() =~= before);
}

} // verus!
