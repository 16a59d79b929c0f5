//! Content hashes and the names they are printed as.

use vstd::arithmetic::div_mod::{
    lemma_div_denominator, lemma_div_is_ordered, lemma_div_multiples_vanish,
    lemma_fundamental_div_mod,
};
use vstd::arithmetic::power2::{
    lemma2_to64, lemma2_to64_rest, lemma_pow2_adds, lemma_pow2_pos, lemma_pow2_strictly_increases,
    lemma_pow2_unfold, pow2,
};
use vstd::bits::{lemma_u64_shl_is_mul, lemma_u64_shr_is_div};
use vstd::prelude::*;
use vstd::string::StringExecFns;
use vstd::utf8::{encode_utf8, is_ascii_chars, is_ascii_chars_encode_utf8};

use crate::bytes::{decimal, decimal_chars, decimal_text, lemma_ascii_bytes, lemma_decimal_chars};
use crate::numbers::a_written_number_reads_back;
use crate::sz::{absorb, absorbed, digest, hash, hash_of, hasher};

verus! {

/// How many characters render a whole 64-bit hash. Thirteen carry five bits each, which is one
/// more bit than a `u64` holds; the spare one is a zero at the end.
pub const HASH_CHARS: usize = 13;

/// The shortest prefix a caller may name a line by. Four characters is twenty bits, which stays
/// comfortable within one file; shorter is a typo rather than an abbreviation.
pub const HASH_CHARS_MIN: usize = 4;

/// How many characters of a line hash print unless `--hash-width` says otherwise.
pub const DEFAULT_HASH_WIDTH: usize = 8;

/// Crockford's base32: the digits and the lowercase letters, less `i`, `l`, `o` and `u`, which
/// are the four a reader confuses with `1`, `1`, `0` and `v`.
pub const HASH_ALPHABET: [u8; 32] = [
    0x30, 0x31, 0x32, 0x33, 0x34, 0x35, 0x36, 0x37, 0x38, 0x39, 0x61, 0x62, 0x63, 0x64, 0x65, 0x66,
    0x67, 0x68, 0x6A, 0x6B, 0x6D, 0x6E, 0x70, 0x71, 0x72, 0x73, 0x74, 0x76, 0x77, 0x78, 0x79, 0x7A,
];

/// Hash the bytes a run read or wrote.
///
/// StringZilla's 64-bit hash under seed zero: the same bytes hash alike on every platform, in one
/// shot or incrementally. It answers "did this file change", not "did somebody change it".
pub fn content_hash(data: &[u8]) -> (value: u64)
    ensures
        value == hash_of(data@),
{
    hash(data)
}

/// The number the first `count` characters of a name stand for, in base 32.
pub open spec fn leading(hash: u64, count: int) -> int {
    (2 * hash) / (pow2((5 * (13 - count)) as nat) as int)
}

/// The five bits the character at `index` of a name carries, most significant first. Sixty-five
/// bits are rendered, a zero appended to the hash's own sixty-four.
pub open spec fn hash_digit(hash: u64, index: int) -> int {
    leading(hash, index + 1) % 32
}

/// The width a name renders at: the one asked for, brought into range.
pub open spec fn name_width(width: int) -> int {
    if width < 1 {
        1
    } else if width > 13 {
        13
    } else {
        width
    }
}

/// The leading `width` characters that name `hash`.
pub open spec fn hash_name(hash: u64, width: int) -> Seq<char> {
    Seq::new(
        name_width(width) as nat,
        |index: int| HASH_ALPHABET@[hash_digit(hash, index)] as char,
    )
}

proof fn lemma_leading_step(hash: u64, count: int)
    requires
        0 <= count < 13,
    ensures
        leading(hash, count + 1) == leading(hash, count) * 32 + hash_digit(hash, count),
        0 <= hash_digit(hash, count) < 32,
        leading(hash, count) == leading(hash, count + 1) / 32,
{
    let unit = pow2((5 * (12 - count)) as nat) as int;
    lemma_pow2_pos((5 * (12 - count)) as nat);
    lemma2_to64();
    lemma_pow2_adds((5 * (12 - count)) as nat, 5);
    assert(5 * (13 - count) == 5 * (12 - count) + 5);
    assert(pow2((5 * (13 - count)) as nat) == unit * 32);
    lemma_div_denominator((2 * hash) as int, unit, 32);
    lemma_fundamental_div_mod(leading(hash, count + 1), 32);
}

proof fn lemma_leading_bounds(hash: u64)
    ensures
        leading(hash, 0) == 0,
        leading(hash, 13) == 2 * hash,
{
    lemma2_to64();
    lemma2_to64_rest();
    lemma_pow2_adds(64, 1);
    assert(pow2(65) == 0x2_0000_0000_0000_0000);
    assert((2 * hash) / 0x2_0000_0000_0000_0000int == 0);
    assert((2 * hash) / 1int == 2 * hash);
}

/// Render the leading `width` characters of `hash`, most significant first.
///
/// Truncation rather than folding, so a short name is always a prefix of the long one.
pub fn format_hash(hash: u64, width: usize) -> (name: String)
    ensures
        name@ == hash_name(hash, width as int),
{
    let width: usize = if width < 1 {
        1
    } else if width > HASH_CHARS {
        HASH_CHARS
    } else {
        width
    };
    let mut symbols: Vec<u8> = vec![0x30u8; 13];
    let mut rest: u128 = (hash as u128) * 2;
    let mut index: usize = HASH_CHARS;
    proof {
        lemma_leading_bounds(hash);
    }
    while index > 0
        invariant
            index <= 13,
            symbols@.len() == 13,
            rest == leading(hash, index as int),
            forall|at: int|
                index <= at < 13 ==> #[trigger] symbols@[at] == HASH_ALPHABET@[hash_digit(
                    hash,
                    at,
                )],
        decreases index,
    {
        proof {
            lemma_leading_step(hash, index - 1);
        }
        let digit: usize = (rest % 32) as usize;
        symbols[index - 1] = HASH_ALPHABET[digit];
        rest = rest / 32;
        index -= 1;
    }
    let mut name = String::new();
    let mut at: usize = 0;
    while at < width
        invariant
            at <= width <= 13,
            symbols@.len() == 13,
            name@.len() == at,
            forall|i: int|
                0 <= i < 13 ==> #[trigger] symbols@[i] == HASH_ALPHABET@[hash_digit(hash, i)],
            forall|i: int|
                0 <= i < at ==> #[trigger] name@[i] == HASH_ALPHABET@[hash_digit(hash, i)] as char,
        decreases width - at,
    {
        name.push(symbols[at] as char);
        at += 1;
    }
    assert(name@ =~= hash_name(hash, width as int));
    name
}

/// A short name is the beginning of every longer one of the same hash.
pub proof fn a_short_name_begins_the_long_one(hash: u64, short: int, long: int)
    requires
        1 <= short <= long <= 13,
    ensures
        hash_name(hash, short) == hash_name(hash, long).take(short),
{
    assert(hash_name(hash, short) =~= hash_name(hash, long).take(short));
}

/// An ASCII letter in lower case, and every other byte as it is.
pub open spec fn ascii_lower(byte: u8) -> u8 {
    if 0x41 <= byte <= 0x5A {
        (byte + 0x20) as u8
    } else {
        byte
    }
}

/// The five bits `byte` stands for in a name, read in either case, or nothing where it is not in
/// the alphabet.
pub open spec fn symbol_digit(byte: u8, from: int) -> Option<int>
    decreases 32 - from,
{
    if from < 0 || from >= 32 {
        None
    } else if HASH_ALPHABET@[from] == ascii_lower(byte) {
        Some(from)
    } else {
        symbol_digit(byte, from + 1)
    }
}

fn parse_symbol(byte: u8) -> (digit: Option<u8>)
    ensures
        match digit {
            Some(digit) => digit < 32 && symbol_digit(byte, 0) == Some(digit as int)
                && HASH_ALPHABET@[digit as int] == ascii_lower(byte),
            None => symbol_digit(byte, 0) is None,
        },
{
    let lowered: u8 = if 0x41 <= byte && byte <= 0x5A {
        byte + 0x20
    } else {
        byte
    };
    let mut index: usize = 0;
    while index < 32
        invariant
            index <= 32,
            lowered == ascii_lower(byte),
            symbol_digit(byte, 0) == symbol_digit(byte, index as int),
        decreases 32 - index,
    {
        if HASH_ALPHABET[index] == lowered {
            return Some(index as u8);
        }
        index += 1;
    }
    None
}

/// Every symbol of the alphabet stands for its own place in it, and for no other.
proof fn lemma_alphabet(digit: int)
    requires
        0 <= digit < 32,
    ensures
        symbol_digit(HASH_ALPHABET@[digit], 0) == Some(digit),
        ascii_lower(HASH_ALPHABET@[digit]) == HASH_ALPHABET@[digit],
        HASH_ALPHABET@[digit] < 0x80,
{
    reveal_with_fuel(symbol_digit, 33);
}

/// Why a name cannot be one.
pub ghost enum NameFault {
    /// The byte at this index is not in the alphabet.
    Foreign(int),
    /// The byte at this index closes a full-width name with an odd symbol.
    Odd(int),
}

/// The first thing wrong with `name` at or behind `from`.
pub open spec fn name_fault(name: Seq<u8>, from: int) -> Option<NameFault>
    decreases name.len() - from,
{
    if from < 0 || from >= name.len() {
        None
    } else {
        match symbol_digit(name[from], 0) {
            None => Some(NameFault::Foreign(from)),
            Some(digit) => if from == 12 && digit % 2 == 1 {
                Some(NameFault::Odd(from))
            } else {
                name_fault(name, from + 1)
            },
        }
    }
}

/// The number the first `count` symbols of `name` stand for, in base 32.
pub open spec fn name_number(name: Seq<u8>, count: int) -> int
    decreases count,
{
    if count <= 0 {
        0
    } else {
        name_number(name, count - 1) * 32 + symbol_digit(name[count - 1], 0).unwrap_or(0)
    }
}

/// How many of a hash's low bits a name of `count` characters leaves open.
pub open spec fn open_bits(count: int) -> int {
    if count >= 13 {
        0
    } else {
        64 - 5 * count
    }
}

/// The bits a name of `count` characters pins: the leading five for each.
pub open spec fn name_mask(count: int) -> u64 {
    0xFFFF_FFFF_FFFF_FFFFu64 << (open_bits(count) as u64)
}

/// The pinned bits' value.
pub open spec fn name_value(name: Seq<u8>) -> int {
    if name.len() >= 13 {
        name_number(name, 13) / 2
    } else {
        name_number(name, name.len() as int) * pow2(open_bits(name.len() as int) as nat)
    }
}

/// What a refused name is answered.
pub open spec fn name_refusal(name: Seq<char>) -> Option<Seq<char>> {
    let symbols = encode_utf8(name);
    if symbols.len() < 4 || symbols.len() > 13 {
        Some(
            "`"@ + name + "` is "@ + decimal_chars(symbols.len())
                + " characters; a name is 4 to 13"@,
        )
    } else {
        match name_fault(symbols, 0) {
            None => None,
            Some(NameFault::Foreign(at)) => Some(
                "`"@ + name + "` is not a name: `"@ + seq![symbols[at] as char]
                    + "` is not in the alphabet, which drops i, l, o and u to keep names legible"@,
            ),
            Some(NameFault::Odd(at)) => Some(
                "no name ends with `"@ + seq![symbols[at] as char]
                    + "`: the last character carries four bits against a padding zero, so it is always one of 02468acegjmprtwy"@,
            ),
        }
    }
}

/// The bits a name constrains: a hash renders beginning with this name exactly when
/// `hash & mask == value`. A file's token is the case where every bit is pinned.
#[derive(Clone, Copy, PartialEq, Eq, Structural, Debug)]
pub struct HashPrefix {
    pub value: u64,
    pub mask: u64,
}

impl HashPrefix {
    /// Whether this is what `name` pins.
    pub open spec fn pins(&self, name: Seq<u8>) -> bool {
        &&& self.value == name_value(name)
        &&& self.mask == name_mask(name.len() as int)
    }

    pub fn matches(&self, hash: u64) -> (matched: bool)
        ensures
            matched == (hash & self.mask == self.value),
    {
        hash & self.mask == self.value
    }
}

proof fn lemma_name_number_bounds(name: Seq<u8>, count: int)
    requires
        0 <= count <= 13,
    ensures
        0 <= name_number(name, count) < pow2((5 * count) as nat),
    decreases count,
{
    lemma2_to64();
    if count > 0 {
        lemma_name_number_bounds(name, count - 1);
        lemma_pow2_adds((5 * (count - 1)) as nat, 5);
        assert(5 * (count - 1) + 5 == 5 * count);
        let byte = name[count - 1];
        lemma_symbol_digit_bounds(byte, 0);
    }
}

proof fn lemma_symbol_digit_bounds(byte: u8, from: int)
    requires
        0 <= from <= 32,
    ensures
        symbol_digit(byte, from) matches Some(digit) ==> from <= digit < 32
            && HASH_ALPHABET@[digit] == ascii_lower(byte),
    decreases 32 - from,
{
    if from < 32 && HASH_ALPHABET@[from] != ascii_lower(byte) {
        lemma_symbol_digit_bounds(byte, from + 1);
    }
}

/// The answer to a name that holds a symbol no name holds.
fn foreign_symbol(name: &str, byte: u8) -> (message: String)
    ensures
        message@ == "`"@ + name@ + "` is not a name: `"@ + seq![byte as char]
            + "` is not in the alphabet, which drops i, l, o and u to keep names legible"@,
{
    let mut message = String::new();
    message.append("`");
    message.append(name);
    message.append("` is not a name: `");
    message.push(byte as char);
    message.append("` is not in the alphabet, which drops i, l, o and u to keep names legible");
    message
}

/// The answer to a full-width name that ends with a symbol none of them ends with.
fn odd_symbol(byte: u8) -> (message: String)
    ensures
        message@ == "no name ends with `"@ + seq![byte as char]
            + "`: the last character carries four bits against a padding zero, so it is always one of 02468acegjmprtwy"@,
{
    let mut message = String::new();
    message.append("no name ends with `");
    message.push(byte as char);
    message.append(
        "`: the last character carries four bits against a padding zero, so it is always one of 02468acegjmprtwy",
    );
    message
}

/// Read a name's symbols in base 32, or find the first that is wrong and whether it is for being odd.
fn read_name(symbols: &[u8]) -> (read: Result<u128, (usize, bool)>)
    requires
        symbols@.len() <= 13,
    ensures
        match read {
            Ok(number) => {
                &&& name_fault(symbols@, 0) is None
                &&& number == name_number(symbols@, symbols@.len() as int)
                &&& symbols@.len() == 13 ==> number % 2 == 0
            },
            Err((at, odd)) => {
                &&& at < symbols@.len()
                &&& name_fault(symbols@, 0) == Some(
                    if odd {
                        NameFault::Odd(at as int)
                    } else {
                        NameFault::Foreign(at as int)
                    },
                )
            },
        },
{
    let mut number: u128 = 0;
    let mut index: usize = 0;
    while index < symbols.len()
        invariant
            index <= symbols@.len() <= 13,
            number == name_number(symbols@, index as int),
            name_fault(symbols@, 0) == name_fault(symbols@, index as int),
            index == 13 ==> number % 2 == 0,
        decreases symbols@.len() - index,
    {
        match parse_symbol(symbols[index]) {
            None => {
                return Err((index, false));
            },
            Some(digit) => {
                if index == HASH_CHARS - 1 && digit % 2 == 1 {
                    return Err((index, true));
                }
                proof {
                    lemma_name_number_bounds(symbols@, index as int);
                    lemma_bound_65(5 * index);
                }
                number = number * 32 + digit as u128;
                index += 1;
            },
        }
    }
    Ok(number)
}

/// Parse a name, as it is printed for a line or for a file: a full-width name pins a whole hash, a
/// shorter one pins its leading bits.
pub fn parse_hash_prefix(name: &str) -> (parsed: Result<HashPrefix, String>)
    ensures
        match parsed {
            Ok(prefix) => name_refusal(name@) is None && prefix.pins(encode_utf8(name@)),
            Err(message) => name_refusal(name@) == Some(message@),
        },
{
    let symbols: &[u8] = name.as_bytes();
    let count: usize = symbols.len();
    if count < HASH_CHARS_MIN || count > HASH_CHARS {
        let mut message = String::new();
        message.append("`");
        message.append(name);
        message.append("` is ");
        message.append(decimal_text(count as u64).as_str());
        message.append(" characters; a name is 4 to 13");
        return Err(message);
    }
    let number: u128 = match read_name(symbols) {
        Ok(number) => number,
        Err((at, true)) => {
            return Err(odd_symbol(symbols[at]));
        },
        Err((at, false)) => {
            return Err(foreign_symbol(name, symbols[at]));
        },
    };
    proof {
        lemma_name_number_bounds(symbols@, count as int);
    }
    let value: u64;
    let mask: u64;
    if count == HASH_CHARS {
        proof {
            lemma2_to64();
            lemma2_to64_rest();
            lemma_pow2_adds(64, 1);
        }
        value = (number / 2) as u64;
        mask = 0xFFFF_FFFF_FFFF_FFFF;
        assert(0xFFFF_FFFF_FFFF_FFFFu64 << 0u64 == 0xFFFF_FFFF_FFFF_FFFFu64) by (bit_vector);
    } else {
        let open: u64 = 64 - 5 * (count as u64);
        proof {
            lemma_scaled(number as int, count as int);
        }
        let unit: u64 = power_of_two(open);
        value = (number as u64) * unit;
        mask = 0xFFFF_FFFF_FFFF_FFFFu64 << open;
    }
    Ok(HashPrefix { value, mask })
}

proof fn lemma_bound_65(bits: int)
    requires
        0 <= bits <= 60,
    ensures
        pow2(bits as nat) <= 0x1000_0000_0000_0000,
{
    lemma2_to64();
    lemma2_to64_rest();
    if bits < 60 {
        lemma_pow2_strictly_increases(bits as nat, 60);
    }
}

/// A name's number, moved up to the bits it pins, fits the hash.
proof fn lemma_scaled(number: int, count: int)
    requires
        4 <= count <= 12,
        0 <= number < pow2((5 * count) as nat),
    ensures
        number * pow2((64 - 5 * count) as nat) <= u64::MAX,
        number <= u64::MAX,
{
    lemma2_to64_rest();
    lemma_bound_65(5 * count);
    lemma_pow2_adds((5 * count) as nat, (64 - 5 * count) as nat);
    assert(5 * count + (64 - 5 * count) == 64);
    let wide = pow2((5 * count) as nat) as int;
    let unit = pow2((64 - 5 * count) as nat) as int;
    lemma_pow2_pos((64 - 5 * count) as nat);
    assert(number * unit < wide * unit) by (nonlinear_arith)
        requires
            0 <= number < wide,
            unit > 0,
    ;
}

fn power_of_two(bits: u64) -> (power: u64)
    requires
        bits < 64,
    ensures
        power == pow2(bits as nat),
{
    let mut power: u64 = 1;
    let mut done: u64 = 0;
    proof {
        lemma2_to64();
        lemma2_to64_rest();
    }
    while done < bits
        invariant
            done <= bits < 64,
            power == pow2(done as nat),
        decreases bits - done,
    {
        proof {
            lemma_pow2_unfold((done + 1) as nat);
            if done < 63 {
                lemma_pow2_strictly_increases(done as nat, 63);
            }
            lemma2_to64_rest();
        }
        power = power * 2;
        done += 1;
    }
    power
}

/// Two names of one length stand for the same number exactly when they agree symbol by symbol.
proof fn lemma_numbers_agree(hash: u64, name: Seq<u8>, count: int)
    requires
        0 <= count <= 13,
        count <= name.len(),
        forall|i: int| 0 <= i < count ==> symbol_digit(#[trigger] name[i], 0) is Some,
    ensures
        leading(hash, count) == name_number(name, count) <==> (forall|i: int|
            0 <= i < count ==> symbol_digit(#[trigger] name[i], 0) == Some(hash_digit(hash, i))),
    decreases count,
{
    if count == 0 {
        lemma_leading_bounds(hash);
    } else {
        lemma_numbers_agree(hash, name, count - 1);
        lemma_leading_step(hash, count - 1);
        lemma_symbol_digit_bounds(name[count - 1], 0);
        let mine = symbol_digit(name[count - 1], 0)->0;
        let theirs = hash_digit(hash, count - 1);
        assert(0 <= mine < 32 && 0 <= theirs < 32);
    }
}

proof fn lemma_no_fault(name: Seq<u8>, from: int)
    requires
        0 <= from,
        name_fault(name, from) is None,
    ensures
        forall|i: int| from <= i < name.len() ==> symbol_digit(#[trigger] name[i], 0) is Some,
        from <= 12 < name.len() ==> symbol_digit(name[12], 0)->0 % 2 == 0,
    decreases name.len() - from,
{
    if from < name.len() {
        lemma_no_fault(name, from + 1);
    }
}

/// A name matches exactly the hashes that render beginning with it, read in either case: of every
/// name that parses and every hash.
pub proof fn a_name_matches_what_renders_beginning_with_it(
    name: Seq<char>,
    prefix: HashPrefix,
    hash: u64,
)
    requires
        name_refusal(name) is None,
        prefix.pins(encode_utf8(name)),
    ensures
        hash & prefix.mask == prefix.value <==> encode_utf8(name).map_values(
            |byte: u8| ascii_lower(byte) as char,
        ) == hash_name(hash, encode_utf8(name).len() as int),
{
    let symbols = encode_utf8(name);
    let count = symbols.len() as int;
    lemma_no_fault(symbols, 0);
    lemma_name_number_bounds(symbols, count);
    lemma_leading_bounds(hash);
    lemma2_to64();
    lemma2_to64_rest();
    let mask = prefix.mask;
    let value = prefix.value;
    if count == 13 {
        assert(0xFFFF_FFFF_FFFF_FFFFu64 << 0u64 == 0xFFFF_FFFF_FFFF_FFFFu64) by (bit_vector);
        assert(hash & 0xFFFF_FFFF_FFFF_FFFFu64 == hash) by (bit_vector);
        assert(name_number(symbols, 13) == name_number(symbols, 12) * 32 + symbol_digit(
            symbols[12],
            0,
        )->0);
        assert(name_number(symbols, 13) % 2 == 0);
    } else {
        let open = open_bits(count) as u64;
        let number = name_number(symbols, count) as u64;
        lemma_scaled(name_number(symbols, count), count);
        let unit = pow2(open as nat) as int;
        lemma_u64_shl_is_mul(number, open);
        lemma_u64_shr_is_div(hash, open);
        assert(number << open == value);
        assert(number <= 0xFFFF_FFFF_FFFF_FFFFu64 >> open) by {
            lemma_u64_shr_is_div(0xFFFF_FFFF_FFFF_FFFFu64, open);
            lemma_pow2_pos(open as nat);
            lemma_div_is_ordered(number * unit, 0xFFFF_FFFF_FFFF_FFFF, unit);
            lemma_div_multiples_vanish(number as int, unit);
            assert(number * unit == unit * number) by (nonlinear_arith);
        }
        assert((hash & (0xFFFF_FFFF_FFFF_FFFFu64 << open)) == (number << open) <==> (hash >> open)
            == number) by (bit_vector)
            requires
                open < 64,
                number <= 0xFFFF_FFFF_FFFF_FFFFu64 >> open,
        ;
        assert(leading(hash, count) == hash as int / unit) by {
            lemma_pow2_adds(open as nat, 1);
            assert(5 * (13 - count) == open + 1);
            lemma_pow2_pos(open as nat);
            lemma_div_denominator((2 * hash) as int, 2, unit);
            assert((2 * hash) as int / 2 == hash);
        }
    }
    lemma_numbers_agree(hash, symbols, count);
    let lowered = symbols.map_values(|byte: u8| ascii_lower(byte) as char);
    let rendered = hash_name(hash, count);
    assert forall|i: int| 0 <= i < count implies (symbol_digit(#[trigger] symbols[i], 0) == Some(
        hash_digit(hash, i),
    ) <==> lowered[i] == rendered[i]) by {
        lemma_symbol_digit_bounds(symbols[i], 0);
        lemma_leading_step(hash, i);
        lemma_alphabet(hash_digit(hash, i));
        let digit = symbol_digit(symbols[i], 0)->0;
        lemma_alphabet(digit);
        assert(HASH_ALPHABET@[digit] == ascii_lower(symbols[i]));
    }
    if forall|i: int|
        0 <= i < count ==> symbol_digit(#[trigger] symbols[i], 0) == Some(hash_digit(hash, i)) {
        assert(lowered =~= rendered);
    }
    if lowered == rendered {
        assert forall|i: int| 0 <= i < count implies symbol_digit(#[trigger] symbols[i], 0) == Some(
            hash_digit(hash, i),
        ) by {
            assert(lowered[i] == rendered[i]);
        }
    }
}

/// What a refused whole-file token is answered.
pub open spec fn token_refusal(value: Seq<char>) -> Option<Seq<char>> {
    if encode_utf8(value).len() != 13 {
        Some(
            "`"@ + value + "` is "@ + decimal_chars(encode_utf8(value).len())
                + " characters; a file's hash is 13, as `sz-find --fields file-hash` prints it"@,
        )
    } else {
        name_refusal(value)
    }
}

/// Parse a whole-file token: a name at full width. Anything shorter is refused rather than
/// zero-extended, so a truncated paste fails loudly instead of standing in for some other file.
pub fn parse_content_hash(value: &str) -> (parsed: Result<u64, String>)
    ensures
        match parsed {
            Ok(hash) => token_refusal(value@) is None && hash == name_value(encode_utf8(value@)),
            Err(message) => token_refusal(value@) == Some(message@),
        },
{
    let count: usize = value.as_bytes().len();
    if count != HASH_CHARS {
        let mut message = String::new();
        message.append("`");
        message.append(value);
        message.append("` is ");
        message.append(decimal_text(count as u64).as_str());
        message.append(
            " characters; a file's hash is 13, as `sz-find --fields file-hash` prints it",
        );
        return Err(message);
    }
    match parse_hash_prefix(value) {
        Ok(prefix) => Ok(prefix.value),
        Err(message) => Err(message),
    }
}

/// A hash rendered at full width reads back as itself.
pub proof fn a_full_name_reads_back(hash: u64)
    ensures
        token_refusal(hash_name(hash, 13)) is None,
        name_value(encode_utf8(hash_name(hash, 13))) == hash,
{
    let name = hash_name(hash, 13);
    assert forall|i: int| 0 <= i < 13 implies (name[i] as u32) < 0x80 by {
        lemma_leading_step(hash, i);
        lemma_alphabet(hash_digit(hash, i));
    }
    assert(is_ascii_chars(name));
    is_ascii_chars_encode_utf8(name);
    let symbols = encode_utf8(name);
    assert forall|i: int| 0 <= i < 13 implies symbols[i] == HASH_ALPHABET@[hash_digit(hash, i)] && symbol_digit(#[trigger] symbols[i], 0) == Some(hash_digit(hash, i)) by {
        lemma_leading_step(hash, i);
        lemma_alphabet(hash_digit(hash, i));
        assert(symbols[i] == name[i] as u8);
    }
    lemma_numbers_agree(hash, symbols, 13);
    lemma_leading_bounds(hash);
    assert(hash_digit(hash, 12) % 2 == 0);
    lemma_no_fault_from(symbols, 0);
}

proof fn lemma_no_fault_from(name: Seq<u8>, from: int)
    requires
        0 <= from,
        forall|i: int| from <= i < name.len() ==> symbol_digit(#[trigger] name[i], 0) is Some,
        from <= 12 < name.len() ==> symbol_digit(name[12], 0)->0 % 2 == 0,
    ensures
        name_fault(name, from) is None,
    decreases name.len() - from,
{
    if from < name.len() {
        lemma_no_fault_from(name, from + 1);
    }
}

/// What a refused hash width is answered.
pub open spec fn width_refusal(value: Seq<char>) -> Option<Seq<char>> {
    match crate::numbers::read_count(encode_utf8(value), usize::MAX as int) {
        Err(_) => Some("`"@ + value + "` is not a number"@),
        Ok(width) => if 4 <= width <= 13 {
            None
        } else {
            Some("hash width must be between 4 and 13"@)
        },
    }
}

/// Accept a hash width the renderer can actually produce, and that is long enough to be an
/// abbreviation rather than a typo.
pub fn parse_hash_width(value: &str) -> (parsed: Result<usize, String>)
    ensures
        match parsed {
            Ok(width) => width_refusal(value@) is None && crate::numbers::read_count(
                encode_utf8(value@),
                usize::MAX as int,
            ) == Ok::<int, crate::numbers::CountFault>(width as int),
            Err(message) => width_refusal(value@) == Some(message@),
        },
{
    match crate::numbers::parse_usize(value.as_bytes()) {
        Err(_) => {
            let mut message = String::new();
            message.append("`");
            message.append(value);
            message.append("` is not a number");
            Err(message)
        },
        Ok(width) => {
            if width < HASH_CHARS_MIN || width > HASH_CHARS {
                Err(String::from_str("hash width must be between 4 and 13"))
            } else {
                Ok(width)
            }
        },
    }
}

/// A checksum of an output, taken piece by piece as the pieces pass, so that a stream can be
/// hashed without a second pass over it.
pub struct HashingWriter {
    state: stringzilla::sz::Hasher,
}

impl HashingWriter {
    /// Everything written so far.
    pub closed spec fn written(&self) -> Seq<u8> {
        absorbed(self.state)
    }

    pub fn new() -> (writer: Self)
        ensures
            writer.written() == Seq::<u8>::empty(),
    {
        HashingWriter { state: hasher() }
    }

    pub fn write_all(&mut self, data: &[u8])
        ensures
            final(self).written() == old(self).written() + data@,
    {
        absorb(&mut self.state, data);
    }

    /// The hash of everything written so far, equal to [`content_hash`] of those bytes.
    pub fn digest(&self) -> (value: u64)
        ensures
            value == hash_of(self.written()),
    {
        digest(&self.state)
    }
}

/// The characters of a name are digits and lowercase letters without the four that are easily
/// misread, and larger bits are written by characters that sort behind.
pub proof fn names_are_legible_and_sort(hash: u64, other: u64, width: int, at: int)
    requires
        0 <= at < hash_name(hash, width).len(),
    ensures
        ({
            let letter = hash_name(hash, width)[at];
            &&& '0' <= letter <= '9' || 'a' <= letter <= 'z'
            &&& letter != 'i' && letter != 'l' && letter != 'o' && letter != 'u'
            &&& hash_digit(hash, at) < hash_digit(other, at) <==> letter < hash_name(
                other,
                width,
            )[at]
        }),
{
    let mine = hash_digit(hash, at);
    let theirs = hash_digit(other, at);
    lemma_symbol(mine, theirs);
    lemma_symbol(theirs, mine);
}

proof fn lemma_symbol(digit: int, other: int)
    requires
        0 <= digit < 32,
        0 <= other < 32,
    ensures
        ({
            let symbol = HASH_ALPHABET@[digit];
            &&& 0x30 <= symbol <= 0x39 || 0x61 <= symbol <= 0x7A
            &&& symbol != 0x69 && symbol != 0x6C && symbol != 0x6F && symbol != 0x75
            &&& digit < other ==> symbol < HASH_ALPHABET@[other]
        }),
{
    lemma_symbol_number(digit);
    lemma_symbol_number(other);
}

proof fn lemma_symbol_number(digit: int)
    requires
        0 <= digit < 32,
    ensures
        HASH_ALPHABET@[digit] == digit + if digit < 10 {
            0x30int
        } else if digit < 18 {
            0x57
        } else if digit < 20 {
            0x58
        } else if digit < 22 {
            0x59
        } else if digit < 27 {
            0x5A
        } else {
            0x5B
        },
{
}

/// A name may be printed at any width from four characters to thirteen.
pub proof fn a_width_is_four_to_thirteen(width: nat)
    requires
        width <= usize::MAX,
    ensures
        width_refusal(decimal_chars(width)) is None <==> 4 <= width <= 13,
{
    lemma_decimal_chars(width);
    lemma_ascii_bytes(decimal_chars(width));
    assert(encode_utf8(decimal_chars(width)) =~= decimal(width));
    a_written_number_reads_back(width, usize::MAX as int);
}

} // verus!
