//! Decimal counts, read and written.

use vstd::prelude::*;

use crate::bytes::{a_number_is_written_in_tens, decimal, worth_of};

verus! {

/// Why a text is not a count.
#[derive(Clone, Copy, PartialEq, Eq, Structural, Debug)]
pub enum CountFault {
    Empty,
    InvalidDigit,
    TooLarge,
}

/// The count that the digits from `from` on continue `so_far` to, as far as `limit` allows.
pub open spec fn read_digits(text: Seq<u8>, from: int, so_far: int, limit: int) -> Result<
    int,
    CountFault,
>
    decreases text.len() - from,
{
    if from < 0 || from >= text.len() {
        Ok(so_far)
    } else if !(0x30 <= text[from] <= 0x39) {
        Err(CountFault::InvalidDigit)
    } else if so_far * 10 + (text[from] - 0x30) > limit {
        Err(CountFault::TooLarge)
    } else {
        read_digits(text, from + 1, so_far * 10 + (text[from] - 0x30), limit)
    }
}

/// The count `text` spells in decimal, a leading plus sign allowed.
pub open spec fn read_count(text: Seq<u8>, limit: int) -> Result<int, CountFault> {
    if text.len() == 0 {
        Err(CountFault::Empty)
    } else if text[0] == 0x2B {
        if text.len() == 1 {
            Err(CountFault::InvalidDigit)
        } else {
            read_digits(text, 1, 0, limit)
        }
    } else {
        read_digits(text, 0, 0, limit)
    }
}

/// Read a count, as a command line spells one.
pub fn parse_usize(text: &[u8]) -> (parsed: Result<usize, CountFault>)
    ensures
        match parsed {
            Ok(count) => read_count(text@, usize::MAX as int) == Ok::<int, CountFault>(
                count as int,
            ),
            Err(fault) => read_count(text@, usize::MAX as int) == Err::<int, CountFault>(fault),
        },
{
    if text.len() == 0 {
        return Err(CountFault::Empty);
    }
    let mut index: usize = 0;
    if text[0] == 0x2B {
        if text.len() == 1 {
            return Err(CountFault::InvalidDigit);
        }
        index = 1;
    }
    let mut count: usize = 0;
    while index < text.len()
        invariant
            index <= text@.len(),
            text@.len() > 0,
            read_count(text@, usize::MAX as int) == read_digits(
                text@,
                index as int,
                count as int,
                usize::MAX as int,
            ),
        decreases text@.len() - index,
    {
        let byte: u8 = text[index];
        if byte < 0x30 || byte > 0x39 {
            return Err(CountFault::InvalidDigit);
        }
        let digit: usize = (byte - 0x30) as usize;
        match count.checked_mul(10) {
            None => {
                return Err(CountFault::TooLarge);
            },
            Some(shifted) => {
                match shifted.checked_add(digit) {
                    None => {
                        return Err(CountFault::TooLarge);
                    },
                    Some(grown) => {
                        count = grown;
                    },
                }
            },
        }
        index += 1;
    }
    Ok(count)
}

proof fn lemma_read_digits(text: Seq<u8>, from: int, so_far: int, limit: int)
    requires
        0 <= from <= text.len(),
        0 <= so_far,
        forall|i: int| from <= i < text.len() ==> '0' as u8 <= #[trigger] text[i] <= '9' as u8,
        so_far == worth_of(text.take(from)),
        so_far <= limit,
    ensures
        read_digits(text, from, so_far, limit) == if worth_of(text) <= limit {
            Ok::<int, CountFault>(worth_of(text))
        } else {
            Err(CountFault::TooLarge)
        },
        so_far <= worth_of(text),
    decreases text.len() - from,
{
    if from < text.len() {
        let next = text.take(from + 1);
        assert(next.drop_last() =~= text.take(from));
        assert(next.last() == text[from]);
        let value = so_far * 10 + (text[from] - 0x30);
        assert(worth_of(next) == value);
        if value <= limit {
            lemma_read_digits(text, from + 1, value, limit);
        } else {
            lemma_worth_grows(text, from + 1);
        }
    } else {
        assert(text.take(from) =~= text);
    }
}

proof fn lemma_worth_grows(text: Seq<u8>, from: int)
    requires
        0 <= from <= text.len(),
        0 <= worth_of(text.take(from)),
        forall|i: int| from <= i < text.len() ==> '0' as u8 <= #[trigger] text[i] <= '9' as u8,
    ensures
        worth_of(text.take(from)) <= worth_of(text),
    decreases text.len() - from,
{
    if from < text.len() {
        let next = text.take(from + 1);
        assert(next.drop_last() =~= text.take(from));
        assert(next.last() == text[from]);
        lemma_worth_grows(text, from + 1);
    } else {
        assert(text.take(from) =~= text);
    }
}

proof fn lemma_behind_sign(digits: Seq<u8>, sign: u8, from: int, so_far: int, limit: int)
    requires
        0 <= from <= digits.len(),
    ensures
        read_digits(seq![sign] + digits, from + 1, so_far, limit) == read_digits(
            digits,
            from,
            so_far,
            limit,
        ),
    decreases digits.len() - from,
{
    if from < digits.len() {
        assert((seq![sign] + digits)[from + 1] == digits[from]);
        lemma_behind_sign(
            digits,
            sign,
            from + 1,
            so_far * 10 + (digits[from] - 0x30),
            limit,
        );
    }
}

proof fn lemma_no_digit(text: Seq<u8>, from: int, so_far: int, at: int, limit: int)
    requires
        0 <= from <= at < text.len(),
        !('0' as u8 <= text[at] <= '9' as u8),
    ensures
        read_digits(text, from, so_far, limit) is Err,
    decreases at - from,
{
    if from < at {
        lemma_no_digit(text, from + 1, so_far * 10 + (text[from] - 0x30), at, limit);
    }
}

/// A text with anything but digits in it, behind a plus sign at its front, is no count, nor is one
/// without a digit.
pub proof fn only_digits_make_a_count(text: Seq<u8>, at: int, limit: int)
    requires
        0 <= at < text.len(),
        !('0' as u8 <= text[at] <= '9' as u8),
        at == 0 && text[0] == '+' as u8 ==> text.len() == 1,
    ensures
        read_count(text, limit) is Err,
        read_count(Seq::empty(), limit) is Err,
{
    if text[0] == '+' as u8 {
        if text.len() > 1 {
            lemma_no_digit(text, 1, 0, at, limit);
        }
    } else {
        lemma_no_digit(text, 0, 0, at, limit);
    }
}

/// Digits read as the number they stand for in tens, with or without a plus sign in front, as far as
/// the limit reaches.
pub proof fn digits_read_in_tens(digits: Seq<u8>, limit: int)
    requires
        digits.len() > 0,
        0 <= limit,
        forall|i: int| 0 <= i < digits.len() ==> '0' as u8 <= #[trigger] digits[i] <= '9' as u8,
    ensures
        read_count(digits, limit) == if worth_of(digits) <= limit {
            Ok::<int, CountFault>(worth_of(digits))
        } else {
            Err(CountFault::TooLarge)
        },
        read_count(seq!['+' as u8] + digits, limit) == read_count(digits, limit),
{
    assert(digits.take(0) =~= Seq::empty());
    lemma_behind_sign(digits, '+' as u8, 0, 0, limit);
    lemma_read_digits(digits, 0, 0, limit);
}

/// What is written as a number reads back as it.
pub proof fn a_written_number_reads_back(value: nat, limit: int)
    requires
        value <= limit,
    ensures
        read_count(decimal(value), limit) == Ok::<int, CountFault>(value as int),
{
    a_number_is_written_in_tens(value);
    digits_read_in_tens(decimal(value), limit);
}

} // verus!
