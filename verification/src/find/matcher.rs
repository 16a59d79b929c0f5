//! Where a pattern matches inside a line: anywhere, or as a whole word only.

use vstd::prelude::*;
use vstd::utf8::{decode_utf8, encode_utf8_decode_utf8, valid_utf8};

use crate::cuts::{truncate_at_character, truncation_point};
use crate::lines::Newlines;
use crate::matching::{match_in, next_match};
use crate::sz::characters;
use crate::text::{chars_of, decoded};

use super::laws::{identifier_at, lemma_alone};

verus! {

/// Whether the Unicode rules — the newline set, word boundaries and character units — are in
/// force. Ignoring case folds by Unicode, so it turns them on too.
pub fn uses_unicode(utf8: bool, ignore_case: bool) -> (unicode: bool)
    ensures
        unicode == (utf8 || ignore_case),
{
    utf8 || ignore_case
}

/// Whether `byte` is an ASCII letter, digit or underscore.
pub open spec fn word_byte(byte: u8) -> bool {
    ||| 0x30 <= byte <= 0x39
    ||| 0x41 <= byte <= 0x5A
    ||| 0x61 <= byte <= 0x7A
    ||| byte == 0x5F
}

/// Whether `byte` is part of a word under the byte rules.
pub fn is_word_byte(byte: u8) -> (word: bool)
    ensures
        word == word_byte(byte),
{
    (byte >= 0x30 && byte <= 0x39) || (byte >= 0x41 && byte <= 0x5A) || (byte >= 0x61 && byte
        <= 0x7A) || byte == 0x5F
}

/// Whether Unicode counts a character among the letters and numbers, as `char::is_alphanumeric`
/// answers it.
pub uninterp spec fn alphanumeric(character: char) -> bool;

/// `char::is_alphanumeric`: whether the character is a letter or a number.
#[verifier::external_body]
pub(crate) fn is_alphanumeric(character: char) -> (yes: bool)
    ensures
        yes == alphanumeric(character),
{
    character.is_alphanumeric()
}

/// Whether `byte` continues a UTF-8 sequence.
pub open spec fn continues(byte: u8) -> bool {
    0x80 <= byte <= 0xBF
}

/// Where the bytes that can hold the character ending at `position` begin: the first byte of the
/// last four that starts a character.
pub open spec fn character_reach(data: Seq<u8>, start: int, position: int) -> int
    decreases position - start,
{
    if start < position && continues(data[start]) {
        character_reach(data, start + 1, position)
    } else {
        start
    }
}

/// The character ending at `position`, absent when the bytes before it are not UTF-8.
pub open spec fn ending_character(data: Seq<u8>, position: int) -> Option<char> {
    let start = character_reach(
        data,
        if position >= 4 {
            position - 4
        } else {
            0
        },
        position,
    );
    let piece = data.subrange(start, position);
    if valid_utf8(piece) && decode_utf8(piece).len() > 0 {
        Some(decode_utf8(piece).last())
    } else {
        None
    }
}

/// The character ending at `position`, absent when the bytes before it are not UTF-8.
pub fn character_before(data: &[u8], position: usize) -> (character: Option<char>)
    requires
        position <= data@.len(),
    ensures
        character == ending_character(data@, position as int),
{
    let mut start: usize = if position >= 4 {
        position - 4
    } else {
        0
    };
    let ghost first = start;
    while start < position && data[start] >= 0x80 && data[start] <= 0xBF
        invariant
            first <= start <= position <= data@.len(),
            character_reach(data@, first as int, position as int) == character_reach(
                data@,
                start as int,
                position as int,
            ),
        decreases position - start,
    {
        start += 1;
    }
    match decoded(&data[start..position]) {
        Some(text) => {
            proof {
                encode_utf8_decode_utf8(text@);
            }
            let chars = chars_of(text);
            if chars.len() > 0 {
                Some(chars[chars.len() - 1])
            } else {
                None
            }
        },
        None => None,
    }
}

/// The longest prefix of `chunk`, at most `length` bytes of it, that is valid UTF-8.
pub open spec fn valid_prefix(chunk: Seq<u8>, length: int) -> int
    decreases length,
{
    if length <= 0 {
        0
    } else if valid_utf8(chunk.subrange(0, length)) {
        length
    } else {
        valid_prefix(chunk, length - 1)
    }
}

/// The four bytes from `position` on, or fewer at the end of `data`.
pub open spec fn chunk_at(data: Seq<u8>, position: int) -> Seq<u8> {
    data.subrange(
        position,
        if data.len() - position >= 4 {
            position + 4
        } else {
            data.len() as int
        },
    )
}

/// The character starting at `position`, absent when the bytes there are not UTF-8.
pub open spec fn starting_character(data: Seq<u8>, position: int) -> Option<char> {
    let chunk = chunk_at(data, position);
    let text = chunk.subrange(0, valid_prefix(chunk, chunk.len() as int));
    if decode_utf8(text).len() > 0 {
        Some(decode_utf8(text)[0])
    } else {
        None
    }
}

/// The character starting at `position`, absent when the bytes there are not UTF-8.
pub fn character_at(data: &[u8], position: usize) -> (character: Option<char>)
    requires
        position <= data@.len(),
    ensures
        character == starting_character(data@, position as int),
{
    let end: usize = if data.len() - position >= 4 {
        position + 4
    } else {
        data.len()
    };
    let chunk: &[u8] = &data[position..end];
    let mut length: usize = chunk.len();
    loop
        invariant
            length <= chunk@.len(),
            chunk@ == chunk_at(data@, position as int),
            valid_prefix(chunk@, chunk@.len() as int) == valid_prefix(chunk@, length as int),
        decreases length,
    {
        if length == 0 {
            proof {
                let empty = chunk@.subrange(0, 0);
                assert(empty.len() == 0);
            }
            return None;
        }
        match decoded(&chunk[0..length]) {
            Some(text) => {
                proof {
                    encode_utf8_decode_utf8(text@);
                }
                let chars = chars_of(text);
                return if chars.len() > 0 {
                    Some(chars[0])
                } else {
                    None
                };
            },
            None => {},
        }
        length -= 1;
    }
}

/// Whether a character is part of a word under the Unicode rules.
pub open spec fn word_character(character: char) -> bool {
    alphanumeric(character) || character == '_'
}

/// Whether a word runs up to `position` from the left.
pub open spec fn word_before(data: Seq<u8>, position: int, unicode: bool) -> bool {
    match (unicode, ending_character(data, position)) {
        (true, Some(character)) => word_character(character),
        _ => position > 0 && word_byte(data[position - 1]),
    }
}

/// Whether a word runs on from `position` to the right.
pub open spec fn word_after(data: Seq<u8>, position: int, unicode: bool) -> bool {
    match (unicode, starting_character(data, position)) {
        (true, Some(character)) => word_character(character),
        _ => position < data.len() && word_byte(data[position]),
    }
}

/// Whether `data[start..end]` is a whole word: no word runs into it from either side. Where the
/// neighbouring bytes are not UTF-8, the byte rules decide.
pub fn is_word_boundary(data: &[u8], start: usize, end: usize, unicode: bool) -> (whole: bool)
    requires
        start <= data@.len(),
        end <= data@.len(),
    ensures
        whole == (!word_before(data@, start as int, unicode) && !word_after(
            data@,
            end as int,
            unicode,
        )),
{
    let character = if unicode {
        character_before(data, start)
    } else {
        None
    };
    let before = match character {
        Some(character) => is_alphanumeric(character) || character == '_',
        None => start > 0 && is_word_byte(data[start - 1]),
    };
    let character = if unicode {
        character_at(data, end)
    } else {
        None
    };
    let after = match character {
        Some(character) => is_alphanumeric(character) || character == '_',
        None => end < data.len() && is_word_byte(data[end]),
    };
    !before && !after
}

/// The number of characters in `data`, which is its continuation-byte-free byte count.
pub fn character_count(data: &[u8]) -> (count: usize)
    ensures
        count == characters(data@),
        count <= data@.len(),
{
    let mut count: usize = 0;
    let mut index: usize = 0;
    while index < data.len()
        invariant
            index <= data@.len(),
            count <= index,
            count == characters(data@.subrange(0, index as int)),
        decreases data@.len() - index,
    {
        proof {
            let next = data@.subrange(0, index + 1);
            assert(next.drop_last() =~= data@.subrange(0, index as int));
            assert(next.last() == data@[index as int]);
        }
        if data[index] < 0x80 || data[index] > 0xBF {
            count += 1;
        }
        index += 1;
    }
    assert(data@.subrange(0, data@.len() as int) =~= data@);
    count
}

/// Whether a budgeted write took a whole run or stopped inside it.
#[derive(Clone, Copy, PartialEq, Eq, Structural, Debug)]
pub enum Fit {
    Whole,
    Cut,
}

/// Where the character behind the next `left` characters starts, from `at` on, or the end of
/// `line`.
pub open spec fn after_characters(line: Seq<u8>, at: int, left: int) -> int
    decreases line.len() - at,
{
    if at < 0 || at >= line.len() {
        line.len() as int
    } else if continues(line[at]) {
        after_characters(line, at + 1, left)
    } else if left <= 0 {
        at
    } else {
        after_characters(line, at + 1, left - 1)
    }
}

/// How much of `line` a limit keeps: that many characters under the Unicode set, and that many
/// bytes, never splitting a character, under the other.
pub open spec fn kept_length(line: Seq<u8>, limit: int, newlines: Newlines) -> int {
    match newlines {
        Newlines::Lf => truncation_point(line, limit),
        Newlines::Unicode => after_characters(line, 0, limit),
    }
}

/// What the kept part spends of a limit.
pub open spec fn units(kept: Seq<u8>, newlines: Newlines) -> nat {
    match newlines {
        Newlines::Lf => kept.len(),
        Newlines::Unicode => characters(kept),
    }
}

/// Trim `line` to `limit` characters under [`Newlines::Unicode`], to `limit` bytes otherwise,
/// returning the kept prefix, what it spent of the limit, and whether anything was dropped.
pub fn trim_to_limit(line: &[u8], limit: usize, newlines: Newlines) -> (trimmed: (
    &[u8],
    usize,
    Fit,
))
    ensures
        0 <= kept_length(line@, limit as int, newlines) <= line@.len(),
        trimmed.0@ == line@.subrange(0, kept_length(line@, limit as int, newlines)),
        trimmed.1 == units(trimmed.0@, newlines),
        trimmed.1 <= limit,
        trimmed.2 == if kept_length(line@, limit as int, newlines) < line@.len() {
            Fit::Cut
        } else {
            Fit::Whole
        },
{
    match newlines {
        Newlines::Lf => {
            // The unit is the byte here, so the kept prefix is its own count.
            let (kept, trimmed) = truncate_at_character(line, limit);
            let fit = if trimmed {
                Fit::Cut
            } else {
                Fit::Whole
            };
            (kept, kept.len(), fit)
        },
        Newlines::Unicode => {
            let mut seen: usize = 0;
            let mut index: usize = 0;
            while index < line.len()
                invariant
                    index <= line@.len(),
                    seen <= limit,
                    seen <= index,
                    newlines == Newlines::Unicode,
                    seen == characters(line@.subrange(0, index as int)),
                    after_characters(line@, 0, limit as int) == after_characters(
                        line@,
                        index as int,
                        limit - seen,
                    ),
                decreases line@.len() - index,
            {
                proof {
                    let next = line@.subrange(0, index + 1);
                    assert(next.drop_last() =~= line@.subrange(0, index as int));
                    assert(next.last() == line@[index as int]);
                }
                if line[index] < 0x80 || line[index] > 0xBF {
                    if seen == limit {
                        return (&line[0..index], seen, Fit::Cut);
                    }
                    seen += 1;
                }
                index += 1;
            }
            assert(line@.subrange(0, line@.len() as int) =~= line@);
            (line, seen, Fit::Whole)
        },
    }
}

/// Information about a single match.
#[derive(Clone, Copy, PartialEq, Eq, Structural, Debug)]
pub struct MatchInfo {
    /// 0-based byte offset where the match starts.
    pub offset: usize,
    /// Length of the match in bytes.
    pub length: usize,
}

/// The 1-based column of what starts at `offset`.
pub open spec fn column_of(line: Seq<u8>, offset: int, newlines: Newlines) -> nat {
    match newlines {
        Newlines::Unicode => characters(line.subrange(0, offset)) + 1,
        Newlines::Lf => (offset + 1) as nat,
    }
}

impl MatchInfo {
    /// Whether the match lies inside `line`.
    pub open spec fn inside(self, line: Seq<u8>) -> bool {
        self.offset + self.length <= line.len()
    }

    /// 1-based column number, in characters under [`Newlines::Unicode`] and in bytes otherwise.
    pub fn column(&self, line: &[u8], newlines: Newlines) -> (column: usize)
        requires
            self.inside(line@),
            self.length > 0,
        ensures
            column == column_of(line@, self.offset as int, newlines),
    {
        assert(self.offset < line.len());
        match newlines {
            Newlines::Unicode => character_count(&line[0..self.offset]) + 1,
            Newlines::Lf => self.offset + 1,
        }
    }

    /// The matched bytes, borrowed from the line the match was found in.
    pub fn text<'a>(&self, line: &'a [u8]) -> (text: &'a [u8])
        requires
            self.inside(line@),
        ensures
            text@ == line@.subrange(self.offset as int, self.offset + self.length),
    {
        assert(self.offset + self.length <= line.len());
        &line[self.offset..self.offset + self.length]
    }
}

/// The pattern and the rules it is matched under.
#[derive(Clone, Copy, Debug)]
pub struct Matcher<'a> {
    pub pattern: &'a [u8],
    pub ignore_case: bool,
    pub whole_word: bool,
    pub unicode: bool,
}

/// The pattern and the rules it is matched under, as values.
pub ghost struct Rule {
    pub pattern: Seq<u8>,
    pub ignore_case: bool,
    pub whole_word: bool,
    pub unicode: bool,
}

impl<'a> View for Matcher<'a> {
    type V = Rule;

    open spec fn view(&self) -> Rule {
        Rule {
            pattern: self.pattern@,
            ignore_case: self.ignore_case,
            whole_word: self.whole_word,
            unicode: self.unicode,
        }
    }
}

/// The first match at or after `from`, as an offset and a length. A match that is no whole word
/// where one is asked for is stepped over by one byte.
pub open spec fn match_from(data: Seq<u8>, rule: Rule, from: int) -> Option<(int, int)>
    decreases data.len() - from,
{
    if from < 0 || from >= data.len() {
        None
    } else {
        match match_in(data.subrange(from, data.len() as int), rule.pattern, rule.ignore_case) {
            Some((offset, length)) => if offset < 0 || length <= 0 || from + offset + length
                > data.len() {
                None
            } else if rule.whole_word && (word_before(data, from + offset, rule.unicode)
                || word_after(data, from + offset + length, rule.unicode)) {
                match_from(data, rule, from + offset + 1)
            } else {
                Some((from + offset, length))
            },
            None => None,
        }
    }
}

/// Every match at or after `from`, none overlapping the one before it.
pub open spec fn matches_from(data: Seq<u8>, rule: Rule, from: int) -> Seq<(int, int)>
    decreases data.len() - from,
{
    match match_from(data, rule, from) {
        Some((offset, length)) => if 0 <= from <= offset && 0 < length && offset + length <= data.len() {
            seq![(offset, length)] + matches_from(data, rule, offset + length)
        } else {
            Seq::empty()
        },
        None => Seq::empty(),
    }
}

/// A match lies behind where the search began and inside what was searched, and is not empty.
pub proof fn lemma_match_from(data: Seq<u8>, rule: Rule, from: int)
    requires
        0 <= from,
    ensures
        match_from(data, rule, from) matches Some((offset, length)) ==> from <= offset && 0 < length
            && offset + length <= data.len(),
    decreases data.len() - from,
{
    if from < data.len() {
        match match_in(data.subrange(from, data.len() as int), rule.pattern, rule.ignore_case) {
            Some((offset, length)) => {
                if 0 <= offset && 0 < length && from + offset + length <= data.len() {
                    lemma_match_from(data, rule, from + offset + 1);
                }
            },
            None => {},
        }
    }
}

/// Iterator over the matches of a pattern in `data`, leftmost first. Ignoring case, a match may be
/// of another length than the pattern.
pub struct MatchIter<'a> {
    data: &'a [u8],
    matcher: Matcher<'a>,
    pos: usize,
}

impl<'a> MatchIter<'a> {
    pub closed spec fn wf(&self) -> bool {
        self.pos <= self.data@.len() && self.matcher.pattern@.len() > 0
    }

    pub closed spec fn input(&self) -> Seq<u8> {
        self.data@
    }

    pub closed spec fn rule(&self) -> Rule {
        self.matcher@
    }

    /// Where the search for the next match begins.
    pub closed spec fn at(&self) -> int {
        self.pos as int
    }

    /// The matches still to come.
    pub open spec fn remaining(&self) -> Seq<(int, int)> {
        matches_from(self.input(), self.rule(), self.at())
    }

    pub fn new(data: &'a [u8], matcher: Matcher<'a>) -> (iter: Self)
        requires
            matcher.pattern@.len() > 0,
        ensures
            iter.wf(),
            iter.input() == data@,
            iter.rule() == matcher@,
            iter.at() == 0,
    {
        MatchIter { data, matcher, pos: 0 }
    }

    /// The next match, or `None` past the last.
    pub fn next(&mut self) -> (found: Option<MatchInfo>)
        requires
            old(self).wf(),
        ensures
            final(self).wf(),
            final(self).input() == old(self).input(),
            final(self).rule() == old(self).rule(),
            match found {
                Some(found) => {
                    &&& match_from(old(self).input(), old(self).rule(), old(self).at()) == Some(
                        (found.offset as int, found.length as int),
                    )
                    &&& old(self).at() <= found.offset
                    &&& 0 < found.length
                    &&& found.inside(old(self).input())
                    &&& final(self).at() == found.offset + found.length
                    // A whole word has no letter, digit or underscore of ASCII beside it.
                    &&& old(self).rule().whole_word && !old(self).rule().unicode
                        ==> !identifier_at(old(self).input(), found.offset - 1) && !identifier_at(
                        old(self).input(),
                        found.offset + found.length,
                    )
                    &&& old(self).remaining().len() > 0
                    &&& old(self).remaining()[0] == (found.offset as int, found.length as int)
                    &&& final(self).remaining() == old(self).remaining().drop_first()
                },
                None => {
                    &&& match_from(old(self).input(), old(self).rule(), old(self).at()) is None
                    &&& old(self).remaining().len() == 0
                    &&& *final(self) == *old(self)
                },
            },
            0 <= old(self).at() <= old(self).input().len(),
    {
        let ghost rule = self.matcher@;
        let from: usize = self.pos;
        let data: &'a [u8] = self.data;
        proof {
            lemma_match_from(data@, rule, from as int);
            if rule.whole_word && !rule.unicode {
                lemma_alone(data@, rule, from as int);
            }
        }
        let mut pos: usize = from;
        while pos < data.len()
            invariant
                self.wf(),
                *self == *old(self),
                data == self.data,
                rule == self.matcher@,
                rule.whole_word && !rule.unicode ==> (match_from(data@, rule, from as int)
                    matches Some((offset, length)) ==> !identifier_at(data@, offset - 1)
                    && !identifier_at(data@, offset + length)),
                from == self.pos,
                from <= pos <= data@.len(),
                match_from(data@, rule, from as int) == match_from(data@, rule, pos as int),
            decreases data@.len() - pos,
        {
            let rest: &[u8] = &data[pos..data.len()];
            match next_match(rest, self.matcher.pattern, self.matcher.ignore_case) {
                None => {
                    return None;
                },
                Some((offset, length)) => {
                    let start: usize = pos + offset;
                    let end: usize = start + length;
                    if self.matcher.whole_word && !is_word_boundary(
                        data,
                        start,
                        end,
                        self.matcher.unicode,
                    ) {
                        pos = start + 1;
                    } else {
                        self.pos = end;
                        proof {
                            let all = matches_from(data@, rule, from as int);
                            let later = matches_from(data@, rule, end as int);
                            lemma_match_from(data@, rule, from as int);
                            assert(all == seq![(start as int, length as int)] + later);
                            assert(all.drop_first() =~= later);
                        }
                        return Some(MatchInfo { offset: start, length });
                    }
                },
            }
        }
        None
    }
}

impl<'a> Matcher<'a> {
    /// Iterate every match within `data`.
    pub fn matches<'d>(&'d self, data: &'d [u8]) -> (iter: MatchIter<'d>)
        requires
            self.pattern@.len() > 0,
        ensures
            iter.wf(),
            iter.input() == data@,
            iter.rule() == self@,
            iter.at() == 0,
    {
        MatchIter::new(data, *self)
    }
}

} // verus!
