//! What a search takes for a character: how far a limit reaches, which column a match has, and where
//! a word ends.

use vstd::prelude::*;
use vstd::utf8::{
    decode_first_scalar, decode_utf8, decode_utf8_split, is_char_boundary_iff_not_is_continuation_byte,
    is_continuation_byte, length_of_first_scalar, pop_first_scalar, valid_first_scalar, valid_utf8,
    valid_utf8_split,
};

use crate::count::tally::lemma_characters_join;
use crate::lines::Newlines;
use crate::sz::characters;

use super::matcher::{
    after_characters, alphanumeric, character_reach, chunk_at, column_of, continues, kept_length,
    valid_prefix, word_after, word_before,
};

verus! {

proof fn lemma_kept(line: Seq<u8>, at: int, left: int)
    requires
        0 <= at <= line.len(),
        0 <= left,
    ensures
        ({
            let end = after_characters(line, at, left);
            let kept = characters(line.subrange(at, end));
            &&& at <= end <= line.len()
            &&& end == line.len() ==> kept <= left
            &&& end < line.len() ==> kept == left && !(0x80 <= line[end] <= 0xBF)
        }),
    decreases line.len() - at,
{
    let end = after_characters(line, at, left);
    if at < line.len() {
        let first = line.subrange(at, at + 1);
        assert(first.drop_last() =~= Seq::empty());
        assert(first.last() == line[at]);
        reveal_with_fuel(characters, 2);
        if continues(line[at]) {
            lemma_kept(line, at + 1, left);
            lemma_characters_join(first, line.subrange(at + 1, end));
            assert(line.subrange(at, end) =~= first + line.subrange(at + 1, end));
        } else if left > 0 {
            lemma_kept(line, at + 1, left - 1);
            lemma_characters_join(first, line.subrange(at + 1, end));
            assert(line.subrange(at, end) =~= first + line.subrange(at + 1, end));
        } else {
            assert(line.subrange(at, end) =~= Seq::empty());
        }
    } else {
        assert(line.subrange(at, end) =~= Seq::empty());
    }
}

/// A limit under the Unicode rules keeps as many characters as it says and cuts in front of the next,
/// or keeps the whole line where it holds no more.
pub proof fn a_limit_keeps_that_many_characters(line: Seq<u8>, limit: nat)
    ensures
        ({
            let end = kept_length(line, limit as int, Newlines::Unicode);
            &&& 0 <= end <= line.len()
            &&& end == line.len() ==> characters(line) <= limit
            &&& end < line.len() ==> characters(line.take(end)) == limit && !(0x80 <= line[end]
                <= 0xBF)
        }),
{
    lemma_kept(line, 0, limit as int);
    let end = after_characters(line, 0, limit as int);
    assert(line.subrange(0, end) =~= line.take(end));
    assert(line.take(line.len() as int) =~= line);
}

/// Columns are counted from one, in bytes or, under the Unicode rules, in characters.
pub proof fn a_column_counts_what_stands_before(line: Seq<u8>, offset: int)
    requires
        0 <= offset <= line.len(),
    ensures
        column_of(line, offset, Newlines::Lf) == offset + 1,
        column_of(line, offset, Newlines::Unicode) == characters(line.take(offset)) + 1,
        column_of(line, 0, Newlines::Unicode) == 1,
{
    assert(line.subrange(0, 0) =~= Seq::empty());
}

proof fn lemma_reach(data: Seq<u8>, start: int, position: int)
    requires
        0 <= start <= position <= data.len(),
    ensures
        ({
            let reach = character_reach(data, start, position);
            &&& start <= reach <= position
            &&& reach < position ==> !continues(data[reach])
            &&& forall|i: int| start <= i < reach ==> continues(#[trigger] data[i])
        }),
    decreases position - start,
{
    if start < position && continues(data[start]) {
        lemma_reach(data, start + 1, position);
    }
}

proof fn lemma_no_run_of_four(text: Seq<u8>, at: int)
    requires
        valid_utf8(text),
        0 <= at,
        at + 4 <= text.len(),
    ensures
        !(continues(text[at]) && continues(text[at + 1]) && continues(text[at + 2]) && continues(
            text[at + 3],
        )),
    decreases text.len(),
{
    let rest = pop_first_scalar(text);
    let length = length_of_first_scalar(text);
    assert(valid_first_scalar(text) && valid_utf8(rest));
    if at >= length {
        lemma_no_run_of_four(rest, at - length);
        assert(rest[at - length] == text[at]);
        assert(rest[at - length + 1] == text[at + 1]);
        assert(rest[at - length + 2] == text[at + 2]);
        assert(rest[at - length + 3] == text[at + 3]);
    } else if at > 0 {
        // The first character has at most four bytes, so a later one begins among these.
        if rest.len() > 0 {
            assert(valid_first_scalar(rest));
            assert(rest[0] == text[length]);
        }
    }
}

/// Under the Unicode rules a word runs up to a place in UTF-8 exactly where the character before it is
/// a letter, a number or an underscore.
pub proof fn the_character_before_decides(data: Seq<u8>, position: int)
    requires
        0 < position <= data.len(),
        valid_utf8(data.take(position)),
    ensures
        ({
            let before = decode_utf8(data.take(position)).last();
            word_before(data, position, true) <==> alphanumeric(before) || before == '_'
        }),
{
    let text = data.take(position);
    let start = if position >= 4 {
        position - 4
    } else {
        0
    };
    lemma_reach(data, start, position);
    let reach = character_reach(data, start, position);
    assert(forall|i: int| 0 <= i < position ==> text[i] == data[i]);
    if reach == position {
        if position >= 4 {
            lemma_no_run_of_four(text, position - 4);
            assert(continues(data[position - 4]) && continues(data[position - 3]) && continues(
                data[position - 2],
            ) && continues(data[position - 1]));
        } else {
            assert(valid_first_scalar(text));
            assert(continues(data[0]));
        }
    }
    assert(!is_continuation_byte(text[reach]));
    is_char_boundary_iff_not_is_continuation_byte(text, reach);
    valid_utf8_split(text, reach);
    decode_utf8_split(text, reach);
    let piece = data.subrange(reach, position);
    assert(piece =~= text.subrange(reach, text.len() as int));
    assert(decode_utf8(piece).len() > 0) by {
        assert(valid_first_scalar(piece));
    }
    assert(decode_utf8(text).last() == decode_utf8(piece).last());
}

proof fn lemma_valid_front(chunk: Seq<u8>, length: int)
    requires
        0 <= length <= chunk.len(),
    ensures
        ({
            let end = valid_prefix(chunk, length);
            &&& 0 <= end <= length
            &&& valid_utf8(chunk.subrange(0, end))
            &&& forall|i: int| end < i <= length ==> !valid_utf8(#[trigger] chunk.subrange(0, i))
        }),
    decreases length,
{
    if length <= 0 {
        assert(chunk.subrange(0, 0) =~= Seq::empty());
    } else if !valid_utf8(chunk.subrange(0, length)) {
        lemma_valid_front(chunk, length - 1);
    }
}

/// Under the Unicode rules a word runs on from a place in UTF-8 exactly where the character behind it is
/// a letter, a number or an underscore.
pub proof fn the_character_behind_decides(data: Seq<u8>, position: int)
    requires
        0 <= position < data.len(),
        valid_utf8(data.skip(position)),
    ensures
        ({
            let behind = decode_utf8(data.skip(position))[0];
            word_after(data, position, true) <==> alphanumeric(behind) || behind == '_'
        }),
{
    let text = data.skip(position);
    let chunk = chunk_at(data, position);
    let first = length_of_first_scalar(text);
    assert(valid_first_scalar(text));
    assert(1 <= first <= 4);
    assert(chunk =~= text.take(chunk.len() as int));
    assert(first <= chunk.len());
    let single = chunk.subrange(0, first);
    assert(single =~= text.subrange(0, first));
    assert(valid_utf8(single)) by {
        reveal_with_fuel(valid_utf8, 2);
        assert(valid_first_scalar(single));
        assert(pop_first_scalar(single) =~= Seq::empty());
    }
    lemma_valid_front(chunk, chunk.len() as int);
    let end = valid_prefix(chunk, chunk.len() as int);
    assert(first <= end);
    let front = chunk.subrange(0, end);
    assert(valid_first_scalar(front));
    assert(forall|i: int| 0 <= i < end ==> front[i] == text[i]);
    assert(decode_first_scalar(front) == decode_first_scalar(text));
    assert(decode_utf8(front)[0] == decode_utf8(text)[0]);
}

} // verus!
