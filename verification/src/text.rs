//! Text as characters.

use vstd::prelude::*;
use vstd::utf8::{encode_utf8, encode_utf8_decode_utf8, valid_utf8};

use crate::bytes::same_bytes;

verus! {

/// `String::push`: the string grows by one character at its end.
pub assume_specification[ String::push ](text: &mut String, character: char)
    ensures
        final(text)@ == old(text)@.push(character),
;

/// `std::str::from_utf8`: the text that `data` encodes, or `None` where `data` is not valid UTF-8.
#[verifier::external_body]
pub(crate) fn decoded(data: &[u8]) -> (text: Option<&str>)
    ensures
        match text {
            Some(text) => valid_utf8(data@) && encode_utf8(text@) == data@,
            None => !valid_utf8(data@),
        },
{
    std::str::from_utf8(data).ok()
}

/// A text with any characters has bytes.
pub proof fn lemma_text_bytes(text: Seq<char>)
    requires
        text.len() > 0,
    ensures
        encode_utf8(text).len() > 0,
{
    encode_utf8_decode_utf8(text);
    if encode_utf8(text).len() == 0 {
        assert(encode_utf8(text) =~= Seq::empty());
        assert(vstd::utf8::decode_utf8(Seq::<u8>::empty()) =~= Seq::<char>::empty());
    }
}

/// The characters of `text`.
pub fn chars_of(text: &str) -> (chars: Vec<char>)
    ensures
        chars@ == text@,
{
    let mut chars: Vec<char> = Vec::new();
    for character in iter: text.chars()
        invariant
            chars@ == iter.seq().take(iter.index() as int),
            iter.seq() == text@,
    {
        chars.push(character);
    }
    chars
}

/// Whether two texts are the same.
pub fn same_text(left: &str, right: &str) -> (same: bool)
    ensures
        same == (left@ == right@),
{
    proof {
        encode_utf8_decode_utf8(left@);
        encode_utf8_decode_utf8(right@);
    }
    same_bytes(left.as_bytes(), right.as_bytes())
}

/// Append every one of `chars` to `text`.
pub fn push_chars(text: &mut String, chars: &[char])
    ensures
        final(text)@ == old(text)@ + chars@,
{
    let mut index: usize = 0;
    while index < chars.len()
        invariant
            index <= chars@.len(),
            text@ == old(text)@ + chars@.subrange(0, index as int),
        decreases chars@.len() - index,
    {
        text.push(chars[index]);
        index += 1;
    }
    assert(chars@.subrange(0, chars@.len() as int) =~= chars@);
}

/// Where `character` first stands at or after `from`, or the end of the text.
pub open spec fn char_position(text: Seq<char>, character: char, from: int) -> int
    decreases text.len() - from,
{
    if from < 0 || from >= text.len() {
        text.len() as int
    } else if text[from] == character {
        from
    } else {
        char_position(text, character, from + 1)
    }
}

/// What stands between the occurrences of `separator`, from `from` on.
pub open spec fn split_on(text: Seq<char>, separator: char, from: int) -> Seq<Seq<char>>
    decreases text.len() - from,
{
    let at = char_position(text, separator, from);
    if from < 0 || at < from || at >= text.len() {
        seq![text.subrange(from, text.len() as int)]
    } else {
        seq![text.subrange(from, at)] + split_on(text, separator, at + 1)
    }
}

/// Where `character` first stands at or after `from`, or the end of the text.
pub fn find_char(text: &[char], character: char, from: usize) -> (at: usize)
    requires
        from <= text@.len(),
    ensures
        at == char_position(text@, character, from as int),
        from <= at <= text@.len(),
{
    let mut at: usize = from;
    while at < text.len() && text[at] != character
        invariant
            from <= at <= text@.len(),
            char_position(text@, character, from as int) == char_position(
                text@,
                character,
                at as int,
            ),
        decreases text@.len() - at,
    {
        at += 1;
    }
    at
}

/// A character that stands nowhere is found at the end.
pub proof fn lemma_no_char(text: Seq<char>, character: char, from: int)
    requires
        0 <= from <= text.len(),
    ensures
        char_position(text, character, from) == text.len() <==> !text.subrange(
            from,
            text.len() as int,
        ).contains(character),
        from <= char_position(text, character, from) <= text.len(),
    decreases text.len() - from,
{
    let rest = text.subrange(from, text.len() as int);
    if from < text.len() {
        if text[from] == character {
            assert(rest[0] == character);
        } else {
            let later = text.subrange(from + 1, text.len() as int);
            lemma_no_char(text, character, from + 1);
            if later.contains(character) {
                let i = choose|i: int| 0 <= i < later.len() && later[i] == character;
                assert(rest[i + 1] == character);
            }
            if rest.contains(character) {
                let i = choose|i: int| 0 <= i < rest.len() && rest[i] == character;
                assert(later[i - 1] == character);
            }
        }
    }
}

} // verus!
