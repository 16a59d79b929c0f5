//! Filling text up to a width.

use vstd::prelude::*;
use vstd::string::StrSliceExecFns;
use vstd::utf8::encode_utf8;

use crate::bytes::{lemma_ascii_bytes, put_str};

verus! {

/// `count` times the same bytes.
pub open spec fn repeated(piece: Seq<u8>, count: nat) -> Seq<u8>
    decreases count,
{
    if count == 0 {
        Seq::empty()
    } else {
        repeated(piece, (count - 1) as nat) + piece
    }
}

/// How much of `width` is left behind `taken` characters.
pub open spec fn missing(taken: int, width: int) -> nat {
    if width > taken {
        (width - taken) as nat
    } else {
        0
    }
}

/// The spaces that fill `text` up to `width` characters.
pub open spec fn padding(text: Seq<char>, width: int) -> Seq<u8> {
    repeated(encode_utf8(" "@), missing(text.len() as int, width))
}

/// `text` filled up with spaces behind it to `width` characters.
pub open spec fn padded(text: Seq<char>, width: int) -> Seq<u8> {
    encode_utf8(text) + padding(text, width)
}

/// `text` filled up with spaces in front of it to `width` characters.
pub open spec fn aligned(text: Seq<char>, width: int) -> Seq<u8> {
    padding(text, width) + encode_utf8(text)
}

/// Append `piece` to `out`, `count` times.
pub fn put_repeated(out: &mut Vec<u8>, piece: &str, count: usize)
    ensures
        final(out)@ == old(out)@ + repeated(encode_utf8(piece@), count as nat),
{
    broadcast use crate::bytes::group_append;

    let mut written: usize = 0;
    while written < count
        invariant
            written <= count,
            out@ == old(out)@ + repeated(encode_utf8(piece@), written as nat),
        decreases count - written,
    {
        broadcast use crate::bytes::group_append;

        put_str(out, piece);
        written += 1;
    }
}

fn missing_width(text: &str, width: usize) -> (count: usize)
    ensures
        count == missing(text@.len() as int, width as int),
{
    let length: usize = text.unicode_len();
    if width > length {
        width - length
    } else {
        0
    }
}

/// Append `text` filled up with spaces behind it to `width` characters.
pub fn put_padded(out: &mut Vec<u8>, text: &str, width: usize)
    ensures
        final(out)@ == old(out)@ + padded(text@, width as int),
{
    broadcast use crate::bytes::group_append;

    put_str(out, text);
    put_repeated(out, " ", missing_width(text, width));
}

/// Append `text` filled up with spaces in front of it to `width` characters.
pub fn put_aligned(out: &mut Vec<u8>, text: &str, width: usize)
    ensures
        final(out)@ == old(out)@ + aligned(text@, width as int),
{
    broadcast use crate::bytes::group_append;

    put_repeated(out, " ", missing_width(text, width));
    put_str(out, text);
}

proof fn lemma_spaces(count: nat)
    ensures
        repeated(encode_utf8(" "@), count).len() == count,
        forall|i: int|
            0 <= i < count ==> #[trigger] repeated(encode_utf8(" "@), count)[i] == ' ' as u8,
    decreases count,
{
    reveal_strlit(" ");
    lemma_ascii_bytes(" "@);
    if count > 0 {
        lemma_spaces((count - 1) as nat);
    }
}

/// A text is filled up to the width with spaces, behind it or in front of it, and never cut.
pub proof fn spaces_fill_up_to_the_width(text: Seq<char>, width: int)
    ensures
        ({
            let bytes = encode_utf8(text);
            let short = if width > text.len() {
                width - text.len()
            } else {
                0
            };
            let left = padded(text, width);
            let right = aligned(text, width);
            &&& left.len() == bytes.len() + short
            &&& left.take(bytes.len() as int) == bytes
            &&& forall|i: int| bytes.len() <= i < left.len() ==> #[trigger] left[i] == ' ' as u8
            &&& right.len() == bytes.len() + short
            &&& right.skip(short) == bytes
            &&& forall|i: int| 0 <= i < short ==> #[trigger] right[i] == ' ' as u8
        }),
{
    lemma_spaces(missing(text.len() as int, width));
    let bytes = encode_utf8(text);
    assert(padded(text, width).take(bytes.len() as int) =~= bytes);
    assert(aligned(text, width).skip(missing(text.len() as int, width) as int) =~= bytes);
}

} // verus!
