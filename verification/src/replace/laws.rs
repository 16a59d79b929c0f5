//! What a replacement is for: what of the input it keeps, and what it puts in place of the rest.

use vstd::prelude::*;
use vstd::utf8::encode_utf8;

use crate::bytes::{byte_position, lemma_ascii_bytes, lemma_byte_position, lit};
use crate::cols::extract::fields_joined;
use crate::hashing::HashPrefix;
use crate::lines::{
    lemma_line_at, lemma_lines_step, lemma_next_break, line_at, lines, Line, Newlines,
};
use crate::matching::match_in;
use crate::sz::{index_of, lemma_index_of, occurs_at, pieces};

use super::named::{
    line_text, named_from, patch_of, patched, patches_of, prevailing, prevailing_from, rejoined, resolved,
    without_last, Occurrences, Placement,
};
use super::run::{edited, Args, Match};
use super::substring::{match_count, replaced};

verus! {

proof fn lemma_index_shift(data: Seq<u8>, needle: Seq<u8>, from: int, at: int)
    requires
        0 <= from <= data.len(),
        0 <= at,
    ensures
        index_of(data, needle, from + at) == match index_of(
            data.subrange(from, data.len() as int),
            needle,
            at,
        ) {
            Some(found) => Some(from + found),
            None => None,
        },
{
    let rest = data.subrange(from, data.len() as int);
    lemma_index_of(data, needle, from + at);
    lemma_index_of(rest, needle, at);
    assert forall|place: int| 0 <= place implies (#[trigger] occurs_at(rest, needle, place)
        <==> occurs_at(data, needle, from + place)) by {
        if place + needle.len() <= rest.len() {
            assert(rest.subrange(place, place + needle.len()) =~= data.subrange(
                from + place,
                from + place + needle.len(),
            ));
        }
    }
    match (index_of(data, needle, from + at), index_of(rest, needle, at)) {
        (Some(one), Some(two)) => {
            assert(occurs_at(rest, needle, two));
            if one < from + two {
                assert(!occurs_at(rest, needle, one - from));
            }
            if from + two < one {
                assert(!occurs_at(data, needle, from + two));
            }
        },
        (Some(one), None) => {
            assert(!occurs_at(rest, needle, one - from));
        },
        (None, Some(two)) => {
            assert(occurs_at(rest, needle, two));
        },
        (None, None) => {},
    }
}

proof fn lemma_pieces_shift(data: Seq<u8>, needle: Seq<u8>, from: int, at: int)
    requires
        needle.len() > 0,
        0 <= from,
        0 <= at,
        from + at <= data.len(),
    ensures
        pieces(data, needle, from + at) == pieces(
            data.subrange(from, data.len() as int),
            needle,
            at,
        ),
    decreases data.len() - from - at,
{
    let rest = data.subrange(from, data.len() as int);
    lemma_index_shift(data, needle, from, at);
    lemma_index_of(data, needle, from + at);
    match index_of(rest, needle, at) {
        Some(found) => {
            lemma_pieces_shift(data, needle, from, found + needle.len());
            assert(rest.subrange(at, found) =~= data.subrange(from + at, from + found));
        },
        None => {
            assert(rest.subrange(at, rest.len() as int) =~= data.subrange(
                from + at,
                data.len() as int,
            ));
        },
    }
}

/// These pieces put together again, the first `limit` of the gaps between them filled with `new` and
/// the others with `old`.
pub open spec fn mended(parts: Seq<Seq<u8>>, old_text: Seq<u8>, new_text: Seq<u8>, limit: nat) -> Seq<u8>
    decreases parts.len(),
{
    if parts.len() == 0 {
        Seq::empty()
    } else if parts.len() == 1 {
        parts[0]
    } else {
        parts[0] + (if limit > 0 {
            new_text
        } else {
            old_text
        }) + mended(
            parts.drop_first(),
            old_text,
            new_text,
            if limit > 0 {
                (limit - 1) as nat
            } else {
                0
            },
        )
    }
}

/// Replacing with regard to case keeps every byte that stands between occurrences of the pattern, and
/// puts the replacement where the first so many of them stood; the others stay. There are as many
/// matches as there are places where the pattern stands, taken from the left without overlap.
pub proof fn replacing_fills_the_gaps(
    data: Seq<u8>,
    pattern: Seq<u8>,
    replacement: Seq<u8>,
    limit: nat,
)
    requires
        pattern.len() > 0,
    ensures
        replaced(data, pattern, replacement, false, limit) == mended(
            pieces(data, pattern, 0),
            pattern,
            replacement,
            limit,
        ),
        match_count(data, pattern, false) == pieces(data, pattern, 0).len() - 1,
    decreases data.len(),
{
    let parts = pieces(data, pattern, 0);
    lemma_index_of(data, pattern, 0);
    match index_of(data, pattern, 0) {
        Some(at) => {
            let next = at + pattern.len();
            let rest = data.subrange(next, data.len() as int);
            lemma_pieces_shift(data, pattern, next, 0);
            let later = pieces(rest, pattern, 0);
            assert(parts == seq![data.subrange(0, at)] + later);
            assert(parts.drop_first() =~= later);
            replacing_fills_the_gaps(
                rest,
                pattern,
                replacement,
                if limit > 0 {
                    (limit - 1) as nat
                } else {
                    0
                },
            );
            assert(match_in(data, pattern, false) == Some((at, pattern.len() as int)));
            if limit == 0 {
                assert(data.subrange(at, next) == pattern);
                assert(mended(later, pattern, replacement, 0) == rest);
                assert(data.subrange(0, at) + pattern + rest =~= data);
            }
        },
        None => {
            assert(data.subrange(0, data.len() as int) =~= data);
            assert(parts =~= seq![data]);
        },
    }
}

/// Replacing every occurrence, of which `limit` is no fewer, is cutting the text at the pattern and
/// joining it again with the replacement.
pub proof fn replacing_everywhere_rejoins_the_pieces(
    data: Seq<u8>,
    pattern: Seq<u8>,
    replacement: Seq<u8>,
    limit: nat,
)
    requires
        pattern.len() > 0,
        match_count(data, pattern, false) <= limit,
    ensures
        replaced(data, pattern, replacement, false, limit) == fields_joined(
            pieces(data, pattern, 0),
            replacement,
        ),
{
    replacing_fills_the_gaps(data, pattern, replacement, limit);
    lemma_mended_everywhere(pieces(data, pattern, 0), pattern, replacement, limit);
}

proof fn lemma_mended_everywhere(
    parts: Seq<Seq<u8>>,
    old_text: Seq<u8>,
    new_text: Seq<u8>,
    limit: nat,
)
    requires
        parts.len() <= limit + 1,
    ensures
        mended(parts, old_text, new_text, limit) == fields_joined(parts, new_text),
    decreases parts.len(),
{
    if parts.len() > 1 {
        lemma_mended_everywhere(parts.drop_first(), old_text, new_text, (limit - 1) as nat);
    }
}

/// A run by substring replaces as many occurrences as it was asked to: every one, the first, or, where
/// it asserts that there is one, that one; with none or several it replaces nothing and says how many
/// there are.
pub proof fn a_run_replaces_what_was_asked(args: Args, data: Seq<u8>)
    requires
        args.match_kind == Match::Substring,
        !args.ignore_case,
        encode_utf8(args.pattern@).len() > 0,
        data.len() <= usize::MAX,
    ensures
        ({
            let pattern = encode_utf8(args.pattern@);
            let replacement = encode_utf8(args.replacement@);
            let parts = pieces(data, pattern, 0);
            let found = parts.len() - 1;
            match args.occurrences {
                Occurrences::All => edited(args, data) matches Ok(done) && done.content
                    == fields_joined(parts, replacement) && done.replacements == found,
                Occurrences::First => edited(args, data) matches Ok(done) && done.content
                    == mended(parts, pattern, replacement, 1) && done.replacements == if found > 0 {
                    1int
                } else {
                    0
                },
                Occurrences::One => if found == 1 {
                    edited(args, data) matches Ok(done) && done.content == parts[0] + replacement
                        + parts[1] && done.replacements == 1
                } else {
                    edited(args, data) matches Err(count) && count == found
                },
            }
        }),
{
    let pattern = encode_utf8(args.pattern@);
    let replacement = encode_utf8(args.replacement@);
    let parts = pieces(data, pattern, 0);
    replacing_fills_the_gaps(data, pattern, replacement, 1);
    replacing_fills_the_gaps(data, pattern, replacement, usize::MAX as nat);
    lemma_count_bounded(data, pattern);
    lemma_mended_everywhere(parts, pattern, replacement, usize::MAX as nat);
    if parts.len() == 2 {
        assert(parts.drop_first() =~= seq![parts[1]]);
        reveal_with_fuel(mended, 3);
    }
}

proof fn lemma_count_bounded(data: Seq<u8>, pattern: Seq<u8>)
    requires
        pattern.len() > 0,
    ensures
        match_count(data, pattern, false) <= data.len(),
    decreases data.len(),
{
    match match_in(data, pattern, false) {
        Some((offset, length)) => {
            if 0 <= offset && 0 < length && offset + length <= data.len() {
                lemma_count_bounded(data.subrange(offset + length, data.len() as int), pattern);
            }
        },
        None => {},
    }
}

/// A text that holds no line feed and no carriage return is one line: it keeps its bytes and takes the
/// terminator, and no text stays no text.
pub proof fn a_line_of_text_takes_the_terminator(text: Seq<u8>, terminator: Seq<u8>)
    requires
        !text.contains('\n' as u8),
        !text.contains('\r' as u8),
    ensures
        rejoined(text, terminator) == text,
        line_text(text, terminator) == if text.len() == 0 {
            Seq::<u8>::empty()
        } else {
            text + terminator
        },
{
    assert(text.len() > 0 ==> text.contains(text.last()));
    let bare = without_last(text, 0x0A);
    assert(bare == text);
    lemma_byte_position(bare, 0x0A, 0);
    let end = byte_position(bare, 0x0A, 0);
    if end < bare.len() {
        assert(text.contains(bare[end]));
    }
    assert(bare.subrange(0, bare.len() as int) =~= text);
}

/// An edit of the one line that a name names leaves every byte in front of it and behind it: the line
/// is replaced by one that ends the way it did, or, where no text is given, taken out with its
/// terminator; a line put behind or in front of it leaves the line itself.
pub proof fn one_named_line_is_edited_in_place(
    data: Seq<u8>,
    newlines: Newlines,
    name: HashPrefix,
    line: Line,
    text: Seq<u8>,
    occurrences: Occurrences,
    placement: Placement,
)
    requires
        named_from(data, 0, newlines, name) == seq![line],
        !text.contains('\n' as u8),
        !text.contains('\r' as u8),
        0 <= line.start <= line.end <= data.len(),
        line.terminator(data).len() > 0,
    ensures
        ({
            let front = data.subrange(0, line.start);
            let whole = data.subrange(line.start, line.end);
            let back = data.subrange(line.end, data.len() as int);
            let ending = line.terminator(data);
            resolved(data, newlines, name, placement, occurrences, text) matches Ok(all)
                && all.len() == 1 && patched(data, all, 0) == match placement {
                Placement::Over => if text.len() == 0 {
                    front + back
                } else {
                    front + text + ending + back
                },
                Placement::After => if text.len() == 0 {
                    data
                } else {
                    front + whole + text + ending + back
                },
                Placement::Before => if text.len() == 0 {
                    data
                } else {
                    front + text + ending + whole + back
                },
            }
        }),
{
    let named = seq![line];
    let borrowed = prevailing(data, newlines);
    let front = data.subrange(0, line.start);
    let whole = data.subrange(line.start, line.end);
    let back = data.subrange(line.end, data.len() as int);
    let ending = line.terminator(data);
    a_line_of_text_takes_the_terminator(text, ending);
    let all = patches_of(data, named, placement, text, borrowed);
    let patch = patch_of(data, line, placement, text, borrowed);
    assert(all =~= seq![patch]);
    assert(named.take(1) =~= named);
    assert(all.drop_first() =~= Seq::empty());
    reveal_with_fuel(patched, 2);
    assert(patched(data, all, 0) == data.subrange(0, patch.start) + patch.text + data.subrange(
        patch.end,
        data.len() as int,
    ));
    match placement {
        Placement::Over => {
            if text.len() == 0 {
                assert(patched(data, all, 0) =~= front + back);
            } else {
                assert(patched(data, all, 0) =~= front + text + ending + back);
            }
        },
        Placement::After => {
            if text.len() == 0 {
                assert(patched(data, all, 0) =~= data);
            } else {
                assert(patched(data, all, 0) =~= front + whole + text + ending + back);
            }
        },
        Placement::Before => {
            if text.len() == 0 {
                assert(patched(data, all, 0) =~= data);
            } else {
                assert(patched(data, all, 0) =~= front + text + ending + whole + back);
            }
        },
    }
}

/// What ends a line that is cut at line feeds: the carriage return in front of the line feed belongs
/// to it, and nothing else does.
pub proof fn a_return_and_a_feed_end_a_line(data: Seq<u8>, from: int)
    requires
        0 <= from < data.len(),
    ensures
        ({
            let line = line_at(data, from, Newlines::Lf);
            let body = line.body(data);
            let ending = line.terminator(data);
            &&& line.whole(data) == body + ending
            &&& line.cut < data.len() ==> ending =~= seq![0x0Au8] || ending =~= seq![
                0x0Du8,
                0x0Au8,
            ]
            &&& line.cut < data.len() && ending.len() == 1 ==> body.len() == 0 || body.last() != 0x0D
            &&& line.cut == data.len() ==> ending.len() == 0 || ending =~= seq![0x0Du8]
            &&& !body.contains(0x0A)
        }),
{
    let line = line_at(data, from, Newlines::Lf);
    lemma_lines_step(data, from, Newlines::Lf);
    lemma_next_break(data, from, Newlines::Lf);
    let body = line.body(data);
    let ending = line.terminator(data);
    assert(line.whole(data) =~= body + ending);
    if line.cut < data.len() {
        assert(data[line.cut] == 0x0A);
        assert(line.end == line.cut + 1);
        if ending.len() == 2 {
            assert(ending =~= seq![0x0Du8, 0x0Au8]);
        } else {
            assert(ending =~= seq![0x0Au8]);
        }
    } else if ending.len() > 0 {
        assert(ending =~= seq![0x0Du8]);
    }
    assert forall|i: int| 0 <= i < body.len() implies body[i] != 0x0A by {
        assert(crate::lines::newline_at(data, from + i, Newlines::Lf) == 0);
    }
}

proof fn lemma_prevailing(data: Seq<u8>, at: int, newlines: Newlines, so_far: Seq<u8>)
    requires
        0 <= at <= data.len(),
    ensures
        ({
            let all = lines(data, at, newlines);
            let last = prevailing_from(data, at, newlines, so_far);
            &&& (forall|i: int|
                0 <= i < all.len() ==> (#[trigger] all[i]).terminator(data).len() == 0) ==> last
                == so_far
            &&& forall|i: int|
                0 <= i < all.len() && (#[trigger] all[i]).terminator(data).len() > 0 && (forall|
                    j: int,
                |
                    i < j < all.len() ==> (#[trigger] all[j]).terminator(data).len() == 0) ==> last
                    == all[i].terminator(data)
        }),
    decreases data.len() - at,
{
    if at < data.len() {
        let all = lines(data, at, newlines);
        let line = line_at(data, at, newlines);
        lemma_lines_step(data, at, newlines);
        lemma_line_at(data, at, newlines);
        let next = if line.terminator(data).len() > 0 {
            line.terminator(data)
        } else {
            so_far
        };
        lemma_prevailing(data, line.end, newlines, next);
        let rest = lines(data, line.end, newlines);
        assert(forall|i: int| 0 <= i < rest.len() ==> rest[i] == all[i + 1]);
        assert(all.len() == rest.len() + 1);
        let last = prevailing_from(data, at, newlines, so_far);
        assert forall|i: int|
            0 <= i < all.len() && (#[trigger] all[i]).terminator(data).len() > 0 && (forall|j: int|
                i < j < all.len() ==> (#[trigger] all[j]).terminator(data).len() == 0) implies last
            == all[i].terminator(data) by {
            if i > 0 {
                assert(rest[i - 1] == all[i]);
                assert forall|j: int| i - 1 < j < rest.len() implies (
                #[trigger] rest[j]).terminator(data).len() == 0 by {
                    assert(rest[j] == all[j + 1]);
                }
            } else {
                assert forall|j: int| 0 <= j < rest.len() implies (#[trigger] rest[j]).terminator(
                    data,
                ).len() == 0 by {
                    assert(rest[j] == all[j + 1]);
                }
            }
        }
        if forall|i: int| 0 <= i < all.len() ==> (#[trigger] all[i]).terminator(data).len() == 0 {
            assert(all[0] == line);
            assert forall|j: int| 0 <= j < rest.len() implies (#[trigger] rest[j]).terminator(
                data,
            ).len() == 0 by {
                assert(rest[j] == all[j + 1]);
            }
        }
    }
}

/// A line that needs a terminator and has none borrows that of the last line that has one, and a line
/// feed where no line has.
pub proof fn the_last_terminator_is_borrowed(data: Seq<u8>, newlines: Newlines)
    ensures
        ({
            let all = lines(data, 0, newlines);
            &&& (forall|i: int|
                0 <= i < all.len() ==> (#[trigger] all[i]).terminator(data).len() == 0)
                ==> prevailing(data, newlines) == seq!['\n' as u8]
            &&& forall|i: int|
                0 <= i < all.len() && (#[trigger] all[i]).terminator(data).len() > 0 && (forall|
                    j: int,
                |
                    i < j < all.len() ==> (#[trigger] all[j]).terminator(data).len() == 0)
                    ==> prevailing(data, newlines) == all[i].terminator(data)
        }),
{
    reveal_strlit("\n");
    lemma_ascii_bytes("\n"@);
    assert(lit("\n") =~= seq!['\n' as u8]);
    lemma_prevailing(data, 0, newlines, lit("\n"));
}

} // verus!
