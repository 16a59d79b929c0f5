//! Where a window may be cut without splitting a record.

use vstd::prelude::*;
use vstd::utf8::{
    is_char_boundary, is_char_boundary_iff_not_is_continuation_byte, is_continuation_byte,
    length_of_first_scalar, pop_first_scalar, valid_utf8, valid_utf8_split,
};

use crate::bytes::LF;
use crate::lines::{
    lemma_break_is, lemma_lines_step, lemma_next_break, line_at, lines, newline_at, next_break,
    Line, Newlines,
};
use crate::sz::{last_index_of, rfind, rfind_byteset};

verus! {

/// Where a window may be cut for a given segmenter. A cut is safe exactly where that segmenter
/// returns to its initial state. The variants run weakest first: a consumer that reads bytes one
/// at a time cuts anywhere, and each one below reads further ahead than the last.
#[derive(Clone, Copy, PartialEq, Eq, Structural, Debug)]
pub enum CutAfter {
    /// Every byte, so the window is consumed whole and nothing carries.
    Anywhere,
    /// Between characters, so a multi-byte UTF-8 sequence is never split.
    Characters,
    /// LF alone, which is where a byte-level line splitter breaks.
    LineFeed,
    /// Every Unicode mandatory line terminator: LF, CRLF, VT, FF, NEL, LS, PS.
    LineTerminators,
    /// Paragraph separators only. VT and FF end a line but not a sentence.
    ParagraphSeparators,
}

/// The cut set of a newline set: a line splitter cuts wherever it breaks.
pub open spec fn cut_for(newlines: Newlines) -> CutAfter {
    match newlines {
        Newlines::Lf => CutAfter::LineFeed,
        Newlines::Unicode => CutAfter::LineTerminators,
    }
}

impl vstd::std_specs::convert::FromSpecImpl<Newlines> for CutAfter {
    open spec fn obeys_from_spec() -> bool {
        true
    }

    open spec fn from_spec(newlines: Newlines) -> Self {
        cut_for(newlines)
    }
}

impl From<Newlines> for CutAfter {
    /// A line splitter cuts wherever it breaks, so its newline set is its cut set.
    fn from(newlines: Newlines) -> (cut: Self) {
        match newlines {
            Newlines::Lf => CutAfter::LineFeed,
            Newlines::Unicode => CutAfter::LineTerminators,
        }
    }
}

/// Where a walk back from `end` to the start of a character stops, never below `floor`.
pub open spec fn character_start(line: Seq<u8>, end: int, floor: int) -> int
    decreases end - floor,
{
    if end > floor && 0 <= end < line.len() && is_continuation_byte(line[end]) {
        character_start(line, end - 1, floor)
    } else {
        end
    }
}

/// How much of `line` survives a limit of `max_bytes`: everything where it fits, and otherwise up
/// to the start of the character that crosses the limit. A UTF-8 sequence is at most four bytes,
/// so the walk back to that start is at most three.
pub open spec fn truncation_point(line: Seq<u8>, max_bytes: int) -> int {
    if line.len() <= max_bytes {
        line.len() as int
    } else {
        character_start(
            line,
            max_bytes,
            if max_bytes >= 3 {
                max_bytes - 3
            } else {
                0
            },
        )
    }
}

/// Trim `line` to at most `max_bytes`, returning the kept prefix and whether anything was
/// dropped. Lands on a codepoint boundary, so combining marks and emoji sequences can still be
/// split.
pub fn truncate_at_character(line: &[u8], max_bytes: usize) -> (kept: (&[u8], bool))
    ensures
        kept.0@ == line@.subrange(0, truncation_point(line@, max_bytes as int)),
        kept.1 == (line@.len() > max_bytes),
        0 <= truncation_point(line@, max_bytes as int) <= max_bytes,
        truncation_point(line@, max_bytes as int) <= line@.len(),
        truncation_point(line@, max_bytes as int) >= max_bytes - 3 || truncation_point(
            line@,
            max_bytes as int,
        ) == line@.len(),
{
    if line.len() <= max_bytes {
        assert(line@.subrange(0, line@.len() as int) =~= line@);
        return (line, false);
    }
    let floor: usize = if max_bytes >= 3 {
        max_bytes - 3
    } else {
        0
    };
    let mut end: usize = max_bytes;
    while end > floor && line[end] >= 0x80 && line[end] <= 0xBF
        invariant
            floor <= end <= max_bytes < line@.len(),
            character_start(line@, max_bytes as int, floor as int) == character_start(
                line@,
                end as int,
                floor as int,
            ),
        decreases end,
    {
        end -= 1;
    }
    (&line[0..end], true)
}

/// No character of valid UTF-8 continues for four bytes.
proof fn lemma_no_long_run(data: Seq<u8>, at: int)
    requires
        valid_utf8(data),
        0 <= at,
        at + 4 <= data.len(),
    ensures
        !(is_continuation_byte(data[at]) && is_continuation_byte(data[at + 1])
            && is_continuation_byte(data[at + 2]) && is_continuation_byte(data[at + 3])),
    decreases data.len(),
{
    let length = length_of_first_scalar(data);
    let rest = pop_first_scalar(data);
    assert(valid_utf8(rest));
    if at >= length {
        assert(rest[at - length] == data[at]);
        assert(rest[at - length + 1] == data[at + 1]);
        assert(rest[at - length + 2] == data[at + 2]);
        assert(rest[at - length + 3] == data[at + 3]);
        lemma_no_long_run(rest, at - length);
    } else if length < data.len() {
        assert(rest[0] == data[length]);
    }
}

/// The first byte of valid UTF-8 starts a character.
proof fn lemma_first_byte(data: Seq<u8>)
    requires
        valid_utf8(data),
        data.len() > 0,
    ensures
        !is_continuation_byte(data[0]),
{
}

/// Truncated UTF-8 ends between characters: every limit lands on a character boundary of valid
/// text, the last one that it reaches.
pub proof fn truncation_lands_on_a_boundary(line: Seq<u8>, max_bytes: nat)
    requires
        valid_utf8(line),
        max_bytes < line.len(),
    ensures
        ({
            let end = truncation_point(line, max_bytes as int);
            &&& 0 <= end <= max_bytes
            &&& is_char_boundary(line, end)
            &&& valid_utf8(line.subrange(0, end))
            &&& forall|at: int|
                end < at <= max_bytes ==> is_continuation_byte(#[trigger] line[at])
        }),
{
    let max = max_bytes as int;
    let floor = if max >= 3 {
        max - 3
    } else {
        0
    };
    reveal_with_fuel(character_start, 5);
    lemma_first_byte(line);
    if max >= 3 && is_continuation_byte(line[max]) && is_continuation_byte(line[max - 1])
        && is_continuation_byte(line[max - 2]) {
        lemma_no_long_run(line, max - 3);
    }
    let end = truncation_point(line, max);
    is_char_boundary_iff_not_is_continuation_byte(line, end);
    valid_utf8_split(line, end);
}

/// A window of valid UTF-8 that is cut between characters is cut where one starts, whatever follows
/// the window.
pub proof fn whole_characters_are_kept(data: Seq<u8>, more: Seq<u8>)
    requires
        valid_utf8(data + more),
        data.len() > 0,
    ensures
        ({
            let end = whole_prefix(data);
            let whole = data + more;
            &&& 0 <= end < data.len()
            &&& !is_continuation_byte(whole[end])
            &&& valid_utf8(whole.subrange(0, end))
            &&& valid_utf8(whole.subrange(end, whole.len() as int))
        }),
{
    let whole = data + more;
    let max = data.len() - 1;
    reveal_with_fuel(character_start, 5);
    lemma_first_byte(whole);
    assert(forall|at: int| 0 <= at < data.len() ==> whole[at] == data[at]);
    if max >= 3 && is_continuation_byte(data[max]) && is_continuation_byte(data[max - 1])
        && is_continuation_byte(data[max - 2]) {
        lemma_no_long_run(whole, max - 3);
    }
    let end = whole_prefix(data);
    is_char_boundary_iff_not_is_continuation_byte(whole, end);
    valid_utf8_split(whole, end);
}

/// Whether the byte at `at` closes a terminator of this cut set whose whole encoding lies inside
/// `data`. A carriage return at the very end closes nothing: its line feed may still be coming.
pub open spec fn closes(data: Seq<u8>, at: int, cut: CutAfter) -> bool {
    &&& 0 <= at < data.len()
    &&& match cut {
        CutAfter::LineFeed => data[at] == 0x0A,
        CutAfter::LineTerminators => {
            ||| data[at] == 0x0A || data[at] == 0x0B || data[at] == 0x0C
            ||| closes_a_paragraph(data, at)
        },
        CutAfter::ParagraphSeparators => {
            ||| data[at] == 0x0A
            ||| closes_a_paragraph(data, at)
        },
        _ => false,
    }
}

/// Whether the byte at `at` closes one of the separators that end a paragraph, LF aside.
pub open spec fn closes_a_paragraph(data: Seq<u8>, at: int) -> bool {
    ||| data[at] == 0x0D && at + 1 < data.len()
    ||| data[at] == 0x85 && at >= 1 && data[at - 1] == 0xC2
    ||| (data[at] == 0xA8 || data[at] == 0xA9) && at >= 2 && data[at - 2] == 0xE2 && data[at - 1]
        == 0x80
}

/// One past the last closing byte before `end`, if there is any.
pub open spec fn last_close(data: Seq<u8>, end: int, cut: CutAfter) -> Option<int>
    decreases end,
{
    if end <= 0 {
        None
    } else if closes(data, end - 1, cut) {
        Some(end)
    } else {
        last_close(data, end - 1, cut)
    }
}

/// One past the last complete cut point in `data`, or nothing where `data` holds no complete
/// record.
pub open spec fn cut_point(data: Seq<u8>, cut: CutAfter) -> Option<int> {
    match cut {
        CutAfter::Anywhere => if data.len() > 0 {
            Some(data.len() as int)
        } else {
            None
        },
        CutAfter::Characters => if whole_prefix(data) > 0 {
            Some(whole_prefix(data))
        } else {
            None
        },
        _ => last_close(data, data.len() as int, cut),
    }
}

/// The length of the prefix that ends between characters, its last character left out because it
/// may be incomplete.
pub open spec fn whole_prefix(data: Seq<u8>) -> int {
    if data.len() == 0 {
        0
    } else {
        truncation_point(data, data.len() - 1)
    }
}

/// The last cut at or before `end` is one, and none stands behind it.
pub proof fn lemma_last_close(data: Seq<u8>, end: int, cut: CutAfter)
    requires
        0 <= end <= data.len(),
    ensures
        match last_close(data, end, cut) {
            Some(found) => 0 < found <= end && closes(data, found - 1, cut) && forall|at: int|
                found <= at < end ==> !closes(data, at, cut),
            None => forall|at: int| 0 <= at < end ==> !closes(data, at, cut),
        },
    decreases end,
{
    if end > 0 && !closes(data, end - 1, cut) {
        lemma_last_close(data, end - 1, cut);
    }
}

/// A cut point lies inside the data.
pub proof fn lemma_cut_point(data: Seq<u8>, cut: CutAfter)
    ensures
        cut_point(data, cut) matches Some(end) ==> 0 < end <= data.len(),
{
    lemma_last_close(data, data.len() as int, cut);
    if data.len() > 0 {
        let max = data.len() - 1;
        lemma_character_start(
            data,
            max,
            if max >= 3 {
                max - 3
            } else {
                0
            },
        );
    }
}

proof fn lemma_character_start(line: Seq<u8>, end: int, floor: int)
    requires
        floor <= end,
    ensures
        floor <= character_start(line, end, floor) <= end,
    decreases end - floor,
{
    if end > floor {
        lemma_character_start(line, end - 1, floor);
    }
}

proof fn lemma_last_close_is(data: Seq<u8>, end: int, cut: CutAfter, found: Option<int>)
    requires
        0 <= end <= data.len(),
        match found {
            Some(found) => 0 < found <= end && closes(data, found - 1, cut) && forall|at: int|
                found <= at < end ==> !closes(data, at, cut),
            None => forall|at: int| 0 <= at < end ==> !closes(data, at, cut),
        },
    ensures
        last_close(data, end, cut) == found,
{
    lemma_last_close(data, end, cut);
}

/// Byte offset one past the last complete cut point in `data` — the point where a window cuts
/// without splitting a record. `None` when `data` holds no complete record.
///
/// A trailing bare CR is never reported: its LF may arrive in the next window, and cutting between
/// them would yield one extra record.
pub fn last_cut(data: &[u8], cut: CutAfter) -> (end: Option<usize>)
    ensures
        match end {
            Some(end) => cut_point(data@, cut) == Some(end as int) && 0 < end <= data@.len(),
            None => cut_point(data@, cut) is None,
        },
{
    match cut {
        CutAfter::Anywhere => if data.len() > 0 {
            Some(data.len())
        } else {
            None
        },
        CutAfter::Characters => {
            let end: usize = whole_character_prefix(data);
            if end > 0 {
                Some(end)
            } else {
                None
            }
        },
        CutAfter::LineFeed => {
            let needle: [u8; 1] = [LF];
            let found = rfind(data, needle.as_slice());
            proof {
                lemma_rfind_byte(data@, LF, needle@, data@.len() as int);
            }
            match found {
                Some(position) => {
                    assert(position < data.len());
                    Some(position + 1)
                },
                None => None,
            }
        },
        CutAfter::LineTerminators => {
            let tails: [u8; 7] = [0x0A, 0x0B, 0x0C, 0x0D, 0x85, 0xA8, 0xA9];
            proof {
                lemma_tails(tails@, cut);
            }
            last_unicode_cut(data, tails.as_slice(), cut)
        },
        CutAfter::ParagraphSeparators => {
            let tails: [u8; 5] = [0x0A, 0x0D, 0x85, 0xA8, 0xA9];
            proof {
                lemma_tails(tails@, cut);
            }
            last_unicode_cut(data, tails.as_slice(), cut)
        },
    }
}

proof fn lemma_rfind_byte(data: Seq<u8>, byte: u8, needle: Seq<u8>, from: int)
    requires
        byte == LF,
        needle =~= seq![byte],
        0 <= from <= data.len(),
    ensures
        match last_index_of(data, needle, from) {
            Some(at) => 0 <= at < data.len() && last_close(
                data,
                if from < data.len() {
                    from + 1
                } else {
                    from
                },
                CutAfter::LineFeed,
            ) == Some(at + 1),
            None => last_close(
                data,
                if from < data.len() {
                    from + 1
                } else {
                    from
                },
                CutAfter::LineFeed,
            ) is None,
        },
    decreases from,
{
    if from < data.len() {
        assert(data.subrange(from, from + 1) =~= seq![data[from]]);
        assert(seq![data[from]][0] == data[from]);
        assert(seq![byte][0] == byte);
    }
    if from > 0 {
        lemma_rfind_byte(data, byte, needle, from - 1);
    } else {
        reveal_with_fuel(last_index_of, 2);
        reveal_with_fuel(last_close, 2);
    }
}

/// The bytes that can close a terminator of this cut set.
spec fn is_tail_set(tails: Seq<u8>, cut: CutAfter) -> bool {
    forall|byte: u8| #[trigger]
        tails.contains(byte) <==> (byte == 0x0A || byte == 0x0D || byte == 0x85 || byte == 0xA8
            || byte == 0xA9 || (cut == CutAfter::LineTerminators && (byte == 0x0B || byte == 0x0C)))
}

proof fn lemma_tails(tails: Seq<u8>, cut: CutAfter)
    requires
        cut == CutAfter::LineTerminators ==> tails =~= seq![
            0x0A,
            0x0B,
            0x0C,
            0x0D,
            0x85,
            0xA8,
            0xA9,
        ],
        cut == CutAfter::ParagraphSeparators ==> tails =~= seq![0x0A, 0x0D, 0x85, 0xA8, 0xA9],
        cut == CutAfter::LineTerminators || cut == CutAfter::ParagraphSeparators,
    ensures
        is_tail_set(tails, cut),
{
    if cut == CutAfter::LineTerminators {
        assert(tails[0] == 0x0A && tails[1] == 0x0B && tails[2] == 0x0C && tails[3] == 0x0D
            && tails[4] == 0x85 && tails[5] == 0xA8 && tails[6] == 0xA9);
    } else {
        assert(tails[0] == 0x0A && tails[1] == 0x0D && tails[2] == 0x85 && tails[3] == 0xA8
            && tails[4] == 0xA9);
    }
}

/// Length of the window prefix that ends between characters. The window's last character may be
/// incomplete, so trimming to one byte short of the end is what hands it to the next window whole.
fn whole_character_prefix(data: &[u8]) -> (end: usize)
    ensures
        end == whole_prefix(data@),
        end <= data@.len(),
{
    if data.len() == 0 {
        0
    } else {
        truncate_at_character(data, data.len() - 1).0.len()
    }
}

/// Reverse-scan for a terminator whose whole encoding lies inside `data`, rejecting a tail byte
/// that only looks like one — `85`, `A8` and `A9` also close unrelated codepoints. `tails` selects
/// the cut set, so VT and FF count only among the line terminators.
fn last_unicode_cut(data: &[u8], tails: &[u8], cut: CutAfter) -> (end: Option<usize>)
    requires
        cut == CutAfter::LineTerminators || cut == CutAfter::ParagraphSeparators,
        is_tail_set(tails@, cut),
    ensures
        match end {
            Some(end) => last_close(data@, data@.len() as int, cut) == Some(end as int) && 0 < end
                <= data@.len(),
            None => last_close(data@, data@.len() as int, cut) is None,
        },
{
    let mut searched: usize = data.len();
    loop
        invariant
            searched <= data@.len(),
            cut == CutAfter::LineTerminators || cut == CutAfter::ParagraphSeparators,
            is_tail_set(tails@, cut),
            forall|at: int| searched <= at < data@.len() ==> !closes(data@, at, cut),
        decreases searched,
    {
        let window: &[u8] = &data[0..searched];
        let found = rfind_byteset(window, tails);
        match found {
            None => {
                proof {
                    assert forall|at: int| 0 <= at < data@.len() implies !closes(
                        data@,
                        at,
                        cut,
                    ) by {
                        if at < searched {
                            assert(window@[at] == data@[at]);
                        }
                    }
                    lemma_last_close_is(data@, data@.len() as int, cut, None);
                }
                return None;
            },
            Some(position) => {
                let byte: u8 = data[position];
                assert(byte == window@[position as int]);
                // CR terminates on its own, unless the LF that would join it is still coming.
                let complete = if byte == 0x0D {
                    position + 1 < data.len()
                } else if byte == 0x0A || byte == 0x0B || byte == 0x0C {
                    true
                } else if byte == 0x85 {
                    position >= 1 && data[position - 1] == 0xC2
                } else {
                    position >= 2 && data[position - 2] == 0xE2 && data[position - 1] == 0x80
                };
                proof {
                    assert forall|at: int| position < at < data@.len() implies !closes(
                        data@,
                        at,
                        cut,
                    ) by {
                        if at < searched {
                            assert(window@[at] == data@[at]);
                        }
                    }
                    assert(complete == closes(data@, position as int, cut));
                    if complete {
                        lemma_last_close_is(
                            data@,
                            data@.len() as int,
                            cut,
                            Some(position + 1),
                        );
                    }
                }
                if complete {
                    return Some(position + 1);
                }
                searched = position;
            },
        }
    }
}

/// Whether a line of `data` ends at `at`, whatever line it is and whatever follows: some
/// terminator ends there and none reaches across.
pub open spec fn line_boundary(data: Seq<u8>, at: int, newlines: Newlines) -> bool {
    &&& 0 < at <= data.len()
    &&& exists|start: int| 0 <= start < at && start + #[trigger] newline_at(data, start, newlines)
        == at && newline_at(data, start, newlines) > 0
    &&& forall|start: int|
        0 <= start < at ==> start + #[trigger] newline_at(data, start, newlines) <= at
}

/// Wherever a window is cut for a newline set, a line ends, and no later byte can change that.
pub proof fn lemma_cut_is_a_boundary(data: Seq<u8>, more: Seq<u8>, newlines: Newlines)
    requires
        cut_point(data, cut_for(newlines)) is Some,
    ensures
        line_boundary(
            data + more,
            cut_point(data, cut_for(newlines))->0,
            newlines,
        ),
{
    let cut: CutAfter = cut_for(newlines);
    let whole = data + more;
    lemma_last_close(data, data.len() as int, cut);
    let at = cut_point(data, cut)->0;
    assert(closes(data, at - 1, cut));
    match newlines {
        Newlines::Lf => {
            assert(newline_at(whole, at - 1, newlines) == 1);
        },
        Newlines::Unicode => {
            let byte = data[at - 1];
            if byte == 0x0D {
                // A line feed behind the carriage return would be a later cut point.
                assert(!closes(data, at, cut));
                assert(whole[at] == data[at]);
                assert(newline_at(whole, at - 1, newlines) == 1);
            } else if byte == 0x0A || byte == 0x0B || byte == 0x0C {
                assert(newline_at(whole, at - 1, newlines) == 1);
            } else if byte == 0x85 {
                assert(newline_at(whole, at - 2, newlines) == 2);
            } else {
                assert(newline_at(whole, at - 3, newlines) == 3);
            }
            assert forall|start: int| 0 <= start < at implies start + #[trigger] newline_at(
                whole,
                start,
                newlines,
            ) <= at by {
                assert(whole[at - 1] == byte);
                if start == at - 1 && byte == 0x0D {
                    assert(whole[at] == data[at]);
                    assert(!closes(data, at, cut));
                }
            }
        },
    }
}

/// Cutting a text where a line ends cuts its lines there too: the lines of the whole are the lines
/// in front of the cut and the lines behind it.
pub proof fn lines_split_at_a_boundary(data: Seq<u8>, at: int, newlines: Newlines)
    requires
        line_boundary(data, at, newlines),
    ensures
        lines(data, 0, newlines) == lines(data.subrange(0, at), 0, newlines) + lines(
            data,
            at,
            newlines,
        ),
{
    lemma_split_from(data, at, newlines, 0);
}

proof fn lemma_split_from(data: Seq<u8>, at: int, newlines: Newlines, from: int)
    requires
        line_boundary(data, at, newlines),
        0 <= from <= at,
        from < at ==> exists|start: int|
            from <= start < at && start + #[trigger] newline_at(data, start, newlines) == at
                && newline_at(data, start, newlines) > 0,
    ensures
        lines(data, from, newlines) == lines(data.subrange(0, at), from, newlines) + lines(
            data,
            at,
            newlines,
        ),
    decreases at - from,
{
    let front = data.subrange(0, at);
    if from < at {
        let start = choose|start: int|
            from <= start < at && start + #[trigger] newline_at(data, start, newlines) == at
                && newline_at(data, start, newlines) > 0;
        assert forall|i: int| 0 <= i < at implies newline_at(front, i, newlines) == newline_at(
            data,
            i,
            newlines,
        ) by {
            assert(i + newline_at(data, i, newlines) <= at);
        }
        lemma_next_break(data, from, newlines);
        let cut = next_break(data, from, newlines);
        assert(cut <= start) by {
            if cut > start {
                assert(newline_at(data, start, newlines) == 0);
            }
        }
        lemma_break_is(front, from, newlines, cut);
        let line = line_at(data, from, newlines);
        assert(line == line_at(front, from, newlines));
        lemma_lines_step(data, from, newlines);
        lemma_lines_step(front, from, newlines);
        assert(line.end <= at);
        if line.end < at {
            assert(start >= line.end);
        }
        lemma_split_from(data, at, newlines, line.end);
        assert(lines(data, from, newlines) =~= lines(front, from, newlines) + lines(
            data,
            at,
            newlines,
        ));
    } else {
        assert(lines(front, from, newlines) =~= Seq::empty());
        assert(lines(data, from, newlines) =~= Seq::<Line>::empty() + lines(data, at, newlines));
    }
}

/// The same line `by` bytes further on.
pub open spec fn shifted(line: Line, by: int) -> Line {
    Line { start: line.start + by, cut: line.cut + by, end: line.end + by }
}

/// The lines behind a point are the lines of what stands behind it, moved there.
pub proof fn lemma_lines_shift(data: Seq<u8>, at: int, from: int, newlines: Newlines)
    requires
        0 <= at <= from <= data.len(),
    ensures
        lines(data, from, newlines) == lines(
            data.subrange(at, data.len() as int),
            from - at,
            newlines,
        ).map_values(|line: Line| shifted(line, at)),
    decreases data.len() - from,
{
    let rest = data.subrange(at, data.len() as int);
    if from < data.len() {
        lemma_lines_step(data, from, newlines);
        lemma_next_break(data, from, newlines);
        let cut = next_break(data, from, newlines);
        assert forall|i: int| 0 <= i implies newline_at(rest, i, newlines) == newline_at(
            data,
            i + at,
            newlines,
        ) by {}
        lemma_break_is(rest, from - at, newlines, cut - at);
        let line = line_at(data, from, newlines);
        assert(line == shifted(line_at(rest, from - at, newlines), at));
        lemma_lines_step(rest, from - at, newlines);
        lemma_lines_shift(data, at, line.end, newlines);
        assert(lines(data, from, newlines) =~= lines(rest, from - at, newlines).map_values(
            |line: Line| shifted(line, at),
        ));
    } else {
        assert(lines(data, from, newlines) =~= lines(rest, from - at, newlines).map_values(
            |line: Line| shifted(line, at),
        ));
    }
}

/// Reading an input through windows cut for a newline set finds the lines of the whole input: a
/// window's lines, and then, moved by what the window consumed, the lines of everything behind it,
/// whatever that turns out to be.
pub proof fn windows_keep_lines_whole(window: Seq<u8>, more: Seq<u8>, newlines: Newlines)
    requires
        cut_point(window, cut_for(newlines)) is Some,
    ensures
        ({
            let at = cut_point(window, cut_for(newlines))->0;
            let whole = window + more;
            &&& 0 < at <= window.len()
            &&& lines(whole, 0, newlines) == lines(window.subrange(0, at), 0, newlines) + lines(
                whole.subrange(at, whole.len() as int),
                0,
                newlines,
            ).map_values(|line: Line| shifted(line, at))
        }),
{
    let at = cut_point(window, cut_for(newlines))->0;
    let whole = window + more;
    lemma_cut_is_a_boundary(window, more, newlines);
    lines_split_at_a_boundary(whole, at, newlines);
    lemma_last_close(
        window,
        window.len() as int,
        cut_for(newlines),
    );
    assert(whole.subrange(0, at) =~= window.subrange(0, at));
    lemma_lines_shift(whole, at, at, newlines);
}

/// A line is cut behind its line feed. Under the Unicode rules it is cut behind a vertical tab and a
/// form feed too, and like a paragraph behind NEL, LS and PS and behind a carriage return that more
/// follows.
pub proof fn a_cut_stands_behind_a_terminator(data: Seq<u8>, at: int)
    requires
        0 <= at < data.len(),
    ensures
        ({
            let front = data.take(at + 1);
            let paragraph = front.last() == '\n' as u8 || front.last() == '\r' as u8 && at + 1
                < data.len() || seq![0xC2u8, 0x85u8].is_suffix_of(front) || seq![
                0xE2u8,
                0x80u8,
                0xA8u8,
            ].is_suffix_of(front) || seq![0xE2u8, 0x80u8, 0xA9u8].is_suffix_of(front);
            &&& closes(data, at, CutAfter::LineFeed) <==> front.last() == '\n' as u8
            &&& closes(data, at, CutAfter::ParagraphSeparators) <==> paragraph
            &&& closes(data, at, CutAfter::LineTerminators) <==> paragraph || front.last() == 0x0B
                || front.last() == 0x0C
        }),
{
    let front = data.take(at + 1);
    let next = seq![0xC2u8, 0x85u8];
    let line = seq![0xE2u8, 0x80u8, 0xA8u8];
    let paragraph = seq![0xE2u8, 0x80u8, 0xA9u8];
    assert(front.last() == data[at]);
    if at >= 1 {
        let two = front.subrange(at - 1, at + 1);
        assert(two =~= seq![data[at - 1], data[at]]);
        assert(two[0] == data[at - 1] && two[1] == data[at]);
        assert(two == next <==> data[at - 1] == 0xC2 && data[at] == 0x85) by {
            if data[at - 1] == 0xC2 && data[at] == 0x85 {
                assert(two =~= next);
            }
            assert(next[0] == 0xC2 && next[1] == 0x85);
        }
    }
    if at >= 2 {
        let three = front.subrange(at - 2, at + 1);
        assert(three =~= seq![data[at - 2], data[at - 1], data[at]]);
        assert(three[0] == data[at - 2] && three[1] == data[at - 1] && three[2] == data[at]);
        assert(line[0] == 0xE2 && line[1] == 0x80 && line[2] == 0xA8);
        assert(paragraph[0] == 0xE2 && paragraph[1] == 0x80 && paragraph[2] == 0xA9);
        if data[at - 2] == 0xE2 && data[at - 1] == 0x80 {
            if data[at] == 0xA8 {
                assert(three =~= line);
            }
            if data[at] == 0xA9 {
                assert(three =~= paragraph);
            }
        }
    }
}

} // verus!
