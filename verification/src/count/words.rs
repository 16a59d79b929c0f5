//! Words: maximal runs of bytes between separators, under the byte rules or the Unicode rules.

use vstd::prelude::*;

use crate::lines::{newline_at, Newlines};
use crate::sz::{next_space, segments, space_at, whitespace_segments};

verus! {

/// How lines, words, and characters are delimited.
#[derive(Clone, Copy, Debug, PartialEq, Eq, Structural)]
pub enum Mode {
    /// `wc`-compatible: lines are newline bytes, so an unterminated final line does not count, and
    /// words are separated by the C `isspace` set.
    Posix,
    /// Byte-level, with an unterminated final line counted.
    Ascii,
    /// Unicode newlines and whitespace, with code point counting.
    Unicode,
}

impl Mode {
    /// Which newline set delimits lines.
    pub open spec fn newline_set(self) -> Newlines {
        match self {
            Mode::Unicode => Newlines::Unicode,
            _ => Newlines::Lf,
        }
    }

    /// Pick the mode named by the flags, which exclude each other.
    pub fn from_args(posix: bool, utf8: bool) -> (mode: Self)
        ensures
            mode == if posix {
                Mode::Posix
            } else if utf8 {
                Mode::Unicode
            } else {
                Mode::Ascii
            },
    {
        if posix {
            Mode::Posix
        } else if utf8 {
            Mode::Unicode
        } else {
            Mode::Ascii
        }
    }

    /// Which newline set delimits lines.
    pub fn newlines(self) -> (newlines: Newlines)
        ensures
            newlines == self.newline_set(),
    {
        match self {
            Mode::Posix | Mode::Ascii => Newlines::Lf,
            Mode::Unicode => Newlines::Unicode,
        }
    }

    /// Whether a final line without a terminator counts as a line. `wc -l` counts newline bytes, so
    /// it does not.
    pub fn counts_unterminated_line(self) -> (yes: bool)
        ensures
            yes == (self != Mode::Posix),
    {
        match self {
            Mode::Posix => false,
            Mode::Ascii | Mode::Unicode => true,
        }
    }

    /// Whether words are separated by Unicode whitespace rather than the C `isspace` set.
    pub fn separates_words_by_unicode(self) -> (yes: bool)
        ensures
            yes == (self == Mode::Unicode),
    {
        match self {
            Mode::Posix | Mode::Ascii => false,
            Mode::Unicode => true,
        }
    }

    /// Whether every newline this mode breaks lines on is also a word separator.
    pub open spec fn breaks_at_newlines(self) -> bool {
        forall|data: Seq<u8>, at: int|
            #![trigger newline_at(data, at, self.newline_set())]
            newline_at(data, at, self.newline_set()) > 0 ==> separates(data, at, self)
    }

    /// Whether every newline this mode breaks lines on is also a word separator, which is what lets
    /// words be counted without line bounds.
    pub fn newlines_separate_words(self) -> (yes: bool)
        ensures
            yes == self.breaks_at_newlines(),
    {
        match self.newlines() {
            // LF sits in the C `isspace` set.
            Newlines::Lf => is_posix_space(0x0A),
            // All seven Unicode newlines sit in the `White_Space` set.
            Newlines::Unicode => true,
        }
    }
}

/// C's `isspace` set: space plus the 0x09..=0x0D control run.
pub open spec fn posix_space(byte: u8) -> bool {
    byte == 0x20 || 0x09 <= byte <= 0x0D
}

/// C's `isspace` set: space plus the 0x09..=0x0D control run.
pub fn is_posix_space(byte: u8) -> (space: bool)
    ensures
        space == posix_space(byte),
{
    byte == 0x20 || (byte >= 0x09 && byte <= 0x0D)
}

/// Whether a separator of words begins at `at`.
pub open spec fn separates(data: Seq<u8>, at: int, mode: Mode) -> bool {
    0 <= at < data.len() && if mode == Mode::Unicode {
        space_at(data, at) > 0
    } else {
        posix_space(data[at])
    }
}

/// How many runs of bytes that are not `isspace` begin in `data`, given whether one is open at its
/// start.
pub open spec fn byte_runs(data: Seq<u8>, inside: bool) -> nat
    decreases data.len(),
{
    if data.len() == 0 {
        0
    } else {
        byte_runs(data.drop_last(), inside) + if !posix_space(data.last()) && !byte_open(
            data.drop_last(),
            inside,
        ) {
            1nat
        } else {
            0nat
        }
    }
}

/// Whether a run of bytes is open behind `data`, given whether one was open at its start.
pub open spec fn byte_open(data: Seq<u8>, inside: bool) -> bool {
    if data.len() == 0 {
        inside
    } else {
        !posix_space(data.last())
    }
}

/// How many of these segments hold anything.
pub open spec fn filled(parts: Seq<Seq<u8>>) -> nat
    decreases parts.len(),
{
    if parts.len() == 0 {
        0
    } else {
        filled(parts.drop_last()) + if parts.last().len() > 0 {
            1nat
        } else {
            0nat
        }
    }
}

/// How many words begin in `data`, given whether one is open at its start.
pub open spec fn words_begun(data: Seq<u8>, mode: Mode, inside: bool) -> nat {
    if mode == Mode::Unicode {
        let parts = segments(data, 0);
        (filled(parts) - if inside && parts[0].len() > 0 {
            1int
        } else {
            0
        }) as nat
    } else {
        byte_runs(data, inside)
    }
}

/// Whether a word is open behind `data`, given whether one was open at its start.
pub open spec fn word_open(data: Seq<u8>, mode: Mode, inside: bool) -> bool {
    if data.len() == 0 {
        inside
    } else if mode == Mode::Unicode {
        segments(data, 0).last().len() > 0
    } else {
        !posix_space(data.last())
    }
}

/// There is always a segment, and a segment that holds anything is counted.
pub proof fn lemma_segments(data: Seq<u8>, from: int)
    requires
        0 <= from <= data.len(),
    ensures
        segments(data, from).len() > 0,
        filled(segments(data, from)) <= data.len() - from,
        segments(data, from)[0].len() > 0 ==> filled(segments(data, from)) > 0,
    decreases data.len() + 1 - from,
{
    lemma_next_space(data, from);
    let end = next_space(data, from);
    let parts = segments(data, from);
    if end < data.len() {
        let head = seq![data.subrange(from, end)];
        let later = segments(data, end + space_at(data, end));
        lemma_segments(data, end + space_at(data, end));
        lemma_filled_joins(head, later);
        reveal_with_fuel(filled, 2);
        assert(head.drop_last() =~= Seq::empty());
    } else {
        reveal_with_fuel(filled, 2);
        assert(parts.drop_last() =~= Seq::empty());
    }
}

/// The next whitespace character is one, and nothing before it is.
pub proof fn lemma_next_space(data: Seq<u8>, from: int)
    requires
        0 <= from <= data.len(),
    ensures
        from <= next_space(data, from) <= data.len(),
        next_space(data, from) < data.len() ==> space_at(data, next_space(data, from)) > 0
            && next_space(data, from) + space_at(data, next_space(data, from)) <= data.len(),
        forall|at: int| from <= at < next_space(data, from) ==> space_at(data, at) == 0,
    decreases data.len() - from,
{
    if from < data.len() && space_at(data, from) == 0 {
        lemma_next_space(data, from + 1);
    }
}

/// Whatever answers to the description of the next whitespace character is the next one.
pub proof fn lemma_space_is(data: Seq<u8>, from: int, at: int)
    requires
        0 <= from <= at <= data.len(),
        at < data.len() ==> space_at(data, at) > 0,
        forall|earlier: int| from <= earlier < at ==> space_at(data, earlier) == 0,
    ensures
        next_space(data, from) == at,
    decreases at - from,
{
    if from < at {
        lemma_space_is(data, from + 1, at);
    }
}

/// Counting in two parts counts the whole.
pub proof fn lemma_filled_joins(one: Seq<Seq<u8>>, two: Seq<Seq<u8>>)
    ensures
        filled(one + two) == filled(one) + filled(two),
    decreases two.len(),
{
    if two.len() == 0 {
        assert(one + two =~= one);
    } else {
        assert((one + two).drop_last() =~= one + two.drop_last());
        lemma_filled_joins(one, two.drop_last());
    }
}

/// Count maximal runs of non-whitespace in one line.
pub fn count_words(line: &[u8], mode: Mode) -> (words: usize)
    ensures
        words == words_begun(line@, mode, false),
        words <= line@.len(),
{
    if mode.separates_words_by_unicode() {
        let parts = whitespace_segments(line);
        proof {
            lemma_segments(line@, 0);
            lemma_same_parts(parts@, segments(line@, 0));
        }
        return count_filled(parts.as_slice());
    }
    count_byte_runs(line)
}

fn count_byte_runs(line: &[u8]) -> (words: usize)
    ensures
        words == byte_runs(line@, false),
        words <= line@.len(),
{
    let mut words: usize = 0;
    let mut inside_word = false;
    let mut index: usize = 0;
    while index < line.len()
        invariant
            index <= line@.len(),
            words <= index,
            words == byte_runs(line@.take(index as int), false),
            inside_word == byte_open(line@.take(index as int), false),
        decreases line@.len() - index,
    {
        let separates = is_posix_space(line[index]);
        assert(line@.take(index + 1).drop_last() =~= line@.take(index as int));
        assert(line@.take(index + 1).last() == line@[index as int]);
        if !separates && !inside_word {
            words += 1;
        }
        inside_word = !separates;
        index += 1;
    }
    assert(line@.take(line@.len() as int) =~= line@);
    words
}

/// The segments as values.
pub open spec fn as_parts(parts: Seq<&[u8]>) -> Seq<Seq<u8>> {
    parts.map_values(|part: &[u8]| part@)
}

proof fn lemma_same_parts(parts: Seq<&[u8]>, values: Seq<Seq<u8>>)
    requires
        parts.len() == values.len(),
        forall|i: int| 0 <= i < parts.len() ==> (#[trigger] parts[i])@ == values[i],
    ensures
        as_parts(parts) == values,
{
    assert(as_parts(parts) =~= values);
}

fn count_filled(parts: &[&[u8]]) -> (count: usize)
    ensures
        count == filled(as_parts(parts@)),
{
    let mut count: usize = 0;
    let mut index: usize = 0;
    while index < parts.len()
        invariant
            index <= parts@.len(),
            count <= index,
            count == filled(as_parts(parts@).take(index as int)),
        decreases parts@.len() - index,
    {
        let ghost all = as_parts(parts@);
        assert(all.take(index + 1).drop_last() =~= all.take(index as int));
        assert(all.take(index + 1).last() == parts@[index as int]@);
        if parts[index].len() > 0 {
            count += 1;
        }
        index += 1;
    }
    assert(as_parts(parts@).take(parts@.len() as int) =~= as_parts(parts@));
    count
}

/// Count the runs [`count_words`] counts, discounting one the previous window left open and
/// reporting whether this window ends inside one, so a word a window boundary splits is counted
/// once.
pub fn count_words_resuming(data: &[u8], mode: Mode, inside_word: &mut bool) -> (words: usize)
    ensures
        words == words_begun(data@, mode, *old(inside_word)),
        *final(inside_word) == word_open(data@, mode, *old(inside_word)),
        words <= data@.len(),
{
    proof {
        lemma_segments(data@, 0);
    }
    if data.len() == 0 {
        assert(segments(data@, 0)[0].len() == 0);
        return 0;
    }
    let opened = *inside_word;
    if mode.separates_words_by_unicode() {
        // The splitter cuts on separators, so a run is empty exactly where two separators met, and
        // the outer two runs report which end of the window sits inside a word.
        let parts = whitespace_segments(data);
        proof {
            lemma_same_parts(parts@, segments(data@, 0));
        }
        let words: usize = count_filled(parts.as_slice());
        let opens = parts[0].len() > 0;
        *inside_word = parts[parts.len() - 1].len() > 0;
        return if opened && opens {
            words - 1
        } else {
            words
        };
    }
    proof {
        lemma_byte_runs_resume(data@);
    }
    let words: usize = count_byte_runs(data);
    *inside_word = !is_posix_space(data[data.len() - 1]);
    if opened && !is_posix_space(data[0]) {
        words - 1
    } else {
        words
    }
}

/// A run that was open already is not one that begins.
proof fn lemma_byte_runs_resume(data: Seq<u8>)
    requires
        data.len() > 0,
    ensures
        byte_runs(data, true) == byte_runs(data, false) - if posix_space(data[0]) {
            0int
        } else {
            1
        },
    decreases data.len(),
{
    if data.len() == 1 {
        reveal_with_fuel(byte_runs, 2);
    } else {
        lemma_byte_runs_resume(data.drop_last());
    }
}

/// Counting the runs of bytes of one part and then of the other, resuming where the first left off,
/// counts those of the whole.
pub proof fn lemma_byte_runs_join(one: Seq<u8>, two: Seq<u8>, inside: bool)
    ensures
        byte_runs(one + two, inside) == byte_runs(one, inside) + byte_runs(
            two,
            byte_open(one, inside),
        ),
        byte_open(one + two, inside) == byte_open(two, byte_open(one, inside)),
    decreases two.len(),
{
    if two.len() == 0 {
        assert(one + two =~= one);
    } else {
        assert((one + two).drop_last() =~= one + two.drop_last());
        assert((one + two).last() == two.last());
        lemma_byte_runs_join(one, two.drop_last(), inside);
    }
}

/// Whether no whitespace character reaches from one part into the other.
pub open spec fn unsplit(one: Seq<u8>, two: Seq<u8>) -> bool {
    forall|at: int| 0 <= at < one.len() ==> #[trigger] space_at(one + two, at) == space_at(one, at)
}

/// A character that begins the second part keeps every whitespace character in one part.
pub proof fn lemma_unsplit(one: Seq<u8>, two: Seq<u8>)
    requires
        two.len() > 0 ==> !(0x80 <= two[0] <= 0xBF),
    ensures
        unsplit(one, two),
{
    let whole = one + two;
    assert forall|at: int| 0 <= at < one.len() implies #[trigger] space_at(whole, at) == space_at(
        one,
        at,
    ) by {
        assert(whole[at] == one[at]);
        if at + 1 < one.len() {
            assert(whole[at + 1] == one[at + 1]);
        } else if at + 1 < whole.len() {
            assert(whole[at + 1] == two[0]);
        }
        if at + 2 < one.len() {
            assert(whole[at + 2] == one[at + 2]);
        } else if at + 2 == one.len() && two.len() > 0 {
            assert(whole[at + 2] == two[0]);
        }
    }
}

/// What stands behind a part splits as it does on its own.
proof fn lemma_segments_shift(one: Seq<u8>, two: Seq<u8>, from: int)
    requires
        0 <= from <= two.len(),
    ensures
        segments(one + two, one.len() + from) == segments(two, from),
        next_space(one + two, one.len() + from) == one.len() + next_space(two, from),
    decreases two.len() + 1 - from,
{
    let whole = one + two;
    assert forall|at: int| 0 <= at implies space_at(whole, one.len() + at) == space_at(two, at) by {}
    lemma_next_space(two, from);
    let end = next_space(two, from);
    assert forall|at: int| one.len() + from <= at < one.len() + end implies space_at(whole, at)
        == 0 by {
        assert(space_at(whole, one.len() + (at - one.len())) == space_at(two, at - one.len()));
    }
    lemma_space_is(whole, one.len() + from, one.len() + end);
    if end < two.len() {
        assert(whole.subrange(one.len() + from, one.len() + end) =~= two.subrange(from, end));
        lemma_segments_shift(one, two, end + space_at(two, end));
    } else {
        assert(whole.subrange(one.len() + from, whole.len() as int) =~= two.subrange(
            from,
            two.len() as int,
        ));
    }
}

/// Two parts split as the first does and then as the second does, the segments at the seam being
/// one.
proof fn lemma_segments_join(one: Seq<u8>, two: Seq<u8>, from: int)
    requires
        0 <= from <= one.len(),
        unsplit(one, two),
    ensures
        ({
            let front = segments(one, from);
            let back = segments(two, 0);
            segments(one + two, from) == front.drop_last() + seq![front.last() + back[0]]
                + back.drop_first()
        }),
    decreases one.len() + 1 - from,
{
    let whole = one + two;
    let front = segments(one, from);
    let back = segments(two, 0);
    lemma_segments(one, from);
    lemma_segments(two, 0);
    lemma_next_space(one, from);
    let end = next_space(one, from);
    if end < one.len() {
        let next = end + space_at(one, end);
        assert(space_at(whole, end) == space_at(one, end));
        lemma_space_is(whole, from, end);
        let later = segments(one, next);
        lemma_segments(one, next);
        lemma_segments_join(one, two, next);
        let head = one.subrange(from, end);
        assert(whole.subrange(from, end) =~= head);
        assert(front == seq![head] + later);
        assert(front.last() == later.last());
        assert(front.drop_last() =~= seq![head] + later.drop_last());
        assert(segments(whole, from) == seq![head] + segments(whole, next));
        assert(segments(whole, from) =~= front.drop_last() + seq![front.last() + back[0]]
            + back.drop_first());
    } else {
        let rest = one.subrange(from, one.len() as int);
        assert(front =~= seq![rest]);
        lemma_segments_shift(one, two, 0);
        lemma_next_space(two, 0);
        let after = next_space(two, 0);
        assert(next_space(whole, from) == one.len() + after) by {
            assert forall|at: int| from <= at < one.len() + after implies space_at(whole, at)
                == 0 by {
                if at < one.len() {
                    assert(space_at(whole, at) == space_at(one, at));
                } else {
                    assert(space_at(whole, one.len() + (at - one.len())) == space_at(
                        two,
                        at - one.len(),
                    ));
                }
            }
            if after < two.len() {
                assert(space_at(whole, one.len() + after) == space_at(two, after));
            }
            lemma_space_is(whole, from, one.len() + after);
        }
        if after < two.len() {
            let next = after + space_at(two, after);
            lemma_segments_shift(one, two, next);
            assert(space_at(whole, one.len() + after) == space_at(two, after));
            assert(whole.subrange(from, one.len() + after) =~= rest + two.subrange(0, after));
            assert(back == seq![two.subrange(0, after)] + segments(two, next));
            assert(back.drop_first() =~= segments(two, next));
            assert(segments(whole, from) =~= front.drop_last() + seq![front.last() + back[0]]
                + back.drop_first());
        } else {
            assert(whole.subrange(from, whole.len() as int) =~= rest + two.subrange(
                0,
                two.len() as int,
            ));
            assert(segments(whole, from) =~= front.drop_last() + seq![front.last() + back[0]]
                + back.drop_first());
        }
    }
}

/// Counting the words of one part and then of the other, resuming where the first left off, counts
/// those of the whole.
pub proof fn resumed_words_are_counted_once(one: Seq<u8>, two: Seq<u8>, mode: Mode, inside: bool)
    requires
        mode == Mode::Unicode ==> unsplit(one, two),
    ensures
        words_begun(one + two, mode, inside) == words_begun(one, mode, inside) + words_begun(
            two,
            mode,
            word_open(one, mode, inside),
        ),
        word_open(one + two, mode, inside) == word_open(two, mode, word_open(one, mode, inside)),
{
    let whole = one + two;
    if mode == Mode::Unicode {
        let front = segments(one, 0);
        let back = segments(two, 0);
        lemma_segments(one, 0);
        lemma_segments(two, 0);
        lemma_segments(whole, 0);
        lemma_segments_join(one, two, 0);
        let seam = seq![front.last() + back[0]];
        lemma_filled_joins(front.drop_last() + seam, back.drop_first());
        lemma_filled_joins(front.drop_last(), seam);
        lemma_filled_joins(seq![back[0]], back.drop_first());
        assert(seq![back[0]] + back.drop_first() =~= back);
        assert(front.drop_last() + seq![front.last()] =~= front);
        lemma_filled_one(front.last() + back[0]);
        lemma_filled_one(back[0]);
        assert(filled(front) == filled(front.drop_last()) + if front.last().len() > 0 {
            1nat
        } else {
            0nat
        });
        let parts = segments(whole, 0);
        if one.len() == 0 {
            assert(whole =~= two);
            assert(front.len() == 1 && front[0].len() == 0) by {
                assert(one =~= Seq::<u8>::empty());
            }
        } else if front.len() == 1 {
            assert(parts[0] == front.last() + back[0]);
            lemma_only_segment(one);
        } else {
            assert(parts[0] == front[0]);
        }
        if two.len() == 0 {
            assert(whole =~= one);
            assert(back.len() == 1 && back[0].len() == 0);
        } else if back.len() == 1 {
            assert(parts.last() == front.last() + back[0]);
            lemma_only_segment(two);
        } else {
            assert(parts.last() == back.last());
        }
    } else {
        lemma_byte_runs_join(one, two, inside);
    }
}

/// A part that does not split is its own segment.
proof fn lemma_only_segment(data: Seq<u8>)
    requires
        segments(data, 0).len() == 1,
    ensures
        segments(data, 0)[0] == data,
{
    lemma_next_space(data, 0);
    let end = next_space(data, 0);
    if end < data.len() {
        lemma_segments(data, end + space_at(data, end));
    } else {
        assert(data.subrange(0, data.len() as int) =~= data);
    }
}

proof fn lemma_filled_one(part: Seq<u8>)
    ensures
        filled(seq![part]) == if part.len() > 0 {
            1nat
        } else {
            0nat
        },
{
    reveal_with_fuel(filled, 2);
    assert(seq![part].drop_last() =~= Seq::empty());
}

} // verus!
