//! What a count is for: what a word, a line and a character are.

use vstd::prelude::*;
use vstd::utf8::{
    decode_utf8, length_of_first_scalar, pop_first_scalar, valid_utf8,
};

use crate::lines::{lemma_lines_chain, line_feeds_cut_the_lines, lines, Line};
use crate::status::Status;
use crate::sz::{byte_count, characters, next_space, segments, space_at};

use super::render::{column_width, truncated, widest_name};
use super::report::{ending, summed, Row};
use super::tally::{counted, lemma_characters_join, longest, Fields};
use super::words::{
    byte_runs, filled, lemma_space_is, lemma_unsplit, resumed_words_are_counted_once, unsplit,
    word_open, words_begun, Mode,
};

verus! {

/// Whether a byte is a space, a tab, a line feed, a vertical tab, a form feed or a carriage return.
pub open spec fn ascii_blank(byte: u8) -> bool {
    byte == ' ' as u8 || byte == '\t' as u8 || byte == '\n' as u8 || byte == 0x0B || byte == 0x0C
        || byte == '\r' as u8
}

/// Whether these bytes spell one whitespace character: one of ASCII, NEL, the no-break space, the
/// Ogham space, one of the spaces from U+2000 to U+200A, the line or the paragraph separator, the
/// narrow no-break space, the mathematical space or the ideographic space.
pub open spec fn spells_blank(text: Seq<u8>) -> bool {
    ||| text.len() == 1 && ascii_blank(text[0])
    ||| text =~= seq![0xC2u8, 0x85u8] || text =~= seq![0xC2u8, 0xA0u8]
    ||| text =~= seq![0xE1u8, 0x9Au8, 0x80u8]
    ||| text.len() == 3 && text[0] == 0xE2 && text[1] == 0x80 && 0x80 <= text[2] <= 0x8A
    ||| text =~= seq![0xE2u8, 0x80u8, 0xA8u8] || text =~= seq![0xE2u8, 0x80u8, 0xA9u8]
    ||| text =~= seq![0xE2u8, 0x80u8, 0xAFu8] || text =~= seq![0xE2u8, 0x81u8, 0x9Fu8]
    ||| text =~= seq![0xE3u8, 0x80u8, 0x80u8]
}

/// Whether a separator of words stands at `at`: a whitespace byte of ASCII, or under the Unicode rules
/// any whitespace character.
pub open spec fn blank_at(data: Seq<u8>, at: int, mode: Mode) -> bool {
    &&& 0 <= at < data.len()
    &&& if mode == Mode::Unicode {
        exists|end: int|
            at < end <= data.len() && #[trigger] spells_blank(data.subrange(at, end))
    } else {
        ascii_blank(data[at])
    }
}

/// Whether these bytes are one separator of words.
pub open spec fn separator(text: Seq<u8>, mode: Mode) -> bool {
    if mode == Mode::Unicode {
        spells_blank(text)
    } else {
        text.len() == 1 && ascii_blank(text[0])
    }
}

/// How many words a count reports.
pub open spec fn words_of(data: Seq<u8>, mode: Mode) -> nat {
    counted(
        mode,
        Fields { lines: false, words: true, bytes: false, chars: false, max_line_length: false },
        data,
    ).words
}

proof fn lemma_one_run(data: Seq<u8>)
    requires
        data.len() > 0,
        forall|at: int| 0 <= at < data.len() ==> !ascii_blank(#[trigger] data[at]),
    ensures
        byte_runs(data, false) == 1,
    decreases data.len(),
{
    let front = data.drop_last();
    reveal_with_fuel(byte_runs, 2);
    if front.len() > 0 {
        assert forall|at: int| 0 <= at < front.len() implies !ascii_blank(#[trigger] front[at]) by {
            assert(front[at] == data[at]);
        }
        lemma_one_run(front);
        assert(front.last() == data[data.len() - 2]);
    }
    assert(data.last() == data[data.len() - 1]);
}

proof fn lemma_blank_spans(text: Seq<u8>, mode: Mode)
    requires
        separator(text, mode),
    ensures
        words_begun(text, mode, true) == 0,
        words_begun(text, mode, false) == 0,
        !word_open(text, mode, true),
        !word_open(text, mode, false),
{
    if mode == Mode::Unicode {
        let size = text.len() as int;
        assert(space_at(text, 0) == size);
        lemma_space_is(text, 0, 0);
        let parts = segments(text, 0);
        reveal_with_fuel(segments, 3);
        reveal_with_fuel(next_space, 2);
        reveal_with_fuel(filled, 3);
        assert(parts =~= seq![text.subrange(0, 0), text.subrange(size, size)]);
        assert(parts.drop_last() =~= seq![text.subrange(0, 0)]);
        assert(parts.drop_last().drop_last() =~= Seq::empty());
    } else {
        assert(text.drop_last() =~= Seq::empty());
        reveal_with_fuel(byte_runs, 2);
    }
}

/// Without a separator between them bytes are one word, and no bytes are none.
pub proof fn bytes_without_a_separator_are_one_word(data: Seq<u8>, mode: Mode)
    requires
        forall|at: int| !#[trigger] blank_at(data, at, mode),
    ensures
        words_of(data, mode) == if data.len() > 0 {
            1nat
        } else {
            0nat
        },
{
    if mode == Mode::Unicode {
        assert forall|at: int| 0 <= at < data.len() implies space_at(data, at) == 0 by {
            let width = space_at(data, at);
            if width > 0 {
                let text = data.subrange(at, at + width);
                assert(spells_blank(text));
                assert(blank_at(data, at, mode));
            }
        }
        lemma_space_is(data, 0, data.len() as int);
        let parts = segments(data, 0);
        assert(data.subrange(0, data.len() as int) =~= data);
        assert(parts =~= seq![data]);
        reveal_with_fuel(filled, 2);
        assert(parts.drop_last() =~= Seq::empty());
    } else if data.len() > 0 {
        assert forall|at: int| 0 <= at < data.len() implies !ascii_blank(#[trigger] data[at]) by {
            assert(!blank_at(data, at, mode));
        }
        lemma_one_run(data);
    }
}

/// A separator ends the words in front of it, and belongs to none behind it: the words of a text are
/// those on its two sides together.
pub proof fn a_separator_parts_words(front: Seq<u8>, parting: Seq<u8>, back: Seq<u8>, mode: Mode)
    requires
        separator(parting, mode),
    ensures
        words_of(front + parting + back, mode) == words_of(front, mode) + words_of(back, mode),
{
    let ahead = front + parting;
    if mode == Mode::Unicode {
        assert(unsplit(front, parting)) by {
            lemma_unsplit(front, parting);
        }
        let whole = ahead + back;
        assert forall|at: int| 0 <= at < ahead.len() implies #[trigger] space_at(whole, at)
            == space_at(ahead, at) by {
            assert(whole[at] == ahead[at]);
            let size = front.len() as int;
            if at + 1 < ahead.len() {
                assert(whole[at + 1] == ahead[at + 1]);
            }
            if at + 2 < ahead.len() {
                assert(whole[at + 2] == ahead[at + 2]);
            }
            if at >= size {
                assert(ahead[at] == parting[at - size]);
            } else {
                assert(ahead[size] == parting[0]);
            }
        }
        assert(unsplit(ahead, back));
    }
    lemma_blank_spans(parting, mode);
    resumed_words_are_counted_once(front, parting, mode, false);
    resumed_words_are_counted_once(ahead, back, mode, false);
}

/// The characters of a text are counted one by one, however many bytes each of them takes.
pub proof fn each_character_counts_once(data: Seq<u8>, mode: Mode, fields: Fields)
    requires
        valid_utf8(data),
        fields.chars,
    ensures
        counted(mode, fields, data).chars == decode_utf8(data).len(),
{
    lemma_characters_decoded(data);
}

proof fn lemma_characters_decoded(data: Seq<u8>)
    requires
        valid_utf8(data),
    ensures
        characters(data) == decode_utf8(data).len(),
    decreases data.len(),
{
    if data.len() > 0 {
        let width = length_of_first_scalar(data);
        let first = data.subrange(0, width);
        let rest = pop_first_scalar(data);
        lemma_characters_decoded(rest);
        lemma_characters_join(first, rest);
        assert(first + rest =~= data);
        reveal_with_fuel(characters, 5);
        assert(first[0] == data[0]);
        if width == 1 {
            assert(first.drop_last() =~= Seq::empty());
        } else if width == 2 {
            assert(first.drop_last() =~= seq![data[0]]);
            assert(first.drop_last().drop_last() =~= Seq::empty());
            assert(first.last() == data[1]);
        } else if width == 3 {
            assert(first.drop_last() =~= seq![data[0], data[1]]);
            assert(first.drop_last().drop_last() =~= seq![data[0]]);
            assert(first.drop_last().drop_last().drop_last() =~= Seq::empty());
            assert(first.last() == data[2]);
        } else {
            assert(first.drop_last() =~= seq![data[0], data[1], data[2]]);
            assert(first.drop_last().drop_last() =~= seq![data[0], data[1]]);
            assert(first.drop_last().drop_last().drop_last() =~= seq![data[0]]);
            assert(first.drop_last().drop_last().drop_last().drop_last() =~= Seq::empty());
            assert(first.last() == data[3]);
        }
    }
}

/// The bytes are all of them; by bytes the lines are the line feeds, and one more where the input
/// goes on behind the last; `wc` leaves that one out.
pub proof fn lines_are_counted_by_their_feeds(fields: Fields, data: Seq<u8>)
    requires
        fields.lines,
    ensures
        counted(Mode::Posix, fields, data).lines == byte_count(data, '\n' as u8),
        counted(Mode::Ascii, fields, data).lines == byte_count(data, '\n' as u8) + if data.len() > 0
            && data.last() != '\n' as u8 {
            1nat
        } else {
            0nat
        },
        forall|mode: Mode| (#[trigger] counted(mode, fields, data)).bytes == data.len(),
{
    line_feeds_cut_the_lines(data);
}

/// No line is longer than the longest, and one is as long where there is any.
pub proof fn the_longest_line_is_one_of_them(mode: Mode, fields: Fields, data: Seq<u8>)
    requires
        fields.max_line_length,
    ensures
        ({
            let all = lines(data, 0, mode.newline_set());
            let most = counted(mode, fields, data).longest;
            &&& forall|i: int| 0 <= i < all.len() ==> (#[trigger] all[i]).as_cut(data).len() <= most
            &&& all.len() == 0 ==> most == 0
            &&& all.len() > 0 ==> exists|i: int|
                0 <= i < all.len() && (#[trigger] all[i]).as_cut(data).len() == most
        }),
{
    let all = lines(data, 0, mode.newline_set());
    lemma_lines_chain(data, 0, mode.newline_set());
    lemma_longest(data, all);
}

proof fn lemma_longest(data: Seq<u8>, all: Seq<Line>)
    requires
        forall|i: int|
            0 <= i < all.len() ==> 0 <= (#[trigger] all[i]).start <= all[i].cut <= data.len(),
    ensures
        forall|i: int|
            0 <= i < all.len() ==> (#[trigger] all[i]).as_cut(data).len() <= longest(all, 0),
        all.len() == 0 ==> longest(all, 0) == 0,
        all.len() > 0 ==> exists|i: int|
            0 <= i < all.len() && (#[trigger] all[i]).as_cut(data).len() == longest(all, 0),
    decreases all.len(),
{
    if all.len() > 0 {
        let fewer = all.drop_last();
        let last = all.len() - 1;
        lemma_longest(data, fewer);
        assert forall|i: int| 0 <= i < all.len() implies (#[trigger] all[i]).as_cut(data).len()
            <= longest(all, 0) by {
            if i < last {
                assert(fewer[i] == all[i]);
            }
        }
        if fewer.len() > 0 && longest(fewer, 0) == longest(all, 0) {
            let i = choose|i: int|
                0 <= i < fewer.len() && (#[trigger] fewer[i]).as_cut(data).len() == longest(
                    fewer,
                    0,
                );
            assert(all[i] == fewer[i]);
        } else {
            assert(all[last].as_cut(data).len() == longest(all, 0));
        }
    }
}

/// Two lists of rows together total what each totals, but for the longest line, which is the longer
/// of theirs.
pub proof fn totals_add_up(one: Seq<Row>, two: Seq<Row>)
    ensures
        ({
            let (a, b, both) = (summed(one), summed(two), summed(one + two));
            &&& both.0 == a.0 + b.0
            &&& both.1 == a.1 + b.1
            &&& both.2 == a.2 + b.2
            &&& both.3 == a.3 + b.3
            &&& a.4 <= both.4 && b.4 <= both.4 && (both.4 == a.4 || both.4 == b.4)
        }),
    decreases two.len(),
{
    if two.len() == 0 {
        assert(one + two =~= one);
    } else {
        assert((one + two).drop_last() =~= one + two.drop_last());
        totals_add_up(one, two.drop_last());
    }
}

/// One row totals what was counted of it.
pub proof fn one_row_totals_itself(row: Row)
    ensures
        summed(seq![row]) == (
            row.counts.lines as nat,
            row.counts.words as nat,
            row.counts.bytes as nat,
            row.counts.chars as nat,
            row.counts.max_line_length as nat,
        ),
{
    reveal_with_fuel(summed, 2);
    assert(seq![row].drop_last() =~= Seq::empty());
}

/// A count ends well where anything was counted, fails where nothing was and something could not be
/// read, and otherwise says that there was nothing.
pub proof fn a_count_ends_by_what_it_counted(rows: nat, failures: nat)
    ensures
        ending(rows, failures) == Status::Success <==> rows > 0,
        ending(rows, failures) == Status::Error <==> rows == 0 && failures > 0,
        ending(rows, failures) == Status::NoResult <==> rows == 0 && failures == 0,
{
}

/// A path that is too long keeps its end behind three dots, or as many dots as there is room for, and
/// fills the room it has; one that fits is kept whole.
pub proof fn a_long_path_keeps_its_end(path: Seq<char>, width: int)
    requires
        0 <= width,
    ensures
        ({
            let shown = truncated(path, width);
            &&& path.len() <= width ==> shown == path
            &&& path.len() > width ==> shown.len() == width && forall|i: int|
                0 <= i < width ==> #[trigger] shown[i] == if i < 3 {
                    '.'
                } else {
                    path[path.len() - width + i]
                }
        }),
{
    reveal_strlit("...");
}

/// A column is as wide as the widest of its header and its cells, and no wider.
pub proof fn a_column_is_as_wide_as_its_widest(
    header: Seq<char>,
    rows: Seq<Seq<Seq<char>>>,
    index: int,
)
    ensures
        ({
            let width = column_width(header, rows, index);
            &&& header.len() <= width
            &&& forall|i: int| 0 <= i < rows.len() ==> (#[trigger] rows[i])[index].len() <= width
            &&& width == header.len() || exists|i: int|
                0 <= i < rows.len() && (#[trigger] rows[i])[index].len() == width
        }),
    decreases rows.len(),
{
    if rows.len() > 0 {
        let front = rows.drop_last();
        a_column_is_as_wide_as_its_widest(header, front, index);
        assert(rows.last() == rows[rows.len() - 1]);
        assert forall|i: int| 0 <= i < rows.len() implies (#[trigger] rows[i])[index].len()
            <= column_width(header, rows, index) by {
            if i < front.len() {
                assert(front[i] == rows[i]);
            }
        }
        let width = column_width(header, front, index);
        if width != header.len() {
            let i = choose|i: int|
                0 <= i < front.len() && (#[trigger] front[i])[index].len() == width;
            assert(rows[i] == front[i]);
        }
    }
}

/// The name column is as wide as the widest name with its branch in front, and never wider than forty
/// characters.
pub proof fn a_name_column_is_at_most_forty_wide(names: Seq<(Seq<char>, int)>)
    requires
        forall|i: int| 0 <= i < names.len() ==> 0 <= (#[trigger] names[i]).1 <= 40,
    ensures
        widest_name(names) <= 40,
        forall|i: int|
            0 <= i < names.len() && (#[trigger] names[i]).1 + names[i].0.len() <= 40
                ==> widest_name(names) >= names[i].1 + names[i].0.len(),
        forall|i: int|
            0 <= i < names.len() && (#[trigger] names[i]).1 + names[i].0.len() > 40
                ==> widest_name(names) == 40,
        names.len() == 0 ==> widest_name(names) == 0,
        names.len() > 0 && widest_name(names) < 40 ==> exists|i: int|
            0 <= i < names.len() && (#[trigger] names[i]).1 + names[i].0.len() == widest_name(
                names,
            ),
    decreases names.len(),
{
    if names.len() > 0 {
        let front = names.drop_last();
        assert forall|i: int| 0 <= i < front.len() implies 0 <= (#[trigger] front[i]).1 <= 40 by {
            assert(front[i] == names[i]);
        }
        a_name_column_is_at_most_forty_wide(front);
        let last = names[names.len() - 1];
        assert(last == names.last());
        assert forall|i: int|
            0 <= i < names.len() && (#[trigger] names[i]).1 + names[i].0.len()
                <= 40 implies widest_name(names) >= names[i].1 + names[i].0.len() by {
            if i < front.len() {
                assert(front[i] == names[i]);
            }
        }
        assert forall|i: int|
            0 <= i < names.len() && (#[trigger] names[i]).1 + names[i].0.len()
                > 40 implies widest_name(names) == 40 by {
            if i < front.len() {
                assert(front[i] == names[i]);
            }
        }
        if widest_name(names) < 40 && last.1 + last.0.len() != widest_name(names) {
            assert(widest_name(front) == widest_name(names));
            if front.len() > 0 {
                let i = choose|i: int|
                    0 <= i < front.len() && (#[trigger] front[i]).1 + front[i].0.len()
                        == widest_name(front);
                assert(names[i] == front[i]);
            }
        }
    }
}

} // verus!
