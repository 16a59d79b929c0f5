//! Lines: where they begin, where the newline set cuts them, and where they end.

use vstd::prelude::*;

use crate::bytes::{byte_position, lemma_byte_position, CR, LF};
use crate::hashing::content_hash;
use crate::sz::{
    byte_count, find_byte, hash_of, lemma_byte_count_joins, lemma_none_counted, newline_parts,
};

verus! {

/// Which newline set [`LineIter`] splits on.
#[derive(Clone, Copy, PartialEq, Eq, Structural, Debug)]
pub enum Newlines {
    /// Byte-level: only LF.
    Lf,
    /// All seven Unicode newline characters (LF, VT, FF, CR, NEL, LS, PS), with CRLF collapsed
    /// into a single break.
    Unicode,
}

impl Newlines {
    /// Map a `--utf8` flag to the newline set (LF-only when `false`).
    pub fn from_utf8(utf8: bool) -> (newlines: Self)
        ensures
            newlines == if utf8 {
                Newlines::Unicode
            } else {
                Newlines::Lf
            },
    {
        if utf8 {
            Newlines::Unicode
        } else {
            Newlines::Lf
        }
    }
}

/// The length of the line terminator that begins at `at`, or zero where none does.
pub open spec fn newline_at(data: Seq<u8>, at: int, newlines: Newlines) -> int {
    if at < 0 || at >= data.len() {
        0
    } else {
        match newlines {
            Newlines::Lf => if data[at] == 0x0A {
                1
            } else {
                0
            },
            Newlines::Unicode => if data[at] == 0x0A || data[at] == 0x0B || data[at] == 0x0C {
                1
            } else if data[at] == 0x0D {
                if at + 1 < data.len() && data[at + 1] == 0x0A {
                    2
                } else {
                    1
                }
            } else if data[at] == 0xC2 && at + 1 < data.len() && data[at + 1] == 0x85 {
                2
            } else if data[at] == 0xE2 && at + 2 < data.len() && data[at + 1] == 0x80 && (data[at
                + 2] == 0xA8 || data[at + 2] == 0xA9) {
                3
            } else {
                0
            },
        }
    }
}

/// Where the first line terminator at or after `from` begins, or the end of `data`.
pub open spec fn next_break(data: Seq<u8>, from: int, newlines: Newlines) -> int
    decreases data.len() - from,
{
    if from < 0 || from >= data.len() {
        data.len() as int
    } else if newline_at(data, from, newlines) > 0 {
        from
    } else {
        next_break(data, from + 1, newlines)
    }
}

/// The first terminator is one, and nothing between it and `from` is.
pub proof fn lemma_next_break(data: Seq<u8>, from: int, newlines: Newlines)
    requires
        0 <= from <= data.len(),
    ensures
        from <= next_break(data, from, newlines) <= data.len(),
        next_break(data, from, newlines) < data.len() ==> newline_at(
            data,
            next_break(data, from, newlines),
            newlines,
        ) > 0,
        forall|at: int|
            from <= at < next_break(data, from, newlines) ==> newline_at(data, at, newlines) == 0,
    decreases data.len() - from,
{
    if from < data.len() && newline_at(data, from, newlines) == 0 {
        lemma_next_break(data, from + 1, newlines);
    }
}

/// Whatever answers to the description of the first terminator is the first terminator.
pub proof fn lemma_break_is(data: Seq<u8>, from: int, newlines: Newlines, at: int)
    requires
        0 <= from <= at <= data.len(),
        at < data.len() ==> newline_at(data, at, newlines) > 0,
        forall|earlier: int| from <= earlier < at ==> newline_at(data, earlier, newlines) == 0,
    ensures
        next_break(data, from, newlines) == at,
    decreases at - from,
{
    if from < at {
        assert(newline_at(data, from, newlines) == 0);
        lemma_break_is(data, from + 1, newlines, at);
    }
}

/// One line as three offsets: where it starts, where the newline set cuts it, and where the next
/// line starts.
pub ghost struct Line {
    pub start: int,
    pub cut: int,
    pub end: int,
}

impl Line {
    /// The line as the newline set cuts it.
    pub open spec fn as_cut(self, data: Seq<u8>) -> Seq<u8> {
        data.subrange(self.start, self.cut)
    }

    /// The line and its terminator.
    pub open spec fn whole(self, data: Seq<u8>) -> Seq<u8> {
        data.subrange(self.start, self.end)
    }

    /// How much of the line precedes whatever ends it, the carriage return of a CRLF pair being
    /// part of the ending under either newline set.
    pub open spec fn body_len(self, data: Seq<u8>) -> int {
        if self.start < self.cut && data[self.cut - 1] == 0x0D {
            self.cut - self.start - 1
        } else {
            self.cut - self.start
        }
    }

    /// The line's text, without whatever ends it.
    pub open spec fn body(self, data: Seq<u8>) -> Seq<u8> {
        data.subrange(self.start, self.start + self.body_len(data))
    }

    /// What ends the line.
    pub open spec fn terminator(self, data: Seq<u8>) -> Seq<u8> {
        data.subrange(self.start + self.body_len(data), self.end)
    }
}

/// The line that starts at `from`.
pub open spec fn line_at(data: Seq<u8>, from: int, newlines: Newlines) -> Line {
    let cut = next_break(data, from, newlines);
    Line {
        start: from,
        cut,
        end: if cut < data.len() {
            cut + newline_at(data, cut, newlines)
        } else {
            data.len() as int
        },
    }
}

/// A line has at least one byte, and ends inside the input.
pub proof fn lemma_line_at(data: Seq<u8>, from: int, newlines: Newlines)
    requires
        0 <= from < data.len(),
    ensures
        from <= line_at(data, from, newlines).cut <= line_at(data, from, newlines).end
            <= data.len(),
        from < line_at(data, from, newlines).end,
{
    lemma_next_break(data, from, newlines);
}

/// Every line from `from` on. A trailing terminator does not open one more, empty line.
pub open spec fn lines(data: Seq<u8>, from: int, newlines: Newlines) -> Seq<Line>
    decreases data.len() - from,
{
    if from < 0 || from >= data.len() {
        Seq::empty()
    } else {
        let line = line_at(data, from, newlines);
        proof {
            lemma_line_at(data, from, newlines);
        }
        if line.end <= from {
            Seq::empty()
        } else {
            seq![line] + lines(data, line.end, newlines)
        }
    }
}

/// Unfolds [`lines`] once.
pub proof fn lemma_lines_step(data: Seq<u8>, from: int, newlines: Newlines)
    requires
        0 <= from < data.len(),
    ensures
        lines(data, from, newlines) == seq![line_at(data, from, newlines)] + lines(
            data,
            line_at(data, from, newlines).end,
            newlines,
        ),
        lines(data, from, newlines).len() > 0,
        lines(data, from, newlines)[0] == line_at(data, from, newlines),
        lines(data, from, newlines).drop_first() == lines(
            data,
            line_at(data, from, newlines).end,
            newlines,
        ),
        from <= line_at(data, from, newlines).cut <= line_at(data, from, newlines).end
            <= data.len(),
        from < line_at(data, from, newlines).end,
{
    lemma_line_at(data, from, newlines);
    assert(lines(data, from, newlines).drop_first() =~= lines(
        data,
        line_at(data, from, newlines).end,
        newlines,
    ));
}

/// The lines from `from` on stand one behind the other, from `from` to the end of the input, and
/// each is the line that starts where it starts.
pub proof fn lemma_lines_chain(data: Seq<u8>, from: int, newlines: Newlines)
    requires
        0 <= from <= data.len(),
    ensures
        lines(data, from, newlines).len() <= data.len() - from,
        from < data.len() <==> lines(data, from, newlines).len() > 0,
        lines(data, from, newlines).len() > 0 ==> lines(data, from, newlines)[0].start == from
            && lines(data, from, newlines).last().end == data.len(),
        forall|i: int|
            #![trigger lines(data, from, newlines)[i]]
            0 <= i < lines(data, from, newlines).len() ==> {
                let line = lines(data, from, newlines)[i];
                &&& from <= line.start < line.end <= data.len()
                &&& line.start <= line.cut <= line.end
                &&& line == line_at(data, line.start, newlines)
            },
        forall|i: int, j: int|
            #![trigger lines(data, from, newlines)[i], lines(data, from, newlines)[j]]
            0 <= i < lines(data, from, newlines).len() && j == i + 1 && j < lines(
                data,
                from,
                newlines,
            ).len() ==> lines(data, from, newlines)[i].end == lines(data, from, newlines)[j].start,
    decreases data.len() - from,
{
    if from < data.len() {
        lemma_lines_step(data, from, newlines);
        let line = line_at(data, from, newlines);
        lemma_lines_chain(data, line.end, newlines);
        let all = lines(data, from, newlines);
        let rest = lines(data, line.end, newlines);
        assert forall|i: int| 0 <= i < all.len() implies {
            &&& from <= #[trigger] all[i].start < all[i].end <= data.len()
            &&& all[i].start <= all[i].cut <= all[i].end
            &&& all[i] == line_at(data, all[i].start, newlines)
        } by {
            if i > 0 {
                assert(all[i] == rest[i - 1]);
            }
        }
        assert forall|i: int, j: int|
            #![trigger all[i], all[j]]
            0 <= i < all.len() && j == i + 1 && j < all.len() implies all[i].end
            == all[j].start by {
            assert(all[j] == rest[j - 1]);
            if i > 0 {
                assert(all[i] == rest[i - 1]);
            }
        }
        if rest.len() > 0 {
            assert(all.last() == rest.last());
        }
    }
}

/// The bytes of all these lines, terminators included, one behind the other.
pub open spec fn joined(data: Seq<u8>, all: Seq<Line>) -> Seq<u8>
    decreases all.len(),
{
    if all.len() == 0 {
        Seq::empty()
    } else {
        all[0].whole(data) + joined(data, all.drop_first())
    }
}

/// Concatenating every line with its terminator reproduces the input.
pub proof fn lines_reproduce_the_input(data: Seq<u8>, newlines: Newlines)
    ensures
        joined(data, lines(data, 0, newlines)) == data,
{
    lemma_joined_from(data, 0, newlines);
    assert(data.subrange(0, data.len() as int) =~= data);
}

proof fn lemma_joined_from(data: Seq<u8>, from: int, newlines: Newlines)
    requires
        0 <= from <= data.len(),
    ensures
        joined(data, lines(data, from, newlines)) == data.subrange(from, data.len() as int),
    decreases data.len() - from,
{
    if from < data.len() {
        lemma_lines_step(data, from, newlines);
        let line = line_at(data, from, newlines);
        lemma_joined_from(data, line.end, newlines);
        assert(line.whole(data) + data.subrange(line.end, data.len() as int) =~= data.subrange(
            from,
            data.len() as int,
        ));
    } else {
        assert(data.subrange(from, data.len() as int) =~= Seq::empty());
    }
}

/// The lines of `data` as the newline set cuts them, with a line feed between each two.
pub open spec fn fed(data: Seq<u8>, all: Seq<Line>) -> Seq<u8>
    decreases all.len(),
{
    if all.len() == 0 {
        Seq::empty()
    } else if all.len() == 1 {
        all[0].as_cut(data)
    } else {
        all[0].as_cut(data).push(0x0A) + fed(data, all.drop_first())
    }
}

/// On line feeds alone: no line holds one, there are as many lines as line feeds, and one more where
/// the input does not end in one, and the lines with a line feed between each two are the input
/// without its final one.
pub proof fn line_feeds_cut_the_lines(data: Seq<u8>)
    ensures
        forall|i: int|
            #![trigger lines(data, 0, Newlines::Lf)[i]]
            0 <= i < lines(data, 0, Newlines::Lf).len() ==> !lines(
                data,
                0,
                Newlines::Lf,
            )[i].as_cut(data).contains(0x0A),
        lines(data, 0, Newlines::Lf).len() == byte_count(data, 0x0A) + if data.len() > 0
            && data.last() != 0x0A {
            1nat
        } else {
            0nat
        },
        fed(data, lines(data, 0, Newlines::Lf)) == if data.len() > 0 && data.last() == 0x0A {
            data.drop_last()
        } else {
            data
        },
{
    let all = lines(data, 0, Newlines::Lf);
    lemma_lines_chain(data, 0, Newlines::Lf);
    assert forall|i: int| #![trigger all[i]] 0 <= i < all.len() implies !all[i].as_cut(
        data,
    ).contains(0x0A) by {
        lemma_next_break(data, all[i].start, Newlines::Lf);
        let text = all[i].as_cut(data);
        assert forall|at: int| 0 <= at < text.len() implies text[at] != 0x0A by {
            assert(newline_at(data, all[i].start + at, Newlines::Lf) == 0);
        }
    }
    lemma_fed_from(data, 0);
    assert(data.subrange(0, data.len() as int) =~= data);
    assert(data.len() > 0 ==> data.subrange(0, data.len() - 1) =~= data.drop_last());
}

proof fn lemma_fed_from(data: Seq<u8>, from: int)
    requires
        0 <= from <= data.len(),
    ensures
        lines(data, from, Newlines::Lf).len() == byte_count(
            data.subrange(from, data.len() as int),
            0x0A,
        ) + if from < data.len() && data.last() != 0x0A {
            1nat
        } else {
            0nat
        },
        fed(data, lines(data, from, Newlines::Lf)) == data.subrange(
            from,
            if from < data.len() && data.last() == 0x0A {
                data.len() - 1
            } else {
                data.len() as int
            },
        ),
    decreases data.len() - from,
{
    let size = data.len() as int;
    let rest = data.subrange(from, size);
    if from < size {
        lemma_lines_step(data, from, Newlines::Lf);
        lemma_next_break(data, from, Newlines::Lf);
        let line = line_at(data, from, Newlines::Lf);
        let text = line.as_cut(data);
        let behind = data.subrange(line.end, size);
        lemma_fed_from(data, line.end);
        lemma_lines_chain(data, line.end, Newlines::Lf);
        assert forall|at: int| 0 <= at < text.len() implies text[at] != 0x0A by {
            assert(newline_at(data, from + at, Newlines::Lf) == 0);
        }
        lemma_none_counted(text, 0x0A);
        if line.cut < size {
            assert(newline_at(data, line.cut, Newlines::Lf) > 0);
            assert(text.push(0x0A).drop_last() =~= text);
            assert(rest =~= text.push(0x0A) + behind);
            lemma_byte_count_joins(text.push(0x0A), behind, 0x0A);
            if line.end < size {
                assert(text.push(0x0A) + fed(data, lines(data, line.end, Newlines::Lf))
                    =~= data.subrange(
                    from,
                    if data.last() == 0x0A {
                        size - 1
                    } else {
                        size
                    },
                ));
            }
        } else {
            assert(rest =~= text);
            assert(text.last() == data.last());
        }
    } else {
        assert(rest =~= Seq::empty());
    }
}

/// Whether these bytes spell one terminator under the Unicode newline set: LF, VT, FF, CR, CRLF, NEL,
/// LS or PS.
pub open spec fn spells_newline(text: Seq<u8>) -> bool {
    ||| text =~= seq![0x0Au8] || text =~= seq![0x0Bu8] || text =~= seq![0x0Cu8]
    ||| text =~= seq![0x0Du8] || text =~= seq![0x0Du8, 0x0Au8]
    ||| text =~= seq![0xC2u8, 0x85u8]
    ||| text =~= seq![0xE2u8, 0x80u8, 0xA8u8] || text =~= seq![0xE2u8, 0x80u8, 0xA9u8]
}

/// Under the Unicode newline set a line is what stands in front of the first terminator, which
/// belongs to it whole: a CR takes the LF behind it along, and nothing else ends a line.
pub proof fn a_terminator_ends_its_line(data: Seq<u8>, from: int)
    requires
        0 <= from < data.len(),
    ensures
        ({
            let line = line_at(data, from, Newlines::Unicode);
            &&& line.start == from
            &&& from <= line.cut <= line.end <= data.len()
            &&& if line.cut < data.len() {
                &&& spells_newline(data.subrange(line.cut, line.end))
                &&& !(data[line.end - 1] == 0x0D && line.end < data.len() && data[line.end] == 0x0A)
            } else {
                line.end == data.len()
            }
            &&& forall|at: int, end: int|
                from <= at < line.cut && at < end <= data.len() ==> !spells_newline(
                    #[trigger] data.subrange(at, end),
                )
        }),
{
    let line = line_at(data, from, Newlines::Unicode);
    lemma_line_at(data, from, Newlines::Unicode);
    lemma_next_break(data, from, Newlines::Unicode);
    if line.cut < data.len() {
        let text = data.subrange(line.cut, line.end);
        assert(text[0] == data[line.cut]);
        assert(newline_at(data, line.cut, Newlines::Unicode) == text.len());
        if text.len() == 2 {
            assert(text[1] == data[line.cut + 1]);
        }
        if text.len() == 3 {
            assert(text[1] == data[line.cut + 1] && text[2] == data[line.cut + 2]);
        }
    }
    assert forall|at: int, end: int|
        from <= at < line.cut && at < end <= data.len() implies !spells_newline(
        #[trigger] data.subrange(at, end),
    ) by {
        let text = data.subrange(at, end);
        assert(newline_at(data, at, Newlines::Unicode) == 0);
        assert(text[0] == data[at]);
        if text.len() == 2 {
            assert(text[1] == data[at + 1]);
        }
        if text.len() == 3 {
            assert(text[1] == data[at + 1] && text[2] == data[at + 2]);
        }
    }
}

/// Whether the only line endings in `data` are LF and CRLF.
pub open spec fn ends_lines_plainly(data: Seq<u8>) -> bool {
    forall|at: int|
        0 <= at < data.len() ==> #[trigger] newline_at(data, at, Newlines::Unicode) > 0 ==> data[at]
            == 0x0A || (data[at] == 0x0D && at + 1 < data.len() && data[at + 1] == 0x0A)
}

/// Where the only line endings are LF and CRLF, both newline sets find the same lines: each has
/// the same bytes, terminator included, and the same text in front of its terminator, so it has
/// one name under either.
pub proof fn newline_sets_agree_on_plain_endings(data: Seq<u8>)
    requires
        ends_lines_plainly(data),
    ensures
        lines(data, 0, Newlines::Lf).len() == lines(data, 0, Newlines::Unicode).len(),
        forall|i: int|
            #![trigger lines(data, 0, Newlines::Lf)[i]]
            #![trigger lines(data, 0, Newlines::Unicode)[i]]
            0 <= i < lines(data, 0, Newlines::Lf).len() ==> {
                let byte = lines(data, 0, Newlines::Lf)[i];
                let unicode = lines(data, 0, Newlines::Unicode)[i];
                &&& byte.whole(data) == unicode.whole(data)
                &&& byte.body(data) == unicode.body(data)
                &&& byte.terminator(data) == unicode.terminator(data)
            },
{
    lemma_sets_agree_from(data, 0);
}

proof fn lemma_sets_agree_from(data: Seq<u8>, from: int)
    requires
        ends_lines_plainly(data),
        0 <= from <= data.len(),
    ensures
        lines(data, from, Newlines::Lf).len() == lines(data, from, Newlines::Unicode).len(),
        forall|i: int|
            #![trigger lines(data, from, Newlines::Lf)[i]]
            #![trigger lines(data, from, Newlines::Unicode)[i]]
            0 <= i < lines(data, from, Newlines::Lf).len() ==> {
                let byte = lines(data, from, Newlines::Lf)[i];
                let unicode = lines(data, from, Newlines::Unicode)[i];
                &&& byte.start == unicode.start && byte.end == unicode.end
                &&& byte.body_len(data) == unicode.body_len(data)
            },
    decreases data.len() - from,
{
    if from < data.len() {
        lemma_lines_step(data, from, Newlines::Lf);
        lemma_lines_step(data, from, Newlines::Unicode);
        lemma_next_break(data, from, Newlines::Lf);
        lemma_next_break(data, from, Newlines::Unicode);
        let byte = line_at(data, from, Newlines::Lf);
        let unicode = line_at(data, from, Newlines::Unicode);
        assert forall|at: int| 0 <= at < data.len() && newline_at(data, at, Newlines::Lf) > 0 implies newline_at(data, at, Newlines::Unicode) == 1 by {}
        // The Unicode set breaks at the LF itself, or one byte before it at the CR of a CRLF.
        if unicode.cut < data.len() {
            let at = unicode.cut;
            assert(newline_at(data, at, Newlines::Unicode) > 0);
            if data[at] == 0x0D {
                assert(newline_at(data, at, Newlines::Lf) == 0);
                assert(newline_at(data, at + 1, Newlines::Lf) == 1);
                assert forall|earlier: int| from <= earlier < at + 1 implies newline_at(
                    data,
                    earlier,
                    Newlines::Lf,
                ) == 0 by {
                    if earlier < at {
                        assert(newline_at(data, earlier, Newlines::Unicode) == 0);
                    }
                }
                lemma_break_is(data, from, Newlines::Lf, at + 1);
            } else {
                assert forall|earlier: int| from <= earlier < at implies newline_at(
                    data,
                    earlier,
                    Newlines::Lf,
                ) == 0 by {
                    assert(newline_at(data, earlier, Newlines::Unicode) == 0);
                }
                lemma_break_is(data, from, Newlines::Lf, at);
            }
            if from < at && data[at - 1] == 0x0D {
                assert(newline_at(data, at - 1, Newlines::Unicode) > 0);
            }
        } else {
            assert forall|earlier: int| from <= earlier < data.len() implies newline_at(
                data,
                earlier,
                Newlines::Lf,
            ) == 0 by {
                assert(newline_at(data, earlier, Newlines::Unicode) == 0);
            }
            lemma_break_is(data, from, Newlines::Lf, data.len() as int);
        }
        assert(byte.end == unicode.end);
        assert(byte.body_len(data) == unicode.body_len(data));
        lemma_sets_agree_from(data, byte.end);
        let all_byte = lines(data, from, Newlines::Lf);
        let all_unicode = lines(data, from, Newlines::Unicode);
        assert forall|i: int|
            #![trigger all_byte[i]]
            #![trigger all_unicode[i]]
            0 <= i < all_byte.len() implies {
            &&& all_byte[i].start == all_unicode[i].start && all_byte[i].end == all_unicode[i].end
            &&& all_byte[i].body_len(data) == all_unicode[i].body_len(data)
        } by {
            if i > 0 {
                assert(all_byte[i] == lines(data, byte.end, Newlines::Lf)[i - 1]);
                assert(all_unicode[i] == lines(data, byte.end, Newlines::Unicode)[i - 1]);
            }
        }
    }
}

/// The lengths of the segments and the terminators of `data` from `from` on, in turn: a segment,
/// the terminator behind it, the next segment, and so on to the last segment.
pub open spec fn part_lengths(data: Seq<u8>, from: int) -> Seq<int>
    decreases data.len() - from,
{
    let cut = next_break(data, from, Newlines::Unicode);
    if from < 0 || from >= data.len() || cut < from || cut >= data.len() {
        seq![data.len() - from]
    } else {
        let width = newline_at(data, cut, Newlines::Unicode);
        if width <= 0 {
            seq![data.len() - from]
        } else {
            seq![cut - from, width] + part_lengths(data, cut + width)
        }
    }
}

/// One line as the offsets a caller slices by.
#[derive(Clone, Copy, Debug)]
pub struct LineCut {
    /// Where the line starts in the input.
    pub start: usize,
    /// Where the newline set cuts it.
    pub cut: usize,
    /// Where the next line starts.
    pub end: usize,
}

impl View for LineCut {
    type V = Line;

    open spec fn view(&self) -> Line {
        Line { start: self.start as int, cut: self.cut as int, end: self.end as int }
    }
}

/// The lines of one input, in order, with terminator semantics: a trailing newline does not yield
/// a final empty line. Newline detection is StringZilla's.
pub struct LineIter<'a> {
    data: &'a [u8],
    newlines: Newlines,
    position: usize,
    parts: Vec<usize>,
    next_part: usize,
}

impl<'a> LineIter<'a> {
    /// The input being cut.
    pub closed spec fn input(&self) -> Seq<u8> {
        self.data@
    }

    pub closed spec fn newlines(&self) -> Newlines {
        self.newlines
    }

    /// Where the next line starts.
    pub closed spec fn at(&self) -> int {
        self.position as int
    }

    /// The lines still to come.
    pub open spec fn remaining(&self) -> Seq<Line> {
        lines(self.input(), self.at(), self.newlines())
    }

    pub closed spec fn wf(&self) -> bool {
        &&& self.position <= self.data@.len()
        &&& self.newlines == Newlines::Unicode && self.position < self.data@.len() ==> {
            let rest = part_lengths(self.data@, self.position as int);
            &&& self.next_part <= self.parts@.len()
            &&& self.parts@.len() - self.next_part == rest.len()
            &&& forall|i: int|
                0 <= i < rest.len() ==> #[trigger] self.parts@[self.next_part + i] == rest[i]
        }
    }

    /// Create a line iterator over the chosen [`Newlines`] set.
    pub fn new(data: &'a [u8], newlines: Newlines) -> (iter: Self)
        ensures
            iter.wf(),
            iter.input() == data@,
            iter.newlines() == newlines,
            iter.at() == 0,
    {
        let parts = match newlines {
            Newlines::Unicode => newline_parts(data),
            Newlines::Lf => Vec::new(),
        };
        LineIter { data, newlines, position: 0, parts, next_part: 0 }
    }

    /// The next line as offsets, or `None` past the last.
    pub fn next_cut(&mut self) -> (line: Option<LineCut>)
        requires
            old(self).wf(),
        ensures
            final(self).wf(),
            final(self).input() == old(self).input(),
            final(self).newlines() == old(self).newlines(),
            match line {
                Some(line) => {
                    &&& old(self).remaining().len() > 0
                    &&& line@ == old(self).remaining()[0]
                    &&& line@ == line_at(old(self).input(), old(self).at(), old(self).newlines())
                    &&& final(self).at() == line.end
                    &&& final(self).remaining() == old(self).remaining().drop_first()
                    &&& old(self).at() == line.start
                    &&& line.start <= line.cut <= line.end <= old(self).input().len()
                    &&& line.start < line.end
                },
                None => old(self).remaining().len() == 0 && final(self).at() == old(self).at()
                    && old(self).at() == old(self).input().len(),
            },
    {
        let total: usize = self.data.len();
        if self.position >= total {
            return None;
        }
        let start: usize = self.position;
        let ghost data = self.data@;
        proof {
            lemma_lines_step(data, start as int, self.newlines);
            lemma_next_break(data, start as int, self.newlines);
        }
        let (cut, end) = match self.newlines {
            Newlines::Lf => {
                let rest: &[u8] = &self.data[start..total];
                let found = find_byte(rest, LF);
                proof {
                    lemma_byte_position(rest@, LF, 0);
                    let offset = byte_position(rest@, LF, 0);
                    assert forall|earlier: int| start <= earlier < start + offset implies newline_at(
                        data,
                        earlier,
                        Newlines::Lf,
                    ) == 0 by {
                        assert(rest@[earlier - start] == data[earlier]);
                    }
                    if offset < rest@.len() {
                        assert(rest@[offset] == data[start + offset]);
                    }
                    lemma_break_is(data, start as int, Newlines::Lf, start + offset);
                }
                match found {
                    Some(offset) => (start + offset, start + offset + 1),
                    None => (total, total),
                }
            },
            Newlines::Unicode => {
                let ghost rest = part_lengths(data, start as int);
                assert(rest.len() > 0);
                assert(self.parts@[self.next_part + 0] == rest[0]);
                let length: usize = self.parts[self.next_part];
                if self.parts.len() - self.next_part > 1 {
                    assert(self.parts@[self.next_part + 1] == rest[1]);
                    let width: usize = self.parts[self.next_part + 1];
                    let ghost later = part_lengths(data, start + length + width);
                    assert forall|i: int| 0 <= i < later.len() implies self.parts@[self.next_part
                        + 2 + i] == later[i] by {
                        assert(self.parts@[self.next_part + (i + 2)] == rest[i + 2]);
                    }
                    self.next_part = self.next_part + 2;
                    (start + length, start + length + width)
                } else {
                    (total, total)
                }
            },
        };
        self.position = end;
        Some(LineCut { start, cut, end })
    }

    /// The next line as the newline set cuts it, or `None` past the last.
    pub fn next(&mut self) -> (line: Option<&'a [u8]>)
        requires
            old(self).wf(),
        ensures
            final(self).wf(),
            final(self).input() == old(self).input(),
            final(self).newlines() == old(self).newlines(),
            match line {
                Some(line) => {
                    &&& old(self).remaining().len() > 0
                    &&& line@ == old(self).remaining()[0].as_cut(old(self).input())
                    &&& line@.len() <= old(self).input().len()
                    &&& final(self).remaining() == old(self).remaining().drop_first()
                },
                None => old(self).remaining().len() == 0 && final(self).remaining().len() == 0,
            },
    {
        let data = self.data;
        match self.next_cut() {
            Some(line) => Some(&data[line.start..line.cut]),
            None => None,
        }
    }
}

/// A line, with the split a rewrite needs.
///
/// `whole` is exactly the bytes that name it — the line and its terminator together. That the
/// terminator is included is what makes a name mean the same thing under either newline set.
#[derive(Clone, Copy, Debug)]
pub struct NamedLine<'a> {
    /// Where the line starts in the input.
    pub offset: usize,
    /// The line and its terminator: the bytes [`NamedLine::hash`] covers.
    pub whole: &'a [u8],
    /// The line as the newline set cut it, which under [`Newlines::Lf`] keeps the carriage return
    /// of a CRLF pair.
    pub as_cut: &'a [u8],
    /// How much of `whole` precedes the terminator.
    pub body_len: usize,
}

impl<'a> NamedLine<'a> {
    pub open spec fn wf(&self) -> bool {
        &&& self.body_len <= self.whole@.len()
        &&& self.offset + self.whole@.len() <= usize::MAX
    }

    /// Whether this is `line` of `data`.
    pub open spec fn is(&self, data: Seq<u8>, line: Line) -> bool {
        &&& self.offset == line.start
        &&& self.whole@ == line.whole(data)
        &&& self.as_cut@ == line.as_cut(data)
        &&& self.body_len == line.body_len(data)
        &&& self.offset + self.whole@.len() == line.end
    }

    /// The line's text, without whatever ends it.
    pub fn body(&self) -> (body: &'a [u8])
        requires
            self.wf(),
        ensures
            body@ == self.whole@.subrange(0, self.body_len as int),
    {
        &self.whole[0..self.body_len]
    }

    /// What ends the line: nothing at the end of a file that lacks a final newline.
    pub fn terminator(&self) -> (terminator: &'a [u8])
        requires
            self.wf(),
        ensures
            terminator@ == self.whole@.subrange(self.body_len as int, self.whole@.len() as int),
    {
        &self.whole[self.body_len..self.whole.len()]
    }

    /// Where the line ends, terminator included.
    pub fn end(&self) -> (end: usize)
        requires
            self.wf(),
        ensures
            end == self.offset + self.whole@.len(),
    {
        self.offset + self.whole.len()
    }

    /// The hash naming this line. The cost of covering the terminator is that adding a final
    /// newline renames a file's last line, the one place the two byte strings differ.
    pub fn hash(&self) -> (hash: u64)
        ensures
            hash == hash_of(self.whole@),
    {
        content_hash(self.whole)
    }
}

/// The lines of `data`, each carrying its terminator.
pub struct NamedLines<'a> {
    data: &'a [u8],
    lines: LineIter<'a>,
}

/// Iterate the lines of `data`, each carrying its terminator.
pub fn named_lines<'a>(data: &'a [u8], newlines: Newlines) -> (all: NamedLines<'a>)
    ensures
        all.wf(),
        all.input() == data@,
        all.remaining() == lines(data@, 0, newlines),
{
    NamedLines { data, lines: LineIter::new(data, newlines) }
}

impl<'a> NamedLines<'a> {
    pub closed spec fn wf(&self) -> bool {
        self.lines.wf() && self.lines.input() == self.data@
    }

    pub closed spec fn input(&self) -> Seq<u8> {
        self.data@
    }

    /// The lines still to come.
    pub closed spec fn remaining(&self) -> Seq<Line> {
        self.lines.remaining()
    }

    /// The next line, or `None` past the last.
    pub fn next(&mut self) -> (line: Option<NamedLine<'a>>)
        requires
            old(self).wf(),
        ensures
            final(self).wf(),
            final(self).input() == old(self).input(),
            match line {
                Some(line) => {
                    &&& old(self).remaining().len() > 0
                    &&& line.wf()
                    &&& line.is(old(self).input(), old(self).remaining()[0])
                    &&& final(self).remaining() == old(self).remaining().drop_first()
                },
                None => old(self).remaining().len() == 0 && final(self).remaining().len() == 0,
            },
    {
        let data = self.data;
        match self.lines.next_cut() {
            Some(line) => {
                let as_cut: &'a [u8] = &data[line.start..line.cut];
                let whole: &'a [u8] = &data[line.start..line.end];
                // Under the LF set the carriage return of a CRLF line stays on the line and the
                // Unicode set takes it off, so the body is trimmed to agree with both.
                let body_len: usize = if as_cut.len() > 0 && as_cut[as_cut.len() - 1] == CR {
                    as_cut.len() - 1
                } else {
                    as_cut.len()
                };
                Some(NamedLine { offset: line.start, whole, as_cut, body_len })
            },
            None => None,
        }
    }
}

/// A byte range, in the coordinates of the buffer it was found in.
#[derive(Clone, Copy, PartialEq, Eq, Structural, Debug)]
pub struct Span {
    pub offset: usize,
    pub length: usize,
}

/// The lines of one input with their terminators, as offsets. Concatenating every span reproduces
/// the input exactly.
pub struct LineSpans<'a> {
    lines: LineIter<'a>,
}

impl<'a> LineSpans<'a> {
    pub closed spec fn wf(&self) -> bool {
        self.lines.wf()
    }

    /// The lines still to come.
    pub closed spec fn remaining(&self) -> Seq<Line> {
        self.lines.remaining()
    }

    pub fn new(data: &'a [u8], newlines: Newlines) -> (spans: Self)
        ensures
            spans.wf(),
            spans.remaining() == lines(data@, 0, newlines),
    {
        LineSpans { lines: LineIter::new(data, newlines) }
    }

    /// The next line's span, or `None` past the last.
    pub fn next(&mut self) -> (span: Option<Span>)
        requires
            old(self).wf(),
        ensures
            final(self).wf(),
            match span {
                Some(span) => {
                    &&& old(self).remaining().len() > 0
                    &&& span.offset == old(self).remaining()[0].start
                    &&& span.offset + span.length == old(self).remaining()[0].end
                    &&& final(self).remaining() == old(self).remaining().drop_first()
                },
                None => old(self).remaining().len() == 0 && final(self).remaining().len() == 0,
            },
    {
        match self.lines.next_cut() {
            Some(line) => Some(Span { offset: line.start, length: line.end - line.start }),
            None => None,
        }
    }
}

} // verus!
