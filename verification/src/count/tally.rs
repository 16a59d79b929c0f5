//! What one input measures, counted at once or window by window.

use vstd::prelude::*;

use crate::cuts::{cut_for, lines_split_at_a_boundary, line_boundary, lemma_lines_shift, shifted, CutAfter};
use crate::lines::{
    lemma_lines_chain, lemma_lines_step, lemma_next_break, line_at, line_feeds_cut_the_lines, lines,
    newline_at, Line, LineIter, Newlines,
};
use crate::sz::{byte_count, characters, count_utf8, next_space, segments, space_at};

use super::words::{
    byte_runs, count_words, count_words_resuming, filled, lemma_segments, lemma_unsplit, resumed_words_are_counted_once,
    unsplit, word_open, words_begun, Mode,
};

verus! {

/// One measurement a row can carry, in column order.
#[derive(Clone, Copy, Debug, PartialEq, Eq, Structural)]
pub enum Field {
    Lines,
    Words,
    Bytes,
    Chars,
    MaxLineLength,
}

/// Which measurements to compute and print. Mirrors [`Counts`] field for field.
#[derive(Clone, Copy, Debug, PartialEq, Eq, Structural)]
pub struct Fields {
    pub lines: bool,
    pub words: bool,
    pub bytes: bool,
    pub chars: bool,
    pub max_line_length: bool,
}

fn holds(selection: &[Field], wanted: Field) -> (found: bool)
    ensures
        found == selection@.contains(wanted),
{
    let mut index: usize = 0;
    while index < selection.len()
        invariant
            index <= selection@.len(),
            forall|at: int| 0 <= at < index ==> selection@[at] != wanted,
        decreases selection@.len() - index,
    {
        if selection[index] == wanted {
            assert(selection@[index as int] == wanted);
            return true;
        }
        index += 1;
    }
    false
}

impl Fields {
    /// Read the selectors a selection names.
    pub fn from_selection(selection: &[Field]) -> (fields: Self)
        ensures
            fields == (Fields {
                lines: selection@.contains(Field::Lines),
                words: selection@.contains(Field::Words),
                bytes: selection@.contains(Field::Bytes),
                chars: selection@.contains(Field::Chars),
                max_line_length: selection@.contains(Field::MaxLineLength),
            }),
    {
        Fields {
            lines: holds(selection, Field::Lines),
            words: holds(selection, Field::Words),
            bytes: holds(selection, Field::Bytes),
            chars: holds(selection, Field::Chars),
            max_line_length: holds(selection, Field::MaxLineLength),
        }
    }

    /// Which measurements are selected, in column order.
    pub open spec fn selected(self) -> Seq<bool> {
        seq![self.lines, self.words, self.bytes, self.chars, self.max_line_length]
    }

    /// Which measurements are selected, in column order.
    pub fn selectors(self) -> (selectors: [bool; 5])
        ensures
            selectors@ == self.selected(),
    {
        [self.lines, self.words, self.bytes, self.chars, self.max_line_length]
    }

    /// Whether any selected field needs the bytes themselves. Bytes alone are the length a stat
    /// reports, so every other selector is what calls for a pass.
    pub fn reads_content(self) -> (yes: bool)
        ensures
            yes == (self.lines || self.words || self.chars || self.max_line_length),
    {
        self.lines || self.words || self.chars || self.max_line_length
    }
}

/// One input's measurements.
#[derive(Clone, Copy, Debug, PartialEq, Eq, Structural)]
pub struct Counts {
    pub lines: usize,
    pub words: usize,
    pub bytes: usize,
    pub chars: usize,
    pub max_line_length: usize,
}

impl Default for Counts {
    fn default() -> (counts: Self)
        ensures
            counts == (Counts { lines: 0, words: 0, bytes: 0, chars: 0, max_line_length: 0 }),
    {
        Counts { lines: 0, words: 0, bytes: 0, chars: 0, max_line_length: 0 }
    }
}

/// The larger of two lengths.
pub open spec fn larger(left: nat, right: nat) -> nat {
    if left < right {
        right
    } else {
        left
    }
}

impl Counts {
    /// Fold another input's measurements in: everything adds up but the longest line.
    pub fn add(&mut self, other: &Counts)
        requires
            old(self).lines + other.lines <= usize::MAX,
            old(self).words + other.words <= usize::MAX,
            old(self).bytes + other.bytes <= usize::MAX,
            old(self).chars + other.chars <= usize::MAX,
        ensures
            final(self).lines == old(self).lines + other.lines,
            final(self).words == old(self).words + other.words,
            final(self).bytes == old(self).bytes + other.bytes,
            final(self).chars == old(self).chars + other.chars,
            final(self).max_line_length == larger(
                old(self).max_line_length as nat,
                other.max_line_length as nat,
            ),
    {
        self.lines = self.lines + other.lines;
        self.words = self.words + other.words;
        self.bytes = self.bytes + other.bytes;
        self.chars = self.chars + other.chars;
        if self.max_line_length < other.max_line_length {
            self.max_line_length = other.max_line_length;
        }
    }

    /// Every measurement in column order.
    pub open spec fn measured(self) -> Seq<usize> {
        seq![self.lines, self.words, self.bytes, self.chars, self.max_line_length]
    }

    /// Every measurement in column order.
    pub fn values(self) -> (values: [usize; 5])
        ensures
            values@ == self.measured(),
    {
        [self.lines, self.words, self.bytes, self.chars, self.max_line_length]
    }
}

/// Which pass over the data the selected fields call for. Characters are orthogonal, having their
/// own whole-buffer pass, and bytes are the buffer length, so the five selectors collapse to four
/// plans.
#[derive(Clone, Copy, Debug, PartialEq, Eq, Structural)]
pub enum Plan {
    /// Nothing to scan: the length answers everything asked for.
    Size,
    /// One line pass, for the line count and the longest line.
    LineExtents,
    /// One whitespace pass over the whole buffer, with no line bounds needed.
    WordsOnly,
    /// One line pass that also counts the words each line holds.
    LinesAndWords,
}

impl Plan {
    /// The pass the selected fields call for.
    pub open spec fn for_fields(fields: Fields) -> Plan {
        match (fields.lines || fields.max_line_length, fields.words) {
            (true, true) => Plan::LinesAndWords,
            (true, false) => Plan::LineExtents,
            (false, true) => Plan::WordsOnly,
            (false, false) => Plan::Size,
        }
    }

    /// Pick the pass the selected fields call for.
    pub fn of(fields: Fields) -> (plan: Self)
        ensures
            plan == Plan::for_fields(fields),
    {
        match (fields.lines || fields.max_line_length, fields.words) {
            (true, true) => Plan::LinesAndWords,
            (true, false) => Plan::LineExtents,
            (false, true) => Plan::WordsOnly,
            (false, false) => Plan::Size,
        }
    }
}

/// Everything the counting passes need, decided once.
#[derive(Clone, Copy, Debug, PartialEq, Eq, Structural)]
pub struct Counter {
    pub mode: Mode,
    pub fields: Fields,
    pub plan: Plan,
    /// Where a streamed window may end without the counters losing anything.
    pub cut: CutAfter,
}

/// The running tallies plus the two facts a window boundary would otherwise lose: whether the bytes
/// so far end inside a word, and whether they end with a newline.
#[derive(Clone, Copy, Debug, PartialEq, Eq, Structural)]
pub struct CountState {
    pub counts: Counts,
    pub inside_word: bool,
    pub ends_with_newline: bool,
}

impl Default for CountState {
    fn default() -> (state: Self)
        ensures
            state@ == nothing_counted(),
            state.wf(),
    {
        CountState { counts: Counts::default(), inside_word: false, ends_with_newline: false }
    }
}

/// The running tallies as values.
pub ghost struct Tallies {
    pub lines: nat,
    pub words: nat,
    pub bytes: nat,
    pub chars: nat,
    pub longest: nat,
    pub inside: bool,
    pub terminated: bool,
}

impl View for CountState {
    type V = Tallies;

    open spec fn view(&self) -> Tallies {
        Tallies {
            lines: self.counts.lines as nat,
            words: self.counts.words as nat,
            bytes: self.counts.bytes as nat,
            chars: self.counts.chars as nat,
            longest: self.counts.max_line_length as nat,
            inside: self.inside_word,
            terminated: self.ends_with_newline,
        }
    }
}

impl CountState {
    /// Nothing was counted that was not seen.
    pub open spec fn wf(&self) -> bool {
        &&& self.counts.lines <= self.counts.bytes
        &&& self.counts.words <= self.counts.bytes
        &&& self.counts.chars <= self.counts.bytes
        &&& self.counts.max_line_length <= self.counts.bytes
    }
}

/// Before anything was counted.
pub open spec fn nothing_counted() -> Tallies {
    Tallies {
        lines: 0,
        words: 0,
        bytes: 0,
        chars: 0,
        longest: 0,
        inside: false,
        terminated: false,
    }
}

/// The length of the longest of these lines, or `floor` where none is longer.
pub open spec fn longest(all: Seq<Line>, floor: nat) -> nat
    decreases all.len(),
{
    if all.len() == 0 {
        floor
    } else {
        larger(longest(all.drop_last(), floor), (all.last().cut - all.last().start) as nat)
    }
}

/// How many words these lines of `data` hold together.
pub open spec fn line_words(data: Seq<u8>, all: Seq<Line>, mode: Mode) -> nat
    decreases all.len(),
{
    if all.len() == 0 {
        0
    } else {
        line_words(data, all.drop_last(), mode) + words_begun(all.last().as_cut(data), mode, false)
    }
}

/// What folding one window into the running tallies gives.
pub open spec fn tallied(counter: Counter, window: Seq<u8>, before: Tallies) -> Tallies {
    let all = lines(window, 0, counter.mode.newline_set());
    let by_lines = counter.plan == Plan::LineExtents || counter.plan == Plan::LinesAndWords;
    Tallies {
        bytes: before.bytes + window.len(),
        chars: before.chars + if counter.fields.chars {
            characters(window)
        } else {
            0
        },
        lines: before.lines + if by_lines {
            all.len()
        } else {
            0
        },
        longest: if by_lines {
            longest(all, before.longest)
        } else {
            before.longest
        },
        words: before.words + match counter.plan {
            Plan::WordsOnly => words_begun(window, counter.mode, before.inside),
            Plan::LinesAndWords => line_words(window, all, counter.mode),
            _ => 0,
        },
        inside: if counter.plan == Plan::WordsOnly {
            word_open(window, counter.mode, before.inside)
        } else {
            before.inside
        },
        terminated: if window.len() > 0 {
            window.last() == 0x0A
        } else {
            before.terminated
        },
    }
}

/// The number of lines a run reports: a final line without a terminator is none to `wc`.
pub open spec fn lines_reported(mode: Mode, lines: nat, terminated: bool) -> nat {
    if mode == Mode::Posix && !terminated && lines > 0 {
        (lines - 1) as nat
    } else {
        lines
    }
}

/// The weakest cut a counter's passes allow.
pub open spec fn cut_of(mode: Mode, fields: Fields) -> CutAfter {
    match Plan::for_fields(fields) {
        // A line pass has to see whole lines.
        Plan::LineExtents | Plan::LinesAndWords => cut_for(mode.newline_set()),
        // Counting characters and splitting by Unicode whitespace decode, so they need whole
        // characters; the byte-level word loop reads one byte at a time and does not.
        Plan::Size | Plan::WordsOnly => if fields.chars || mode == Mode::Unicode {
            CutAfter::Characters
        } else {
            CutAfter::Anywhere
        },
    }
}

impl Counter {
    pub open spec fn wf(&self) -> bool {
        self.plan == Plan::for_fields(self.fields) && self.cut == cut_of(self.mode, self.fields)
    }

    /// Derive the pass to take and the weakest cut it allows, once per run.
    pub fn new(mode: Mode, fields: Fields) -> (counter: Self)
        ensures
            counter.mode == mode,
            counter.fields == fields,
            counter.wf(),
    {
        let plan = Plan::of(fields);
        let cut = match plan {
            Plan::LineExtents | Plan::LinesAndWords => CutAfter::from(mode.newlines()),
            Plan::Size | Plan::WordsOnly => if fields.chars || mode.separates_words_by_unicode() {
                CutAfter::Characters
            } else {
                CutAfter::Anywhere
            },
        };
        Counter { mode, fields, plan, cut }
    }

    /// Fold one window into the running tallies. A line pass needs the window to hold whole lines,
    /// and every decoding pass needs it to hold whole characters; [`Counter::cut`] is where a
    /// window may end for both.
    pub fn count_window(self, window: &[u8], state: &mut CountState)
        requires
            self.wf(),
            old(state).wf(),
            old(state).counts.bytes + window@.len() <= usize::MAX,
        ensures
            final(state).wf(),
            final(state)@ == tallied(self, window@, old(state)@),
    {
        proof {
            lemma_characters(window@);
        }
        state.counts.bytes = state.counts.bytes + window.len();
        if self.fields.chars {
            // One pass over the whole window, so whitespace and newlines are included. Skipped
            // entirely when no selector asked for characters.
            state.counts.chars = state.counts.chars + count_utf8(window);
        }
        match self.plan {
            Plan::Size => {},
            Plan::LineExtents => {
                count_line_extents(window, self.mode, &mut state.counts);
            },
            Plan::WordsOnly => {
                // Every newline is itself a separator, so no word run spans a line break and the
                // whole window counts as one line.
                let words: usize = count_words_resuming(
                    window,
                    self.mode,
                    &mut state.inside_word,
                );
                state.counts.words = state.counts.words + words;
            },
            Plan::LinesAndWords => {
                count_lines_and_words(window, self.mode, &mut state.counts);
            },
        }
        if window.len() > 0 {
            state.ends_with_newline = window[window.len() - 1] == 0x0A;
        }
    }

    /// Report the tallies, applying `wc`'s rule that a final line without a terminator is not a
    /// line.
    pub fn finish(self, state: CountState) -> (counts: Counts)
        ensures
            counts.lines == lines_reported(self.mode, state@.lines, state@.terminated),
            counts.words == state.counts.words,
            counts.bytes == state.counts.bytes,
            counts.chars == state.counts.chars,
            counts.max_line_length == state.counts.max_line_length,
    {
        let mut counts = state.counts;
        if !self.mode.counts_unterminated_line() && !state.ends_with_newline && counts.lines > 0 {
            counts.lines = counts.lines - 1;
        }
        counts
    }
}

proof fn lemma_characters(data: Seq<u8>)
    ensures
        characters(data) <= data.len(),
    decreases data.len(),
{
    if data.len() > 0 {
        lemma_characters(data.drop_last());
    }
}

/// Count lines and measure the longest one.
pub fn count_line_extents(data: &[u8], mode: Mode, counts: &mut Counts)
    requires
        old(counts).lines + data@.len() <= old(counts).bytes,
        old(counts).max_line_length <= old(counts).bytes,
        data@.len() <= old(counts).bytes,
    ensures
        ({
            let all = lines(data@, 0, mode.newline_set());
            &&& final(counts).lines == old(counts).lines + all.len()
            &&& final(counts).max_line_length == longest(all, old(counts).max_line_length as nat)
        }),
        final(counts).lines <= old(counts).bytes,
        final(counts).max_line_length <= old(counts).bytes,
        final(counts).bytes == old(counts).bytes,
        final(counts).words == old(counts).words,
        final(counts).chars == old(counts).chars,
{
    count_lines(data, mode, counts, false);
}

/// Count lines, measure the longest one, and count the words they hold in one pass.
pub fn count_lines_and_words(data: &[u8], mode: Mode, counts: &mut Counts)
    requires
        old(counts).lines + data@.len() <= old(counts).bytes,
        old(counts).words + data@.len() <= old(counts).bytes,
        old(counts).max_line_length <= old(counts).bytes,
        data@.len() <= old(counts).bytes,
    ensures
        ({
            let all = lines(data@, 0, mode.newline_set());
            &&& final(counts).lines == old(counts).lines + all.len()
            &&& final(counts).max_line_length == longest(all, old(counts).max_line_length as nat)
            &&& final(counts).words == old(counts).words + line_words(data@, all, mode)
        }),
        final(counts).lines <= old(counts).bytes,
        final(counts).max_line_length <= old(counts).bytes,
        final(counts).words <= old(counts).bytes,
        final(counts).bytes == old(counts).bytes,
        final(counts).chars == old(counts).chars,
{
    count_lines(data, mode, counts, true);
}

fn count_lines(data: &[u8], mode: Mode, counts: &mut Counts, and_words: bool)
    requires
        old(counts).lines + data@.len() <= old(counts).bytes,
        and_words ==> old(counts).words + data@.len() <= old(counts).bytes,
        old(counts).max_line_length <= old(counts).bytes,
        data@.len() <= old(counts).bytes,
    ensures
        ({
            let all = lines(data@, 0, mode.newline_set());
            &&& final(counts).lines == old(counts).lines + all.len()
            &&& final(counts).max_line_length == longest(all, old(counts).max_line_length as nat)
            &&& final(counts).words == old(counts).words + if and_words {
                line_words(data@, all, mode)
            } else {
                0
            }
        }),
        final(counts).lines <= old(counts).bytes,
        final(counts).max_line_length <= old(counts).bytes,
        and_words ==> final(counts).words <= old(counts).bytes,
        final(counts).bytes == old(counts).bytes,
        final(counts).chars == old(counts).chars,
{
    let newlines = mode.newlines();
    let ghost all = lines(data@, 0, newlines);
    let ghost mut seen: nat = 0;
    let mut cuts = LineIter::new(data, newlines);
    proof {
        assert(all.skip(0) =~= all);
        assert(all.take(0) =~= Seq::empty());
    }
    loop
        invariant
            cuts.wf(),
            cuts.input() == data@,
            cuts.newlines() == newlines,
            newlines == mode.newline_set(),
            all == lines(data@, 0, newlines),
            seen <= all.len(),
            cuts.remaining() == all.skip(seen as int),
            seen <= cuts.at() <= data@.len(),
            data@.len() <= old(counts).bytes,
            old(counts).lines + data@.len() <= old(counts).bytes,
            and_words ==> old(counts).words + data@.len() <= old(counts).bytes,
            counts.lines == old(counts).lines + seen,
            counts.max_line_length == longest(
                all.take(seen as int),
                old(counts).max_line_length as nat,
            ),
            counts.max_line_length <= old(counts).bytes,
            counts.words == old(counts).words + if and_words {
                line_words(data@, all.take(seen as int), mode)
            } else {
                0
            },
            and_words ==> counts.words <= old(counts).words + cuts.at(),
            counts.bytes == old(counts).bytes,
            counts.chars == old(counts).chars,
        ensures
            cuts.remaining().len() == 0,
        decreases data@.len() - cuts.at(),
    {
        let line = match cuts.next_cut() {
            Some(line) => line,
            None => {
                break;
            },
        };
        proof {
            let next = all.take(seen as int + 1);
            assert(all.skip(seen as int)[0] == all[seen as int]);
            assert(next.drop_last() =~= all.take(seen as int));
            assert(next.last() == all[seen as int]);
            assert(all.skip(seen as int).drop_first() =~= all.skip(seen as int + 1));
        }
        counts.lines = counts.lines + 1;
        let length: usize = line.cut - line.start;
        if counts.max_line_length < length {
            counts.max_line_length = length;
        }
        if and_words {
            let words: usize = count_words(&data[line.start..line.cut], mode);
            counts.words = counts.words + words;
        }
        proof {
            seen = seen + 1;
        }
    }
    proof {
        assert(all.skip(seen as int).len() == all.len() - seen);
        assert(all.take(seen as int) =~= all);
    }
}

/// What one whole input measures, for the fields asked for.
pub open spec fn counted(mode: Mode, fields: Fields, data: Seq<u8>) -> Tallies {
    let all = lines(data, 0, mode.newline_set());
    let by_lines = fields.lines || fields.max_line_length;
    Tallies {
        lines: if by_lines {
            lines_reported(mode, all.len(), data.len() > 0 && data.last() == 0x0A)
        } else {
            0
        },
        words: if fields.words {
            words_begun(data, mode, false)
        } else {
            0
        },
        bytes: data.len(),
        chars: if fields.chars {
            characters(data)
        } else {
            0
        },
        longest: if by_lines {
            longest(all, 0)
        } else {
            0
        },
        inside: false,
        terminated: false,
    }
}

impl Counts {
    /// Whether these are the measurements of an input.
    pub open spec fn are(self, measured: Tallies) -> bool {
        &&& self.lines == measured.lines
        &&& self.words == measured.words
        &&& self.bytes == measured.bytes
        &&& self.chars == measured.chars
        &&& self.max_line_length == measured.longest
    }
}

impl Counter {
    /// Count the selected metrics for given data, taking only the passes they call for.
    pub fn count_data(self, data: &[u8]) -> (counts: Counts)
        requires
            self.wf(),
        ensures
            counts.are(counted(self.mode, self.fields, data@)),
    {
        let mut state = CountState::default();
        assert(data.len() <= usize::MAX);
        self.count_window(data, &mut state);
        proof {
            line_words_are_words(data@, self.mode);
        }
        self.finish(state)
    }
}

/// Whatever a subset of the fields measures, all of them together measure too: no measurement
/// depends on which others were asked for.
pub proof fn subset_plans_agree(mode: Mode, some: Fields, more: Fields, data: Seq<u8>)
    requires
        some.lines ==> more.lines,
        some.words ==> more.words,
        some.chars ==> more.chars,
        some.max_line_length ==> more.max_line_length,
    ensures
        counted(mode, some, data).bytes == counted(mode, more, data).bytes,
        some.lines ==> counted(mode, some, data).lines == counted(mode, more, data).lines,
        some.words ==> counted(mode, some, data).words == counted(mode, more, data).words,
        some.chars ==> counted(mode, some, data).chars == counted(mode, more, data).chars,
        some.max_line_length ==> counted(mode, some, data).longest == counted(
            mode,
            more,
            data,
        ).longest,
{
}

/// Where `wc` is matched byte for byte, the lines reported are the newline bytes of the input.
pub proof fn posix_lines_are_newline_bytes(fields: Fields, data: Seq<u8>)
    requires
        fields.lines,
    ensures
        counted(Mode::Posix, fields, data).lines == byte_count(data, 0x0A),
{
    line_feeds_cut_the_lines(data);
}

/// A line terminator holds no word and leaves none open.
proof fn lemma_terminator(ending: Seq<u8>, mode: Mode, inside: bool)
    requires
        ending.len() > 0,
        newline_at(ending, 0, mode.newline_set()) == ending.len(),
    ensures
        words_begun(ending, mode, inside) == 0,
        !word_open(ending, mode, inside),
{
    if mode == Mode::Unicode {
        reveal_with_fuel(segments, 4);
        reveal_with_fuel(next_space, 4);
        reveal_with_fuel(filled, 4);
        let parts = segments(ending, 0);
        lemma_segments(ending, 0);
        let first = space_at(ending, 0);
        assert(first > 0);
        assert(next_space(ending, 0) == 0);
        let later = segments(ending, first);
        assert(parts == seq![ending.subrange(0, 0)] + later);
        if first == ending.len() {
            assert(later =~= seq![ending.subrange(first, first)]);
            assert(parts =~= seq![ending.subrange(0, 0), ending.subrange(first, first)]);
        } else {
            // A carriage return and the line feed behind it are two separators.
            assert(ending.len() == 2 && first == 1);
            assert(next_space(ending, 1) == 1);
            let last = segments(ending, 2);
            assert(last =~= seq![ending.subrange(2, 2)]);
            assert(later == seq![ending.subrange(1, 1)] + last);
            assert(parts =~= seq![
                ending.subrange(0, 0),
                ending.subrange(1, 1),
                ending.subrange(2, 2),
            ]);
        }
        assert forall|i: int| 0 <= i < parts.len() implies parts[i].len() == 0 by {}
        lemma_none_filled(parts);
    } else {
        reveal_with_fuel(byte_runs, 2);
        assert(ending.drop_last() =~= Seq::empty());
    }
}

proof fn lemma_none_filled(parts: Seq<Seq<u8>>)
    requires
        forall|i: int| 0 <= i < parts.len() ==> (#[trigger] parts[i]).len() == 0,
    ensures
        filled(parts) == 0,
    decreases parts.len(),
{
    if parts.len() > 0 {
        assert(parts.last() == parts[parts.len() - 1]);
        assert forall|i: int| 0 <= i < parts.drop_last().len() implies (
        #[trigger] parts.drop_last()[i]).len() == 0 by {
            assert(parts.drop_last()[i] == parts[i]);
        }
        lemma_none_filled(parts.drop_last());
    }
}

/// No whitespace character of a line terminator reaches into what follows it.
proof fn lemma_terminator_unsplit(ending: Seq<u8>, rest: Seq<u8>)
    requires
        ending.len() > 0,
        newline_at(ending + rest, 0, Newlines::Unicode) == ending.len(),
    ensures
        unsplit(ending, rest),
{
    let whole = ending + rest;
    assert forall|at: int| 0 <= at < ending.len() implies #[trigger] space_at(whole, at) == space_at(
        ending,
        at,
    ) by {
        assert(whole[at] == ending[at]);
        if at + 1 < ending.len() {
            assert(whole[at + 1] == ending[at + 1]);
        }
        if at + 2 < ending.len() {
            assert(whole[at + 2] == ending[at + 2]);
        }
        assert(whole[0] == ending[0]);
    }
}

/// Every newline separates words: the words of the lines are the words of the whole.
pub proof fn line_words_are_words(data: Seq<u8>, mode: Mode)
    ensures
        line_words(data, lines(data, 0, mode.newline_set()), mode) == words_begun(
            data,
            mode,
            false,
        ),
{
    lemma_line_words(data, 0, mode);
    assert(data.subrange(0, data.len() as int) =~= data);
}

#[verifier::rlimit(40)]
proof fn lemma_line_words(data: Seq<u8>, from: int, mode: Mode)
    requires
        0 <= from <= data.len(),
    ensures
        line_words(data, lines(data, from, mode.newline_set()), mode) == words_begun(
            data.subrange(from, data.len() as int),
            mode,
            false,
        ),
    decreases data.len() - from,
{
    let newlines = mode.newline_set();
    let rest = data.subrange(from, data.len() as int);
    if from < data.len() {
        lemma_lines_step(data, from, newlines);
        lemma_next_break(data, from, newlines);
        let line = line_at(data, from, newlines);
        let all = lines(data, from, newlines);
        let later = lines(data, line.end, newlines);
        let cut = line.as_cut(data);
        let ending = data.subrange(line.cut, line.end);
        let tail = data.subrange(line.end, data.len() as int);
        lemma_line_words(data, line.end, mode);
        lemma_line_words_split(data, seq![line], later, mode);
        lemma_one_line(data, line, mode);
        let behind = ending + tail;
        assert(rest =~= cut + behind);
        if line.cut < data.len() {
            assert(behind[0] == data[line.cut]);
            assert(forall|i: int| 0 <= i < behind.len() ==> behind[i] == data[line.cut + i]);
            assert(newline_at(behind, 0, newlines) == ending.len());
            if mode == Mode::Unicode {
                lemma_unsplit(cut, behind);
                lemma_terminator_unsplit(ending, tail);
            }
            resumed_words_are_counted_once(cut, behind, mode, false);
            let open = word_open(cut, mode, false);
            resumed_words_are_counted_once(ending, tail, mode, open);
            assert(newline_at(ending, 0, newlines) == ending.len());
            lemma_terminator(ending, mode, open);
        } else {
            assert(behind =~= Seq::empty());
            assert(rest =~= cut);
            assert(tail =~= Seq::empty());
            lemma_no_words(tail, mode);
        }
    } else {
        assert(rest =~= Seq::empty());
        lemma_no_words(rest, mode);
    }
}

proof fn lemma_no_words(data: Seq<u8>, mode: Mode)
    requires
        data.len() == 0,
    ensures
        words_begun(data, mode, false) == 0,
{
    lemma_segments(data, 0);
}

proof fn lemma_one_line(data: Seq<u8>, line: Line, mode: Mode)
    ensures
        line_words(data, seq![line], mode) == words_begun(line.as_cut(data), mode, false),
{
    reveal_with_fuel(line_words, 2);
    assert(seq![line].drop_last() =~= Seq::empty());
}

proof fn lemma_line_words_split(data: Seq<u8>, one: Seq<Line>, two: Seq<Line>, mode: Mode)
    ensures
        line_words(data, one + two, mode) == line_words(data, one, mode) + line_words(
            data,
            two,
            mode,
        ),
    decreases two.len(),
{
    if two.len() == 0 {
        assert(one + two =~= one);
    } else {
        assert((one + two).drop_last() =~= one + two.drop_last());
        lemma_line_words_split(data, one, two.drop_last(), mode);
    }
}

/// Whether an input may be cut between these parts without a counter losing anything.
pub open spec fn may_cut(counter: Counter, one: Seq<u8>, two: Seq<u8>) -> bool {
    &&& (counter.plan == Plan::LineExtents || counter.plan == Plan::LinesAndWords)
        && one.len() > 0 ==> line_boundary(
        one + two,
        one.len() as int,
        counter.mode.newline_set(),
    )
    &&& counter.plan == Plan::WordsOnly && counter.mode == Mode::Unicode ==> unsplit(one, two)
}

/// Counting characters in two parts counts those of the whole.
pub proof fn lemma_characters_join(one: Seq<u8>, two: Seq<u8>)
    ensures
        characters(one + two) == characters(one) + characters(two),
    decreases two.len(),
{
    if two.len() == 0 {
        assert(one + two =~= one);
    } else {
        assert((one + two).drop_last() =~= one + two.drop_last());
        lemma_characters_join(one, two.drop_last());
    }
}

proof fn lemma_longest_split(one: Seq<Line>, two: Seq<Line>, by: int, floor: nat)
    ensures
        longest(one + two.map_values(|line: Line| shifted(line, by)), floor) == longest(
            two,
            longest(one, floor),
        ),
    decreases two.len(),
{
    let moved = two.map_values(|line: Line| shifted(line, by));
    if two.len() == 0 {
        assert(one + moved =~= one);
    } else {
        let earlier = two.drop_last().map_values(|line: Line| shifted(line, by));
        assert((one + moved).drop_last() =~= one + earlier);
        assert((one + moved).last() == shifted(two.last(), by));
        lemma_longest_split(one, two.drop_last(), by, floor);
    }
}

proof fn lemma_line_words_moved(
    whole: Seq<u8>,
    part: Seq<u8>,
    all: Seq<Line>,
    by: int,
    mode: Mode,
)
    requires
        0 <= by,
        by + part.len() <= whole.len(),
        part == whole.subrange(by, by + part.len()),
        forall|i: int|
            #![trigger all[i]]
            0 <= i < all.len() ==> 0 <= all[i].start <= all[i].cut <= part.len(),
    ensures
        line_words(whole, all.map_values(|line: Line| shifted(line, by)), mode) == line_words(
            part,
            all,
            mode,
        ),
    decreases all.len(),
{
    let moved = all.map_values(|line: Line| shifted(line, by));
    if all.len() > 0 {
        let earlier = all.drop_last();
        assert forall|i: int| #![trigger earlier[i]] 0 <= i < earlier.len() implies 0
            <= earlier[i].start <= earlier[i].cut <= part.len() by {
            assert(earlier[i] == all[i]);
        }
        lemma_line_words_moved(whole, part, earlier, by, mode);
        assert(moved.drop_last() =~= earlier.map_values(|line: Line| shifted(line, by)));
        let last = all.last();
        assert(last == all[all.len() - 1]);
        assert(shifted(last, by).as_cut(whole) =~= last.as_cut(part));
    }
}

/// The lines of two parts, cut where a line ends, are the lines of the whole.
proof fn lemma_lines_of_parts(one: Seq<u8>, two: Seq<u8>, mode: Mode, floor: nat)
    requires
        one.len() > 0 ==> line_boundary(one + two, one.len() as int, mode.newline_set()),
    ensures
        ({
            let newlines = mode.newline_set();
            let all = lines(one + two, 0, newlines);
            let front = lines(one, 0, newlines);
            let back = lines(two, 0, newlines);
            &&& all.len() == front.len() + back.len()
            &&& longest(all, floor) == longest(back, longest(front, floor))
            &&& line_words(one + two, all, mode) == line_words(one, front, mode) + line_words(
                two,
                back,
                mode,
            )
        }),
{
    let newlines = mode.newline_set();
    let whole = one + two;
    let at = one.len() as int;
    assert(whole.subrange(0, at) =~= one);
    assert(whole.subrange(at, whole.len() as int) =~= two);
    let front = lines(one, 0, newlines);
    let back = lines(two, 0, newlines);
    let moved = back.map_values(|line: Line| shifted(line, at));
    if at > 0 {
        lines_split_at_a_boundary(whole, at, newlines);
    } else {
        assert(front =~= Seq::empty());
        assert(lines(whole, at, newlines) =~= front + lines(whole, at, newlines));
    }
    lemma_lines_shift(whole, at, at, newlines);
    assert(lines(whole, 0, newlines) == front + moved);
    lemma_longest_split(front, back, at, floor);
    lemma_line_words_split(whole, front, moved, mode);
    lemma_lines_chain(one, 0, newlines);
    lemma_lines_chain(two, 0, newlines);
    assert(front.map_values(|line: Line| shifted(line, 0)) =~= front);
    assert(two =~= whole.subrange(at, at + two.len()));
    lemma_line_words_moved(whole, one, front, 0, mode);
    lemma_line_words_moved(whole, two, back, at, mode);
}

/// Counting an input in two windows, cut where the counter allows it, counts the whole.
pub proof fn windows_count_the_whole(
    counter: Counter,
    one: Seq<u8>,
    two: Seq<u8>,
    before: Tallies,
)
    requires
        counter.wf(),
        may_cut(counter, one, two),
    ensures
        tallied(counter, one + two, before) == tallied(counter, two, tallied(counter, one, before)),
{
    let whole = one + two;
    lemma_characters_join(one, two);
    if two.len() > 0 {
        assert(whole.last() == two.last());
    } else {
        assert(whole =~= one);
    }
    if counter.plan == Plan::WordsOnly {
        resumed_words_are_counted_once(one, two, counter.mode, before.inside);
    }
    if counter.plan == Plan::LineExtents || counter.plan == Plan::LinesAndWords {
        lemma_lines_of_parts(one, two, counter.mode, before.longest);
    }
}

/// The size the kernel keeps for a regular file, when it is worth trusting. Synthetic files
/// misreport it in both directions, so the claim stands only when the byte it calls last reads back,
/// which also excludes empty files, free to read anyway.
pub fn trusted_size(claimed: u64, is_file: bool, last_byte_reads: bool) -> (size: Option<usize>)
    ensures
        size == if is_file && last_byte_reads && 0 < claimed <= usize::MAX {
            Some(claimed as usize)
        } else {
            None
        },
{
    if is_file && last_byte_reads && claimed > 0 && claimed <= usize::MAX as u64 {
        Some(claimed as usize)
    } else {
        None
    }
}

} // verus!
