//! Searching one window of lines, and what a search remembers between windows.

use std::collections::VecDeque;

use vstd::prelude::*;
use vstd::utf8::encode_utf8;

use crate::cuts::{cut_for, cut_point, shifted, windows_keep_lines_whole};
use crate::lines::{
    lemma_lines_chain, lines, named_lines, Line, LineIter, NamedLine, Newlines,
};

use super::emit::{Coloring, Emitter, LineRecord, Record, Sheet};
use super::matcher::Rule;
use super::options::{Context, OutputConfig, Reporting};
use super::search::{reached, selected, Search, Selection};

verus! {

/// Why a search stopped with input still unread.
#[derive(Clone, Copy, Debug, PartialEq, Eq, Structural)]
pub enum Stop {
    /// The cap on matches is satisfied, which ends the walk over the remaining inputs too.
    MaxMatches,
    /// Only existence was asked for, and the first match answered it.
    FirstMatch,
}

/// What one file contributed to the run, and where its search stopped.
#[derive(Clone, Copy, Debug, PartialEq, Eq, Structural)]
pub struct FileResult {
    pub match_count: usize,
    pub lines_searched: usize,
    pub bytes_searched: usize,
    pub flow: Option<Stop>,
}

impl FileResult {
    /// Whether the cap on matches ended this file, and with it the whole run.
    pub fn capped(&self) -> (capped: bool)
        ensures
            capped == (self.flow == Some(Stop::MaxMatches)),
    {
        match self.flow {
            Some(Stop::MaxMatches) => true,
            _ => false,
        }
    }
}

/// A line as a search walks over it: as it was cut, with its terminator, and where it stands in the
/// whole input.
pub ghost struct Seen {
    pub as_cut: Seq<u8>,
    pub whole: Seq<u8>,
    pub offset: nat,
}

/// A line of `data`, which starts `base` bytes into the input.
pub open spec fn seen_line(data: Seq<u8>, base: int, line: Line) -> Seen {
    Seen {
        as_cut: line.as_cut(data),
        whole: line.whole(data),
        offset: (base + line.start) as nat,
    }
}

/// These lines of `data`, which starts `base` bytes into the input.
pub open spec fn seen_lines(data: Seq<u8>, base: int, all: Seq<Line>) -> Seq<Seen> {
    all.map_values(|line: Line| seen_line(data, base, line))
}

/// Every line of a window that starts `base` bytes into the input.
pub open spec fn window_lines(window: Seq<u8>, base: int, newlines: Newlines) -> Seq<Seen> {
    seen_lines(window, base, lines(window, 0, newlines))
}

/// A line held for look-behind, and its number.
pub ghost struct Held {
    pub seen: Seen,
    pub number: nat,
}

/// What a search remembers between lines.
#[verifier::ext_equal]
pub ghost struct Progress {
    /// How many lines were selected.
    pub matches: nat,
    /// How many lines were walked over, selected or not.
    pub lines: nat,
    /// Whether the once-per-file header was written.
    pub headed: bool,
    /// How many lines behind the last match are still to be printed.
    pub pending: nat,
    /// The last line that was printed.
    pub last: Option<nat>,
    /// The lines held for look-behind, oldest first.
    pub behind: Seq<Held>,
}

/// What a search is to do with every line.
pub ghost struct Task {
    pub path: Seq<u8>,
    pub rule: Rule,
    pub newlines: Newlines,
    pub invert: bool,
    pub max: Option<usize>,
    pub reporting: Reporting,
    pub heading: Option<Seq<u8>>,
}

impl Task {
    /// How the records of such a search are written.
    pub open spec fn sheet(self, config: OutputConfig) -> Sheet {
        Sheet {
            path: self.path,
            rule: self.rule,
            newlines: self.newlines,
            invert: self.invert,
            config,
            heading: self.heading,
        }
    }
}

/// What walking over some lines writes, leaves behind and decides.
#[verifier::ext_equal]
pub ghost struct Walked {
    pub bytes: Seq<u8>,
    pub progress: Progress,
    pub stop: Option<Stop>,
}

/// Whether a line still has to be printed, given how far the output has reached.
pub open spec fn unprinted(number: nat, last: Option<nat>) -> bool {
    last matches Some(last) ==> number > last
}

/// The first held line a group opening here would print, from `from` on.
pub open spec fn first_unprinted(behind: Seq<Held>, last: Option<nat>, from: int) -> Option<nat>
    decreases behind.len() - from,
{
    if from < 0 || from >= behind.len() {
        None
    } else if unprinted(behind[from].number, last) {
        Some(behind[from].number)
    } else {
        first_unprinted(behind, last, from + 1)
    }
}

/// A surrounding line as a record.
pub open spec fn context_record(seen: Seen, number: nat) -> Record {
    Record {
        as_cut: seen.as_cut,
        whole: seen.whole,
        number,
        offset: seen.offset,
        is_match: false,
        first: None,
    }
}

/// A selected line as a record.
pub open spec fn match_record(seen: Seen, number: nat, first: Option<(int, int)>) -> Record {
    Record {
        as_cut: seen.as_cut,
        whole: seen.whole,
        number,
        offset: seen.offset,
        is_match: true,
        first,
    }
}

/// The held lines from `from` on that are not printed yet.
pub open spec fn held_lines(sheet: Sheet, behind: Seq<Held>, from: int, last: Option<nat>) -> Seq<
    u8,
>
    decreases behind.len() - from,
{
    if from < 0 || from >= behind.len() {
        Seq::empty()
    } else if unprinted(behind[from].number, last) {
        sheet.line(context_record(behind[from].seen, behind[from].number), Coloring::Plain)
            + held_lines(sheet, behind, from + 1, Some(behind[from].number))
    } else {
        held_lines(sheet, behind, from + 1, last)
    }
}

/// The header, where it is not written yet.
pub open spec fn heading_due(sheet: Sheet, headed: bool) -> Seq<u8> {
    if headed {
        Seq::empty()
    } else {
        sheet.file_heading()
    }
}

/// What a selected line writes among its surrounding lines: the header that is due, the divider
/// where the group it opens does not adjoin the last one, the held lines that are not printed yet,
/// and the line itself.
pub open spec fn group_opening(sheet: Sheet, before: Progress, number: nat) -> Seq<u8> {
    let opens = match first_unprinted(before.behind, before.last, 0) {
        Some(first) => first,
        None => number,
    };
    heading_due(sheet, before.headed) + (if before.last matches Some(last) && opens > last + 1 {
        sheet.group_separator()
    } else {
        Seq::empty()
    }) + held_lines(sheet, before.behind, 0, before.last)
}

/// The look-behind ring once a line was walked over: as many lines as were asked for, the oldest
/// leaving first.
pub open spec fn ring(behind: Seq<Held>, before: int, seen: Seen, number: nat) -> Seq<Held> {
    if before > 0 {
        (if behind.len() >= before {
            behind.drop_first()
        } else {
            behind
        }).push(Held { seen, number })
    } else {
        behind
    }
}

/// What printing with context writes for one line, the look-behind ring aside: a selected line
/// opens or continues a group, and a line behind a match is printed while any are pending.
pub open spec fn printed_around(
    sheet: Sheet,
    context: Context,
    seen: Seen,
    before: Progress,
    choice: Option<Option<(int, int)>>,
) -> Walked {
    let number = before.lines + 1;
    match choice {
        Some(first) => Walked {
            bytes: group_opening(sheet, before, number) + sheet.match_line(
                match_record(seen, number, first),
            ),
            progress: Progress {
                matches: before.matches + 1,
                lines: number,
                headed: before.headed || sheet.opens_files(),
                pending: context.after as nat,
                last: Some(number),
                behind: before.behind,
            },
            stop: None,
        },
        None => if before.pending > 0 {
            Walked {
                bytes: sheet.line(context_record(seen, number), Coloring::Plain),
                progress: Progress {
                    lines: number,
                    pending: (before.pending - 1) as nat,
                    last: Some(number),
                    ..before
                },
                stop: None,
            }
        } else {
            Walked {
                bytes: Seq::empty(),
                progress: Progress { lines: number, ..before },
                stop: None,
            }
        },
    }
}

/// What walking over one line does.
#[verifier::opaque]
pub open spec fn step(task: Task, seen: Seen, before: Progress) -> Walked {
    let number = before.lines + 1;
    let counted = Progress { lines: number, ..before };
    if reached(before.matches, task.max) {
        // Counted before the cap is tested, so a summary includes the line that trips it.
        Walked { bytes: Seq::empty(), progress: counted, stop: Some(Stop::MaxMatches) }
    } else {
        let choice = selected(seen.as_cut, task.rule, task.invert);
        match task.reporting {
            Reporting::Tally { stop_at_first } => Walked {
                bytes: Seq::empty(),
                progress: if choice is Some {
                    Progress { matches: before.matches + 1, ..counted }
                } else {
                    counted
                },
                stop: if choice is Some && stop_at_first {
                    Some(Stop::FirstMatch)
                } else {
                    None
                },
            },
            Reporting::Print(config) => {
                let sheet = task.sheet(config);
                match choice {
                    Some(first) => Walked {
                        bytes: heading_due(sheet, before.headed) + sheet.match_line(
                            match_record(seen, number, first),
                        ),
                        progress: Progress {
                            matches: before.matches + 1,
                            headed: before.headed || sheet.opens_files(),
                            ..counted
                        },
                        stop: None,
                    },
                    None => Walked { bytes: Seq::empty(), progress: counted, stop: None },
                }
            },
            Reporting::PrintContext(config, context) => {
                let printed = printed_around(task.sheet(config), context, seen, before, choice);
                Walked {
                    bytes: printed.bytes,
                    progress: Progress {
                        behind: ring(before.behind, context.before as int, seen, number),
                        ..printed.progress
                    },
                    stop: None,
                }
            },
        }
    }
}

/// What walking over these lines does, until something stops the walk.
pub open spec fn walk(task: Task, all: Seq<Seen>, before: Progress) -> Walked
    decreases all.len(),
{
    if all.len() == 0 {
        Walked { bytes: Seq::empty(), progress: before, stop: None }
    } else {
        let first = step(task, all[0], before);
        if first.stop is Some {
            first
        } else {
            let rest = walk(task, all.drop_first(), first.progress);
            Walked {
                bytes: first.bytes + rest.bytes,
                progress: rest.progress,
                stop: rest.stop,
            }
        }
    }
}

/// Walking over some lines and then over more, unless the first ones stopped the walk, is walking
/// over them all.
pub proof fn lemma_walk_joins(task: Task, first: Seq<Seen>, second: Seq<Seen>, before: Progress)
    ensures
        ({
            let one = walk(task, first, before);
            let whole = walk(task, first + second, before);
            if one.stop is Some {
                whole == one
            } else {
                let two = walk(task, second, one.progress);
                &&& whole.bytes == one.bytes + two.bytes
                &&& whole.progress == two.progress
                &&& whole.stop == two.stop
            }
        }),
    decreases first.len(),
{
    if first.len() == 0 {
        assert(first + second =~= second);
        let two = walk(task, second, before);
        assert(Seq::<u8>::empty() + two.bytes =~= two.bytes);
    } else {
        let opening = step(task, first[0], before);
        assert((first + second)[0] == first[0]);
        assert((first + second).drop_first() =~= first.drop_first() + second);
        if opening.stop is None {
            lemma_walk_joins(task, first.drop_first(), second, opening.progress);
            let rest = walk(task, first.drop_first(), opening.progress);
            let two = walk(task, second, rest.progress);
            assert(opening.bytes + (rest.bytes + two.bytes) =~= opening.bytes + rest.bytes
                + two.bytes);
        }
    }
}

/// A line held for look-behind: its number, and its span within the current window.
#[derive(Clone, Copy, Debug)]
pub struct ContextLine {
    pub line_number: usize,
    pub start: usize,
    pub end: usize,
    /// Where the line's terminator ends, so a held line can still be named.
    pub whole_end: usize,
}

/// The look-behind ring, pending after-context and last printed line that the context flags carry
/// from one line to the next.
pub struct ContextState {
    pub lines: Context,
    /// Window offsets rather than copies, as many as the look-behind asked for. Empty where none
    /// was, which is what lets that reporting stream.
    pub behind: VecDeque<ContextLine>,
    pub pending_after: usize,
    pub last_printed_line: Option<usize>,
}

/// The held line as a value, read from the window it was seen in.
pub open spec fn held_in(window: Seq<u8>, base: int, line: ContextLine) -> Held {
    Held {
        seen: Seen {
            as_cut: window.subrange(line.start as int, line.end as int),
            whole: window.subrange(line.start as int, line.whole_end as int),
            offset: (base + line.start) as nat,
        },
        number: line.line_number as nat,
    }
}

impl ContextState {
    /// A ring for the look-behind actually requested.
    pub fn new(lines: Context) -> (state: Self)
        ensures
            state.lines == lines,
            state.behind@ == Seq::<ContextLine>::empty(),
            state.pending_after == 0,
            state.last_printed_line is None,
    {
        ContextState {
            lines,
            behind: VecDeque::new(),
            pending_after: 0,
            last_printed_line: None,
        }
    }

    /// The last printed line as a value.
    pub open spec fn last(&self) -> Option<nat> {
        match self.last_printed_line {
            Some(line) => Some(line as nat),
            None => None,
        }
    }

    /// The held lines as values, read from the window they were seen in.
    pub open spec fn held(&self, window: Seq<u8>, base: int) -> Seq<Held> {
        self.behind@.map_values(|line: ContextLine| held_in(window, base, line))
    }

    /// Whether the line still has to be printed, given how far the output has reached.
    pub fn is_unprinted(&self, line_number: usize) -> (yes: bool)
        ensures
            yes == unprinted(line_number as nat, self.last()),
    {
        match self.last_printed_line {
            Some(last) => line_number > last,
            None => true,
        }
    }

    /// Hold a line for look-behind, dropping the oldest where the ring is full.
    fn remember(&mut self, line: ContextLine, window: &[u8])
        requires
            line.start <= line.end <= window@.len(),
            line.start <= line.whole_end <= window@.len(),
            old(self).lines.before == 0 ==> old(self).behind@.len() == 0,
        ensures
            forall|base: int| #[trigger]
                final(self).held(window@, base) == ring(
                    old(self).held(window@, base),
                    old(self).lines.before as int,
                    held_in(window@, base, line).seen,
                    line.line_number as nat,
                ),
            forall|i: int|
                #![trigger final(self).behind@[i]]
                0 <= i < final(self).behind@.len() ==> final(self).behind@[i] == line
                    || exists|j: int|
                    0 <= j < old(self).behind@.len() && #[trigger] old(self).behind@[j]
                        == final(self).behind@[i],
            final(self).lines == old(self).lines,
            final(self).pending_after == old(self).pending_after,
            final(self).last_printed_line == old(self).last_printed_line,
            final(self).lines.before == 0 ==> final(self).behind@.len() == 0,
    {
        if self.lines.before == 0 {
            return;
        }
        let ghost earlier = self.behind@;
        if self.behind.len() >= self.lines.before {
            let _ = self.behind.pop_front();
        }
        self.behind.push_back(line);
        proof {
            let kept = if earlier.len() >= self.lines.before {
                earlier.drop_first()
            } else {
                earlier
            };
            assert(self.behind@ =~= kept.push(line));
            assert forall|base: int| #[trigger] self.held(window@, base) == ring(
                old(self).held(window@, base),
                old(self).lines.before as int,
                held_in(window@, base, line).seen,
                line.line_number as nat,
            ) by {
                assert(self.held(window@, base) =~= ring(
                    old(self).held(window@, base),
                    old(self).lines.before as int,
                    held_in(window@, base, line).seen,
                    line.line_number as nat,
                ));
            }
            assert forall|i: int|
                #![trigger self.behind@[i]]
                0 <= i < self.behind@.len() implies self.behind@[i] == line || exists|j: int|
                0 <= j < earlier.len() && #[trigger] earlier[j] == self.behind@[i] by {
                if i < kept.len() {
                    let j = if earlier.len() >= self.lines.before {
                        i + 1
                    } else {
                        i
                    };
                    assert(earlier[j] == self.behind@[i]);
                }
            }
        }
    }

    /// The first look-behind line a group opening here would print, absent when the ring holds
    /// none still unprinted. Entries run forward, so the first is the oldest.
    pub fn first_unprinted_behind(&self) -> (first: Option<usize>)
        ensures
            forall|window: Seq<u8>, base: int| #[trigger]
                first_unprinted(self.held(window, base), self.last(), 0) == match first {
                    Some(first) => Some(first as nat),
                    None => None,
                },
    {
        let mut index: usize = 0;
        while index < self.behind.len()
            invariant
                index <= self.behind@.len(),
                forall|window: Seq<u8>, base: int| #[trigger]
                    first_unprinted(self.held(window, base), self.last(), 0) == first_unprinted(
                        self.held(window, base),
                        self.last(),
                        index as int,
                    ),
            decreases self.behind@.len() - index,
        {
            let line_number: usize = self.behind[index].line_number;
            if self.is_unprinted(line_number) {
                return Some(line_number);
            }
            index += 1;
        }
        None
    }
}

/// What a search remembers between lines, and between windows once the input streams: the
/// counters, the once-per-file heading bit and the context ring.
pub struct FindState {
    /// How many lines of this file were selected.
    pub match_count: usize,
    /// How many lines of this file were walked over, selected or not.
    pub lines_searched: usize,
    /// Offset of the current window's first byte within the whole input, which keeps offsets
    /// absolute across a streamed run.
    pub window_base: usize,
    /// Whether the once-per-file header the format calls for has been written.
    pub printed_heading: bool,
    /// The look-behind ring and separators the context flags carry between lines.
    pub context: ContextState,
}

impl FindState {
    /// What was counted and remembered, the held lines read from `window`.
    pub open spec fn progress(&self, window: Seq<u8>) -> Progress {
        Progress {
            matches: self.match_count as nat,
            lines: self.lines_searched as nat,
            headed: self.printed_heading,
            pending: self.context.pending_after as nat,
            last: self.context.last(),
            behind: self.context.held(window, self.window_base as int),
        }
    }

    /// Whether the held lines lie inside `window`, and nothing was counted that was not seen.
    pub open spec fn fits(&self, window: Seq<u8>, seen: nat) -> bool {
        &&& self.match_count <= self.lines_searched <= seen
        &&& self.context.last_printed_line matches Some(last) ==> last <= self.lines_searched
        &&& forall|i: int|
            #![trigger self.context.behind@[i]]
            0 <= i < self.context.behind@.len() ==> {
                let line = self.context.behind@[i];
                &&& line.start <= line.end <= window.len()
                &&& line.start <= line.whole_end <= window.len()
                &&& line.line_number <= self.lines_searched
            }
        &&& self.context.lines.before == 0 ==> self.context.behind@.len() == 0
    }

    /// Start a file at line zero, byte zero, with nothing printed yet.
    pub fn new(lines: Context) -> (state: Self)
        ensures
            state.match_count == 0,
            state.lines_searched == 0,
            state.window_base == 0,
            !state.printed_heading,
            state.context.lines == lines,
            state.context.behind@ == Seq::<ContextLine>::empty(),
            state.context.pending_after == 0,
            state.context.last_printed_line is None,
    {
        FindState {
            match_count: 0,
            lines_searched: 0,
            window_base: 0,
            printed_heading: false,
            context: ContextState::new(lines),
        }
    }

    /// Whether the cap on matches is already satisfied, where every reporting stops reporting.
    pub fn exhausted(&self, search: &Search<'_>) -> (yes: bool)
        ensures
            yes == reached(self.match_count as nat, search.max_matches),
    {
        match search.max_matches {
            Some(max) => self.match_count >= max,
            None => false,
        }
    }

    /// The totals this file contributes, over `bytes_searched` bytes of input.
    pub fn result(&self, bytes_searched: usize, flow: Option<Stop>) -> (result: FileResult)
        ensures
            result == (FileResult {
                match_count: self.match_count,
                lines_searched: self.lines_searched,
                bytes_searched,
                flow,
            }),
    {
        FileResult {
            match_count: self.match_count,
            lines_searched: self.lines_searched,
            bytes_searched,
            flow,
        }
    }
}

/// The task of searching for `search` in a file called `path`.
pub open spec fn task_of(
    path: &str,
    search: &Search<'_>,
    reporting: &Reporting,
    heading_hash: Option<&[u8]>,
) -> Task {
    Task {
        path: encode_utf8(path@),
        rule: search.matcher@,
        newlines: search.newlines,
        invert: search.invert_match,
        max: search.max_matches,
        reporting: *reporting,
        heading: match heading_hash {
            Some(data) => Some(data@),
            None => None,
        },
    }
}

/// The first of these lines, and the rest of them.
proof fn lemma_seen_step(data: Seq<u8>, base: int, all: Seq<Line>)
    requires
        all.len() > 0,
    ensures
        seen_lines(data, base, all).len() == all.len(),
        seen_lines(data, base, all)[0] == seen_line(data, base, all[0]),
        seen_lines(data, base, all).drop_first() == seen_lines(data, base, all.drop_first()),
{
    assert(seen_lines(data, base, all).drop_first() =~= seen_lines(data, base, all.drop_first()));
}

/// Count matching lines, stopping at the first when only existence is reported. Carries two
/// counters, so it allocates nothing and resolves no offsets.
pub fn tally_window(
    window: &[u8],
    search: &Search<'_>,
    stop_at_first: bool,
    state: &mut FindState,
) -> (flow: Option<Stop>)
    requires
        search.wf(),
        old(state).fits(window@, old(state).window_base as nat),
        old(state).window_base + window@.len() <= usize::MAX,
    ensures
        ({
            let done = walk(
                task_of("", search, &(Reporting::Tally { stop_at_first }), None),
                window_lines(window@, old(state).window_base as int, search.newlines),
                old(state).progress(window@),
            );
            final(state).progress(window@) == done.progress && flow == done.stop
        }),
        final(state).fits(window@, (old(state).window_base + window@.len()) as nat),
        final(state).window_base == old(state).window_base,
        final(state).context.lines == old(state).context.lines,
{
    let ghost task = task_of("", search, &(Reporting::Tally { stop_at_first }), None);
    let ghost base = state.window_base as int;
    let ghost done = walk(
        task,
        window_lines(window@, base, search.newlines),
        state.progress(window@),
    );
    // Counting reads nothing a line's terminator could tell it, so it takes the cheaper iterator.
    let mut all = LineIter::new(window, search.newlines);
    proof {
        lemma_lines_chain(window@, 0, search.newlines);
    }
    loop
        invariant
            search.wf(),
            all.wf(),
            all.input() == window@,
            base == state.window_base,
            base + window@.len() <= usize::MAX,
            state.lines_searched + all.remaining().len() <= base + window@.len(),
            state.fits(window@, (base + window@.len()) as nat),
            state.context == old(state).context,
            state.window_base == old(state).window_base,
            task == task_of("", search, &(Reporting::Tally { stop_at_first }), None),
            done == walk(
                task,
                window_lines(window@, base, search.newlines),
                old(state).progress(window@),
            ),
            ({
                let rest = walk(
                    task,
                    seen_lines(window@, base, all.remaining()),
                    state.progress(window@),
                );
                done.progress == rest.progress && done.stop == rest.stop
            }),
        decreases all.remaining().len(),
    {
        let ghost ahead = all.remaining();
        match all.next() {
            None => {
                return None;
            },
            Some(line) => {
                proof {
                    reveal(step);
                    lemma_seen_step(window@, base, ahead);
                }
                // Counted before the cap is tested, so a summary includes the line that trips it.
                state.lines_searched = state.lines_searched + 1;
                if state.exhausted(search) {
                    return Some(Stop::MaxMatches);
                }
                match search.select(line) {
                    Selection::Rejected => {},
                    Selection::Selected(_) => {
                        state.match_count = state.match_count + 1;
                        if stop_at_first {
                            return Some(Stop::FirstMatch);
                        }
                    },
                }
            },
        }
    }
}

/// A line that was read from a window, as a search walks over it.
pub open spec fn seen_named(named: NamedLine<'_>, base: int) -> Seen {
    Seen { as_cut: named.as_cut@, whole: named.whole@, offset: (base + named.offset) as nat }
}

/// What printing owes for one line.
fn print_line(
    window: &[u8],
    emitter: &Emitter<'_>,
    named: NamedLine<'_>,
    state: &mut FindState,
    out: &mut Vec<u8>,
) -> (flow: Option<Stop>)
    requires
        emitter.wf(),
        old(state).lines_searched < usize::MAX,
        old(state).match_count <= old(state).lines_searched,
        old(state).window_base + named.offset <= usize::MAX,
    ensures
        ({
            let done = step(
                task_of(
                    emitter.path,
                    emitter.search,
                    &Reporting::Print(*emitter.config),
                    emitter.heading_hash,
                ),
                seen_named(named, old(state).window_base as int),
                old(state).progress(window@),
            );
            &&& final(out)@ == old(out)@ + done.bytes
            &&& final(state).progress(window@) == done.progress
            &&& flow == done.stop
        }),
        final(state).window_base == old(state).window_base,
        final(state).context == old(state).context,
        final(state).lines_searched == old(state).lines_searched + 1,
        final(state).match_count <= final(state).lines_searched,
{
    broadcast use crate::bytes::group_append;

    proof {
        reveal(step);
    }
    state.lines_searched = state.lines_searched + 1;
    if state.exhausted(emitter.search) {
        return Some(Stop::MaxMatches);
    }
    match emitter.search.select(named.as_cut) {
        Selection::Rejected => {},
        Selection::Selected(first_match) => {
            state.match_count = state.match_count + 1;
            let record = LineRecord {
                as_cut: named.as_cut,
                whole: named.whole,
                line_number: state.lines_searched,
                byte_offset: state.window_base + named.offset,
                is_match: true,
                first_match,
            };
            emitter.file_heading(out, &mut state.printed_heading);
            emitter.match_line(out, record);
        },
    }
    None
}

/// Print matching lines, carrying counters and the once-per-file heading bit.
pub fn print_window(
    window: &[u8],
    path: &str,
    search: &Search<'_>,
    config: &OutputConfig,
    state: &mut FindState,
    out: &mut Vec<u8>,
    heading_hash: Option<&[u8]>,
) -> (flow: Option<Stop>)
    requires
        search.wf(),
        old(state).fits(window@, old(state).window_base as nat),
        old(state).window_base + window@.len() <= usize::MAX,
    ensures
        ({
            let done = walk(
                task_of(path, search, &Reporting::Print(*config), heading_hash),
                window_lines(window@, old(state).window_base as int, search.newlines),
                old(state).progress(window@),
            );
            &&& final(out)@ == old(out)@ + done.bytes
            &&& final(state).progress(window@) == done.progress
            &&& flow == done.stop
        }),
        final(state).fits(window@, (old(state).window_base + window@.len()) as nat),
        final(state).window_base == old(state).window_base,
        final(state).context.lines == old(state).context.lines,
{
    let ghost task = task_of(path, search, &Reporting::Print(*config), heading_hash);
    let ghost base = state.window_base as int;
    let ghost start = state.progress(window@);
    let ghost done = walk(task, window_lines(window@, base, search.newlines), start);
    let emitter = Emitter { path, search, config, heading_hash };
    let mut all = named_lines(window, search.newlines);
    proof {
        lemma_lines_chain(window@, 0, search.newlines);
    }
    loop
        invariant
            emitter.wf(),
            emitter == (Emitter { path, search, config, heading_hash }),
            all.wf(),
            all.input() == window@,
            base == state.window_base,
            base + window@.len() <= usize::MAX,
            state.lines_searched + all.remaining().len() <= base + window@.len(),
            state.fits(window@, (base + window@.len()) as nat),
            state.context == old(state).context,
            state.window_base == old(state).window_base,
            task == task_of(path, search, &Reporting::Print(*config), heading_hash),
            start == old(state).progress(window@),
            done == walk(task, window_lines(window@, base, search.newlines), start),
            lines_inside(window@, all.remaining()),
            owed(
                task,
                seen_lines(window@, base, all.remaining()),
                state.progress(window@),
                old(out)@,
                out@,
                done,
            ),
        decreases all.remaining().len(),
    {
        let ghost ahead = all.remaining();
        let ghost before = state.progress(window@);
        let ghost written = out@;
        match all.next() {
            None => {
                assert(out@ + Seq::<u8>::empty() =~= out@);
                return None;
            },
            Some(named) => {
                proof {
                    lemma_seen_step(window@, base, ahead);
                    lemma_lines_inside(window@, ahead);
                }
                let flow = print_line(window, &emitter, named, state, out);
                proof {
                    assert(seen_named(named, base) == seen_line(window@, base, ahead[0]));
                    lemma_owed(
                        task,
                        seen_lines(window@, base, ahead),
                        before,
                        old(out)@,
                        written,
                        done,
                    );
                }
                if flow.is_some() {
                    return flow;
                }
            },
        }
    }
}

/// Whether these lines lie inside `data`.
spec fn lines_inside(data: Seq<u8>, all: Seq<Line>) -> bool {
    forall|i: int|
        #![trigger all[i]]
        0 <= i < all.len() ==> 0 <= all[i].start <= all[i].cut <= all[i].end <= data.len()
}

/// Lines inside `data` stay inside it once the first is gone.
proof fn lemma_lines_inside(data: Seq<u8>, all: Seq<Line>)
    requires
        lines_inside(data, all),
        all.len() > 0,
    ensures
        0 <= all[0].start <= all[0].cut <= all[0].end <= data.len(),
        lines_inside(data, all.drop_first()),
{
    assert forall|i: int|
        #![trigger all.drop_first()[i]]
        0 <= i < all.drop_first().len() implies 0 <= all.drop_first()[i].start
        <= all.drop_first()[i].cut <= all.drop_first()[i].end <= data.len() by {
        assert(all.drop_first()[i] == all[i + 1]);
    }
}

/// Whether what is still to be walked over completes what was written.
spec fn owed(
    task: Task,
    rest: Seq<Seen>,
    now: Progress,
    began: Seq<u8>,
    written: Seq<u8>,
    done: Walked,
) -> bool {
    let left = walk(task, rest, now);
    &&& began + done.bytes == written + left.bytes
    &&& done.progress == left.progress
    &&& done.stop == left.stop
}

/// One step pays what it owes.
proof fn lemma_owed(
    task: Task,
    rest: Seq<Seen>,
    now: Progress,
    began: Seq<u8>,
    written: Seq<u8>,
    done: Walked,
)
    requires
        rest.len() > 0,
        owed(task, rest, now, began, written, done),
    ensures
        ({
            let first = step(task, rest[0], now);
            if first.stop is Some {
                &&& began + done.bytes == written + first.bytes
                &&& done.progress == first.progress
                &&& done.stop == first.stop
            } else {
                owed(
                    task,
                    rest.drop_first(),
                    first.progress,
                    began,
                    written + first.bytes,
                    done,
                )
            }
        }),
{
    let first = step(task, rest[0], now);
    if first.stop is None {
        let left = walk(task, rest.drop_first(), first.progress);
        assert(written + (first.bytes + left.bytes) =~= written + first.bytes + left.bytes);
    }
}


/// Print the held look-behind lines that are not printed yet, sliced from the current window.
fn write_held(
    window: &[u8],
    emitter: &Emitter<'_>,
    context: &mut ContextState,
    base: usize,
    out: &mut Vec<u8>,
)
    requires
        emitter.wf(),
        base + window@.len() <= usize::MAX,
        forall|i: int|
            #![trigger old(context).behind@[i]]
            0 <= i < old(context).behind@.len() ==> {
                let line = old(context).behind@[i];
                &&& line.start <= line.end <= window@.len()
                &&& line.start <= line.whole_end <= window@.len()
            },
    ensures
        final(out)@ == old(out)@ + held_lines(
            emitter@,
            old(context).held(window@, base as int),
            0,
            old(context).last(),
        ),
        final(context).behind == old(context).behind,
        final(context).lines == old(context).lines,
        final(context).pending_after == old(context).pending_after,
{
    let ghost sheet = emitter@;
    let ghost held = context.held(window@, base as int);
    let mut index: usize = 0;
    while index < context.behind.len()
        invariant
            index <= context.behind@.len(),
            emitter.wf(),
            sheet == emitter@,
            base + window@.len() <= usize::MAX,
            held == context.held(window@, base as int),
            context.behind == old(context).behind,
            context.lines == old(context).lines,
            context.pending_after == old(context).pending_after,
            forall|i: int|
                #![trigger context.behind@[i]]
                0 <= i < context.behind@.len() ==> {
                    let line = context.behind@[i];
                    &&& line.start <= line.end <= window@.len()
                    &&& line.start <= line.whole_end <= window@.len()
                },
            old(out)@ + held_lines(sheet, held, 0, old(context).last()) == out@ + held_lines(
                sheet,
                held,
                index as int,
                context.last(),
            ),
        decreases context.behind@.len() - index,
    {
        let line: ContextLine = context.behind[index];
        let ghost before = out@;
        assert(line == context.behind@[index as int]);
        if context.is_unprinted(line.line_number) {
            let record = LineRecord {
                as_cut: &window[line.start..line.end],
                whole: &window[line.start..line.whole_end],
                line_number: line.line_number,
                byte_offset: base + line.start,
                is_match: false,
                first_match: None,
            };
            emitter.line(out, record);
            context.last_printed_line = Some(line.line_number);
            proof {
                assert(record@ == context_record(
                    held[index as int].seen,
                    held[index as int].number,
                ));
                let text = sheet.line(record@, Coloring::Plain);
                let rest = held_lines(sheet, held, index + 1, context.last());
                assert(before + (text + rest) =~= before + text + rest);
            }
        }
        index += 1;
    }
    assert(out@ + Seq::<u8>::empty() =~= out@);
}

/// What a selected line writes ahead of itself among its surrounding lines.
fn open_group(
    window: &[u8],
    emitter: &Emitter<'_>,
    line_number: usize,
    state: &mut FindState,
    out: &mut Vec<u8>,
)
    requires
        emitter.wf(),
        old(state).window_base + window@.len() <= usize::MAX,
        old(state).fits(window@, usize::MAX as nat),
        old(state).context.last_printed_line matches Some(last) ==> last < usize::MAX,
    ensures
        final(out)@ == old(out)@ + group_opening(
            emitter@,
            old(state).progress(window@),
            line_number as nat,
        ),
        final(state).printed_heading == (old(state).printed_heading || emitter@.opens_files()),
        final(state).match_count == old(state).match_count,
        final(state).lines_searched == old(state).lines_searched,
        final(state).window_base == old(state).window_base,
        final(state).context.behind == old(state).context.behind,
        final(state).context.lines == old(state).context.lines,
        final(state).context.pending_after == old(state).context.pending_after,
{
    broadcast use crate::bytes::group_append;

    let ghost before = state.progress(window@);
    emitter.file_heading(out, &mut state.printed_heading);
    // The group opens at its own first line — the oldest look-behind line still unprinted, or the
    // matching line when the ring holds none — and a gap between that line and the last printed
    // one divides the two.
    let opens: usize = match state.context.first_unprinted_behind() {
        Some(first) => first,
        None => line_number,
    };
    assert(state.context.held(window@, state.window_base as int) == before.behind);
    let follows_a_gap = match state.context.last_printed_line {
        Some(last) => opens > last + 1,
        None => false,
    };
    if follows_a_gap {
        emitter.group_separator(out);
    }
    let base: usize = state.window_base;
    write_held(window, emitter, &mut state.context, base, out);
}

/// What printing with context writes for one line.
#[verifier::rlimit(40)]
fn show_around(
    window: &[u8],
    emitter: &Emitter<'_>,
    named: NamedLine<'_>,
    state: &mut FindState,
    out: &mut Vec<u8>,
)
    requires
        emitter.wf(),
        old(state).lines_searched < usize::MAX,
        old(state).fits(window@, usize::MAX as nat),
        old(state).window_base + window@.len() <= usize::MAX,
        named.offset <= window@.len(),
    ensures
        ({
            let done = printed_around(
                emitter@,
                old(state).context.lines,
                seen_named(named, old(state).window_base as int),
                old(state).progress(window@),
                selected(
                    named.as_cut@,
                    emitter.search.matcher@,
                    emitter.search.invert_match,
                ),
            );
            &&& final(out)@ == old(out)@ + done.bytes
            &&& final(state).progress(window@) == done.progress
        }),
        final(state).window_base == old(state).window_base,
        final(state).context.lines == old(state).context.lines,
        final(state).context.behind == old(state).context.behind,
        final(state).lines_searched == old(state).lines_searched + 1,
        final(state).fits(window@, usize::MAX as nat),
{
    let ghost before = state.progress(window@);
    let line_number: usize = state.lines_searched + 1;
    let byte_offset: usize = state.window_base + named.offset;
    match emitter.search.select(named.as_cut) {
        Selection::Selected(first_match) => {
            open_group(window, emitter, line_number, state, out);
            let record = LineRecord {
                as_cut: named.as_cut,
                whole: named.whole,
                line_number,
                byte_offset,
                is_match: true,
                first_match,
            };
            emitter.match_line(out, record);
            state.match_count = state.match_count + 1;
            state.lines_searched = line_number;
            state.context.last_printed_line = Some(line_number);
            state.context.pending_after = state.context.lines.after;
            proof {
                let opening = group_opening(emitter@, before, line_number as nat);
                let text = emitter@.match_line(record@);
                assert(old(out)@ + (opening + text) =~= old(out)@ + opening + text);
            }
        },
        Selection::Rejected => {
            state.lines_searched = line_number;
            if state.context.pending_after > 0 {
                let record = LineRecord {
                    as_cut: named.as_cut,
                    whole: named.whole,
                    line_number,
                    byte_offset,
                    is_match: false,
                    first_match: None,
                };
                emitter.line(out, record);
                state.context.last_printed_line = Some(line_number);
                state.context.pending_after = state.context.pending_after - 1;
            } else {
                assert(out@ + Seq::<u8>::empty() =~= out@);
            }
        },
    }
}

/// What printing with context owes for one line.
fn print_context_line(
    window: &[u8],
    emitter: &Emitter<'_>,
    named: NamedLine<'_>,
    state: &mut FindState,
    out: &mut Vec<u8>,
) -> (flow: Option<Stop>)
    requires
        emitter.wf(),
        old(state).lines_searched < usize::MAX,
        old(state).fits(window@, usize::MAX as nat),
        old(state).window_base + window@.len() <= usize::MAX,
        named.offset + named.whole@.len() <= window@.len(),
        named.as_cut@.len() <= named.whole@.len(),
        named.as_cut@ == window@.subrange(
            named.offset as int,
            named.offset + named.as_cut@.len(),
        ),
        named.whole@ == window@.subrange(named.offset as int, named.offset + named.whole@.len()),
    ensures
        ({
            let done = step(
                task_of(
                    emitter.path,
                    emitter.search,
                    &Reporting::PrintContext(*emitter.config, old(state).context.lines),
                    emitter.heading_hash,
                ),
                seen_named(named, old(state).window_base as int),
                old(state).progress(window@),
            );
            &&& final(out)@ == old(out)@ + done.bytes
            &&& final(state).progress(window@) == done.progress
            &&& flow == done.stop
        }),
        final(state).window_base == old(state).window_base,
        final(state).context.lines == old(state).context.lines,
        final(state).lines_searched == old(state).lines_searched + 1,
        final(state).fits(window@, usize::MAX as nat),
{
    proof {
        reveal(step);
    }
    if state.exhausted(emitter.search) {
        state.lines_searched = state.lines_searched + 1;
        assert(out@ + Seq::<u8>::empty() =~= out@);
        return Some(Stop::MaxMatches);
    }
    show_around(window, emitter, named, state, out);
    let held = ContextLine {
        line_number: state.lines_searched,
        start: named.offset,
        end: named.offset + named.as_cut.len(),
        whole_end: named.offset + named.whole.len(),
    };
    state.context.remember(held, window);
    proof {
        let base = state.window_base as int;
        assert(held_in(window@, base, held).seen == seen_named(named, base));
        assert(state.context.held(window@, base) == ring(
            old(state).context.held(window@, base),
            old(state).context.lines.before as int,
            seen_named(named, base),
            state.lines_searched as nat,
        ));
    }
    None
}

/// Print matching lines with their surrounding context, carrying a look-behind ring of window
/// offsets, the pending after-context count, and separators.
pub fn print_context_window(
    window: &[u8],
    path: &str,
    search: &Search<'_>,
    config: &OutputConfig,
    state: &mut FindState,
    out: &mut Vec<u8>,
    heading_hash: Option<&[u8]>,
) -> (flow: Option<Stop>)
    requires
        search.wf(),
        old(state).fits(window@, old(state).window_base as nat),
        old(state).window_base + window@.len() <= usize::MAX,
    ensures
        ({
            let done = walk(
                task_of(
                    path,
                    search,
                    &Reporting::PrintContext(*config, old(state).context.lines),
                    heading_hash,
                ),
                window_lines(window@, old(state).window_base as int, search.newlines),
                old(state).progress(window@),
            );
            &&& final(out)@ == old(out)@ + done.bytes
            &&& final(state).progress(window@) == done.progress
            &&& flow == done.stop
        }),
        final(state).fits(window@, (old(state).window_base + window@.len()) as nat),
        final(state).window_base == old(state).window_base,
        final(state).context.lines == old(state).context.lines,
{
    let ghost lines_around = state.context.lines;
    let ghost task = task_of(
        path,
        search,
        &Reporting::PrintContext(*config, lines_around),
        heading_hash,
    );
    let ghost base = state.window_base as int;
    let ghost start = state.progress(window@);
    let ghost done = walk(task, window_lines(window@, base, search.newlines), start);
    let emitter = Emitter { path, search, config, heading_hash };
    let mut all = named_lines(window, search.newlines);
    proof {
        lemma_lines_chain(window@, 0, search.newlines);
    }
    loop
        invariant
            emitter.wf(),
            emitter == (Emitter { path, search, config, heading_hash }),
            all.wf(),
            all.input() == window@,
            base == state.window_base,
            base + window@.len() <= usize::MAX,
            state.lines_searched + all.remaining().len() <= base + window@.len(),
            state.fits(window@, usize::MAX as nat),
            state.context.lines == lines_around,
            lines_around == old(state).context.lines,
            state.window_base == old(state).window_base,
            task == task_of(
                path,
                search,
                &Reporting::PrintContext(*config, lines_around),
                heading_hash,
            ),
            start == old(state).progress(window@),
            done == walk(task, window_lines(window@, base, search.newlines), start),
            lines_inside(window@, all.remaining()),
            owed(
                task,
                seen_lines(window@, base, all.remaining()),
                state.progress(window@),
                old(out)@,
                out@,
                done,
            ),
        decreases all.remaining().len(),
    {
        let ghost ahead = all.remaining();
        let ghost before = state.progress(window@);
        let ghost written = out@;
        match all.next() {
            None => {
                assert(out@ + Seq::<u8>::empty() =~= out@);
                return None;
            },
            Some(named) => {
                proof {
                    lemma_seen_step(window@, base, ahead);
                    lemma_lines_inside(window@, ahead);
                }
                let flow = print_context_line(window, &emitter, named, state, out);
                proof {
                    assert(seen_named(named, base) == seen_line(window@, base, ahead[0]));
                    lemma_owed(
                        task,
                        seen_lines(window@, base, ahead),
                        before,
                        old(out)@,
                        written,
                        done,
                    );
                }
                if flow.is_some() {
                    return flow;
                }
            },
        }
    }
}

/// Run one window through the chosen reporting, folding its lines into `state`. Stops once the
/// reporting has reported everything it will, which ends a streamed read.
pub fn search_window(
    window: &[u8],
    path: &str,
    search: &Search<'_>,
    reporting: &Reporting,
    state: &mut FindState,
    out: &mut Vec<u8>,
    heading_hash: Option<&[u8]>,
) -> (flow: Option<Stop>)
    requires
        search.wf(),
        old(state).fits(window@, old(state).window_base as nat),
        old(state).window_base + window@.len() <= usize::MAX,
        old(state).context.lines == reporting.surrounds(),
    ensures
        ({
            let done = walk(
                task_of(path, search, reporting, heading_hash),
                window_lines(window@, old(state).window_base as int, search.newlines),
                old(state).progress(window@),
            );
            &&& final(out)@ == old(out)@ + done.bytes
            &&& final(state).progress(window@) == done.progress
            &&& flow == done.stop
        }),
        final(state).fits(window@, (old(state).window_base + window@.len()) as nat),
        final(state).window_base == old(state).window_base,
        final(state).context.lines == old(state).context.lines,
{
    match reporting {
        Reporting::Tally { stop_at_first } => {
            proof {
                lemma_tally_writes_nothing(
                    task_of(path, search, reporting, heading_hash),
                    task_of("", search, reporting, None),
                    window_lines(window@, state.window_base as int, search.newlines),
                    state.progress(window@),
                );
                assert(out@ + Seq::<u8>::empty() =~= out@);
            }
            tally_window(window, search, *stop_at_first, state)
        },
        Reporting::Print(config) => print_window(
            window,
            path,
            search,
            config,
            state,
            out,
            heading_hash,
        ),
        Reporting::PrintContext(config, _) => print_context_window(
            window,
            path,
            search,
            config,
            state,
            out,
            heading_hash,
        ),
    }
}

/// A tally writes nothing, and does not depend on what the file is called.
proof fn lemma_tally_writes_nothing(
    task: Task,
    unnamed: Task,
    all: Seq<Seen>,
    before: Progress,
)
    requires
        task.reporting is Tally,
        unnamed == (Task { path: unnamed.path, heading: unnamed.heading, ..task }),
    ensures
        walk(task, all, before).bytes == Seq::<u8>::empty(),
        walk(task, all, before) == walk(unnamed, all, before),
    decreases all.len(),
{
    reveal(step);
    if all.len() > 0 {
        let first = step(task, all[0], before);
        if first.stop is None {
            lemma_tally_writes_nothing(task, unnamed, all.drop_first(), first.progress);
            assert(first.bytes + walk(task, all.drop_first(), first.progress).bytes
                =~= Seq::<u8>::empty());
        }
    }
}

/// Text behind some lines changes nothing of them.
proof fn lemma_seen_in_front(front: Seq<u8>, rest: Seq<u8>, base: int, all: Seq<Line>)
    requires
        lines_inside(front, all),
    ensures
        seen_lines(front + rest, base, all) == seen_lines(front, base, all),
{
    assert forall|i: int| #![trigger all[i]] 0 <= i < all.len() implies seen_line(
        front + rest,
        base,
        all[i],
    ) == seen_line(front, base, all[i]) by {
        assert(all[i].as_cut(front + rest) =~= all[i].as_cut(front));
        assert(all[i].whole(front + rest) =~= all[i].whole(front));
    }
    assert(seen_lines(front + rest, base, all) =~= seen_lines(front, base, all));
}

/// Text before some lines only moves them.
proof fn lemma_seen_behind(front: Seq<u8>, rest: Seq<u8>, base: int, all: Seq<Line>)
    requires
        lines_inside(rest, all),
    ensures
        seen_lines(
            front + rest,
            base,
            all.map_values(|line: Line| shifted(line, front.len() as int)),
        ) == seen_lines(rest, base + front.len(), all),
{
    let by = front.len() as int;
    let moved = all.map_values(|line: Line| shifted(line, by));
    assert forall|i: int| #![trigger all[i]] 0 <= i < all.len() implies seen_line(
        front + rest,
        base,
        moved[i],
    ) == seen_line(rest, base + by, all[i]) by {
        assert(moved[i] == shifted(all[i], by));
        assert(moved[i].as_cut(front + rest) =~= all[i].as_cut(rest));
        assert(moved[i].whole(front + rest) =~= all[i].whole(rest));
    }
    assert(seen_lines(front + rest, base, moved) =~= seen_lines(rest, base + by, all));
}

/// Reading an input through windows searches it as if it had arrived whole: the lines of a window
/// cut for the newline set, and then the lines of everything behind it, are the lines of the whole,
/// each where it stands in the input.
pub proof fn windows_show_the_same_lines(
    window: Seq<u8>,
    more: Seq<u8>,
    base: nat,
    newlines: Newlines,
)
    requires
        cut_point(window, cut_for(newlines)) is Some,
    ensures
        ({
            let at = cut_point(window, cut_for(newlines))->0;
            let whole = window + more;
            window_lines(whole, base as int, newlines) == window_lines(
                window.subrange(0, at),
                base as int,
                newlines,
            ) + window_lines(whole.subrange(at, whole.len() as int), base + at, newlines)
        }),
{
    let at = cut_point(window, cut_for(newlines))->0;
    let whole = window + more;
    windows_keep_lines_whole(window, more, newlines);
    let front = window.subrange(0, at);
    let rest = whole.subrange(at, whole.len() as int);
    let one = lines(front, 0, newlines);
    let two = lines(rest, 0, newlines);
    let moved = two.map_values(|line: Line| shifted(line, at));
    assert(whole =~= front + rest);
    assert(lines_inside(front, one)) by {
        lemma_lines_chain(front, 0, newlines);
    }
    assert(lines_inside(rest, two)) by {
        lemma_lines_chain(rest, 0, newlines);
    }
    lemma_seen_in_front(front, rest, base as int, one);
    lemma_seen_behind(front, rest, base as int, two);
    assert(seen_lines(whole, base as int, one + moved) =~= seen_lines(whole, base as int, one)
        + seen_lines(whole, base as int, moved));
}

/// What searching `data`, which stands `base` bytes into the input, does.
#[verifier::opaque]
pub open spec fn searched(task: Task, data: Seq<u8>, base: int, now: Progress) -> Walked {
    walk(task, window_lines(data, base, task.newlines), now)
}

/// A streamed search finds, prints and counts what the same search of the whole input does: its
/// first window, and then, unless that stopped it, everything behind.
pub proof fn streaming_changes_nothing(
    task: Task,
    window: Seq<u8>,
    more: Seq<u8>,
    base: nat,
    before: Progress,
)
    requires
        cut_point(window, cut_for(task.newlines)) is Some,
    ensures
        ({
            let at = cut_point(window, cut_for(task.newlines))->0;
            let input = window + more;
            let whole = searched(task, input, base as int, before);
            let first = searched(task, window.subrange(0, at), base as int, before);
            if first.stop is Some {
                whole == first
            } else {
                let rest = searched(
                    task,
                    input.subrange(at, input.len() as int),
                    base + at,
                    first.progress,
                );
                &&& whole.bytes == first.bytes + rest.bytes
                &&& whole.progress == rest.progress
                &&& whole.stop == rest.stop
            }
        }),
{
    reveal(searched);
    let at = cut_point(window, cut_for(task.newlines))->0;
    let input = window + more;
    windows_show_the_same_lines(window, more, base, task.newlines);
    lemma_walk_joins(
        task,
        window_lines(window.subrange(0, at), base as int, task.newlines),
        window_lines(input.subrange(at, input.len() as int), base + at, task.newlines),
        before,
    );
}

/// How many lines are selected and walked over, and whether the cap ended the walk, does not depend
/// on how they are reported.
pub proof fn reporting_changes_no_total(one: Task, two: Task, all: Seq<Seen>, before: Progress, other: Progress)
    requires
        two == (Task { reporting: two.reporting, path: two.path, heading: two.heading, ..one }),
        !(one.reporting matches Reporting::Tally { stop_at_first: true }),
        !(two.reporting matches Reporting::Tally { stop_at_first: true }),
        before.matches == other.matches,
        before.lines == other.lines,
    ensures
        walk(one, all, before).progress.matches == walk(two, all, other).progress.matches,
        walk(one, all, before).progress.lines == walk(two, all, other).progress.lines,
        walk(one, all, before).stop == walk(two, all, other).stop,
    decreases all.len(),
{
    reveal(step);
    if all.len() > 0 {
        let first = step(one, all[0], before);
        let second = step(two, all[0], other);
        if first.stop is None {
            reporting_changes_no_total(
                one,
                two,
                all.drop_first(),
                first.progress,
                second.progress,
            );
        }
    }
}

/// A capped search never reports more than the cap.
pub proof fn a_cap_bounds_the_matches(task: Task, all: Seq<Seen>, before: Progress)
    requires
        task.max is Some,
        before.matches <= task.max->0,
    ensures
        walk(task, all, before).progress.matches <= task.max->0,
    decreases all.len(),
{
    reveal(step);
    if all.len() > 0 {
        let first = step(task, all[0], before);
        if first.stop is None {
            a_cap_bounds_the_matches(task, all.drop_first(), first.progress);
        }
    }
}

} // verus!
