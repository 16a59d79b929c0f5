//! Matching across line boundaries, over a buffer that holds the whole input.

use vstd::prelude::*;
use vstd::utf8::encode_utf8;

use crate::bytes::{byte_position, lemma_append, lemma_byte_position, LF};
use crate::cuts::{last_close, last_cut, CutAfter};
use crate::hashing::content_hash;
use crate::lines::{lemma_lines_chain, lines, named_lines, Line, Newlines};
use crate::sz::{
    byte_count, count_byte, find_byte, hash_of, lemma_byte_count, lemma_byte_count_joins,
};

use super::closing::{json_end, print_json_end};
use super::emit::{Coloring, Emitter, LineRecord, Sheet};
use super::matcher::{matches_from, MatchInfo};
use super::options::{Context, HashPlacement, OutputFormat, Reporting};
use super::search::{reached, LineCounting, Search};
use super::window::{heading_due, match_record, seen_line, task_of, FileResult, Stop, Task};

verus! {

/// A 1-based line number for positions visited in increasing order.
///
/// Each answer costs one scan of the gap since the previous position, so a whole-buffer search
/// stays linear in its input. Counting from byte zero per match makes it quadratic.
#[derive(Clone, Copy, Debug)]
pub struct LineCursor {
    counted_through: usize,
    newlines_before: usize,
}

impl Default for LineCursor {
    fn default() -> (cursor: Self)
        ensures
            cursor.through() == 0,
            cursor.counted() == 0,
            cursor.wf(),
    {
        LineCursor { counted_through: 0, newlines_before: 0 }
    }
}

impl LineCursor {
    pub closed spec fn wf(&self) -> bool {
        self.newlines_before <= self.counted_through
    }

    /// How far was counted.
    pub closed spec fn through(&self) -> nat {
        self.counted_through as nat
    }

    /// How many line feeds were counted.
    pub closed spec fn counted(&self) -> nat {
        self.newlines_before as nat
    }

    /// The line number at `position`, which must not precede the previous answer.
    pub fn line_at(&mut self, data: &[u8], position: usize) -> (number: usize)
        requires
            old(self).wf(),
            old(self).through() <= position <= data@.len(),
            data@.len() < usize::MAX,
        ensures
            final(self).wf(),
            final(self).through() == position,
            final(self).counted() == old(self).counted() + byte_count(
                data@.subrange(old(self).through() as int, position as int),
                LF,
            ),
            number == final(self).counted() + 1,
            number <= position + 1,
    {
        proof {
            lemma_byte_count(data@.subrange(self.counted_through as int, position as int), LF);
        }
        self.newlines_before = self.newlines_before + count_byte(
            &data[self.counted_through..position],
            LF,
        );
        self.counted_through = position;
        self.newlines_before + 1
    }
}

/// Where the line that holds `at` starts, or the next line where `at` stands behind a line feed.
pub open spec fn line_start(data: Seq<u8>, at: int) -> int {
    match last_close(data.subrange(0, at), at, CutAfter::LineFeed) {
        Some(end) => end,
        None => 0,
    }
}

fn find_line_start(data: &[u8], at: usize) -> (start: usize)
    requires
        at <= data@.len(),
    ensures
        start == line_start(data@, at as int),
        start <= at,
{
    match last_cut(&data[0..at], CutAfter::LineFeed) {
        Some(end) => end,
        None => 0,
    }
}

/// Where the line feed that ends the line at `at` stands, or the end of the data.
pub open spec fn line_end(data: Seq<u8>, at: int) -> int {
    at + byte_position(data.subrange(at, data.len() as int), 0x0A, 0)
}

fn find_line_end(data: &[u8], at: usize) -> (end: usize)
    requires
        at <= data@.len(),
    ensures
        end == line_end(data@, at as int),
        at <= end <= data@.len(),
{
    let rest: &[u8] = &data[at..data.len()];
    proof {
        lemma_byte_position(rest@, LF, 0);
    }
    match find_byte(rest, LF) {
        Some(offset) => at + offset,
        None => data.len(),
    }
}

/// The start of the line `count` lines above the one that starts at `start`, or of the first line.
pub open spec fn earlier_start(data: Seq<u8>, start: int, count: nat) -> int
    decreases count,
{
    if count == 0 || start <= 0 {
        start
    } else {
        earlier_start(data, line_start(data, start - 1), (count - 1) as nat)
    }
}

/// The end of the line `count` lines below the one that ends at `end`, or of the last line.
pub open spec fn later_end(data: Seq<u8>, end: int, count: nat) -> int
    decreases count,
{
    if count == 0 || end >= data.len() {
        end
    } else {
        later_end(data, line_end(data, end + 1), (count - 1) as nat)
    }
}

/// The span a match prints: the line holding it, widened by the surrounding lines asked for. It
/// ends at the newline terminating the last line.
pub open spec fn region_of(data: Seq<u8>, from: int, to: int, context: Context) -> (int, int) {
    (
        earlier_start(data, line_start(data, from), context.before as nat),
        later_end(data, line_end(data, to), context.after as nat),
    )
}

/// The span a match prints: the line holding it, widened by the surrounding lines `context` asks
/// for. Ends at the newline terminating the last line, which the caller carries.
pub fn printed_region(data: &[u8], match_start: usize, match_end: usize, context: Context) -> (
    span: (usize, usize))
    requires
        match_start <= match_end <= data@.len(),
    ensures
        (span.0 as int, span.1 as int) == region_of(
            data@,
            match_start as int,
            match_end as int,
            context,
        ),
        span.0 <= match_start,
        match_end <= span.1 <= data@.len(),
{
    let first: usize = find_line_start(data, match_start);
    let last: usize = find_line_end(data, match_end);
    let mut start: usize = first;
    let mut left: usize = context.before;
    while left > 0 && start > 0
        invariant
            start <= first <= match_start <= data@.len(),
            earlier_start(data@, first as int, context.before as nat) == earlier_start(
                data@,
                start as int,
                left as nat,
            ),
        decreases left,
    {
        start = find_line_start(data, start - 1);
        left -= 1;
    }
    let mut end: usize = last;
    let mut left: usize = context.after;
    while left > 0 && end < data.len()
        invariant
            match_end <= last <= end <= data@.len(),
            later_end(data@, last as int, context.after as nat) == later_end(
                data@,
                end as int,
                left as nat,
            ),
        decreases left,
    {
        end = find_line_end(data, end + 1);
        left -= 1;
    }
    (start, end)
}

/// These lines of a region, numbered from `number` on, each as a record.
pub open spec fn numbered_lines(
    sheet: Sheet,
    region: Seq<u8>,
    all: Seq<Line>,
    number: nat,
    base: int,
) -> Seq<u8>
    decreases all.len(),
{
    if all.len() == 0 {
        Seq::empty()
    } else {
        sheet.line(match_record(seen_line(region, base, all[0]), number, None), Coloring::Plain)
            + numbered_lines(sheet, region, all.drop_first(), number + 1, base)
    }
}

/// A printed region: line by line where anything is resolved per line, and verbatim otherwise.
pub open spec fn region_text(sheet: Sheet, data: Seq<u8>, from: int, to: int) -> Seq<u8> {
    let region = data.subrange(from, to);
    if sheet.config.resolves_lines() || sheet.config.output_format != OutputFormat::Standard {
        numbered_lines(
            sheet,
            region,
            lines(region, 0, Newlines::Lf),
            byte_count(data.subrange(0, from), 0x0A) + 1,
            from,
        )
    } else {
        sheet.region(region)
    }
}

/// What a search of a whole buffer has done so far.
#[verifier::ext_equal]
pub ghost struct Sweep {
    /// What it has written.
    pub bytes: Seq<u8>,
    /// How many matches it has found.
    pub matches: nat,
    /// Whether the once-per-file header was written.
    pub headed: bool,
    /// One past the last printed region.
    pub last: Option<int>,
    /// How far the search has come.
    pub scanned: int,
}

/// What one match adds.
pub open spec fn sweep_one(task: Task, data: Seq<u8>, found: (int, int), before: Sweep) -> Sweep {
    let end = found.0 + found.1;
    let counted = Sweep { matches: before.matches + 1, scanned: end, ..before };
    match task.reporting.emits() {
        None => counted,
        Some(config) => {
            let sheet = task.sheet(config);
            let context = task.reporting.surrounds();
            let (start, stop) = region_of(data, found.0, end, context);
            // Regions never overlap, and one reaches past the newline that ends its last line.
            let from = match before.last {
                Some(last) => if last > start {
                    last
                } else {
                    start
                },
                None => start,
            };
            let to = if stop < data.len() {
                stop + 1
            } else {
                data.len() as int
            };
            let opened = Sweep {
                bytes: before.bytes + heading_due(sheet, before.headed),
                headed: before.headed || sheet.opens_files(),
                ..counted
            };
            if from < to {
                // Groups are divided only where surrounding lines are printed.
                let divided = (context.before > 0 || context.after > 0) && (
                before.last matches Some(last) && from > last);
                Sweep {
                    bytes: opened.bytes + (if divided {
                        sheet.group_separator()
                    } else {
                        Seq::empty()
                    }) + region_text(sheet, data, from, to),
                    last: Some(to),
                    ..opened
                }
            } else {
                opened
            }
        },
    }
}

/// What these matches add, until the cap or the first match ends the search.
pub open spec fn sweep(task: Task, data: Seq<u8>, found: Seq<(int, int)>, before: Sweep) -> Sweep
    decreases found.len(),
{
    if found.len() == 0 || reached(before.matches, task.max) {
        before
    } else {
        let next = sweep_one(task, data, found[0], before);
        if task.reporting matches Reporting::Tally { stop_at_first: true } {
            next
        } else {
            sweep(task, data, found.drop_first(), next)
        }
    }
}

/// A search that has not begun.
pub open spec fn unswept() -> Sweep {
    Sweep { bytes: Seq::empty(), matches: 0, headed: false, last: None, scanned: 0 }
}

/// What searching a whole buffer does.
pub open spec fn swept(task: Task, data: Seq<u8>) -> Sweep {
    sweep(task, data, matches_from(data, task.rule, 0), unswept())
}

/// How many lines a whole-buffer search reports to have walked over.
pub open spec fn lines_counted(counting: LineCounting, data: Seq<u8>) -> nat {
    match counting {
        LineCounting::Reported => byte_count(data, 0x0A) + 1,
        LineCounting::Ignored => 0,
    }
}

/// The bytes whose hash a heading prints.
pub open spec fn heading_of(reporting: Reporting, data: Seq<u8>) -> Option<Seq<u8>> {
    if reporting.places_hash() == HashPlacement::Heading {
        Some(data)
    } else {
        None
    }
}

/// The hash the closing record of a file carries.
pub open spec fn closing_hash(reporting: Reporting, headed: bool, data: Seq<u8>) -> Option<u64> {
    if headed && reporting.places_hash() == HashPlacement::ClosingRecord {
        Some(hash_of(data))
    } else {
        None
    }
}

/// Print a region line by line, numbering its lines from `number` on.
fn write_numbered(emitter: &Emitter<'_>, region: &[u8], number: usize, base: usize, out: &mut Vec<u8>)
    requires
        emitter.wf(),
        base + region@.len() <= usize::MAX,
        0 < number <= base + 1,
    ensures
        final(out)@ == old(out)@ + numbered_lines(
            emitter@,
            region@,
            lines(region@, 0, Newlines::Lf),
            number as nat,
            base as int,
        ),
{
    let ghost sheet = emitter@;
    let ghost whole = numbered_lines(
        sheet,
        region@,
        lines(region@, 0, Newlines::Lf),
        number as nat,
        base as int,
    );
    let mut all = named_lines(region, Newlines::Lf);
    let mut index: usize = 0;
    proof {
        lemma_lines_chain(region@, 0, Newlines::Lf);
    }
    loop
        invariant
            emitter.wf(),
            sheet == emitter@,
            all.wf(),
            all.input() == region@,
            base + region@.len() <= usize::MAX,
            0 < number <= base + 1,
            index + all.remaining().len() <= region@.len(),
            forall|i: int|
                #![trigger all.remaining()[i]]
                0 <= i < all.remaining().len() ==> 0 <= all.remaining()[i].start
                    <= region@.len(),
            old(out)@ + whole == out@ + numbered_lines(
                sheet,
                region@,
                all.remaining(),
                (number + index) as nat,
                base as int,
            ),
        ensures
            all.remaining().len() == 0,
        decreases all.remaining().len(),
    {
        let ghost ahead = all.remaining();
        let ghost written = out@;
        let named = match all.next() {
            Some(named) => named,
            None => {
                break;
            },
        };
        assert(ahead[0].start <= region@.len());
        let record = LineRecord {
            as_cut: named.as_cut,
            whole: named.whole,
            line_number: number + index,
            byte_offset: base + named.offset,
            is_match: true,
            // A multiline region holds no column to point at.
            first_match: None,
        };
        emitter.line(out, record);
        proof {
            assert forall|i: int|
                #![trigger all.remaining()[i]]
                0 <= i < all.remaining().len() implies 0 <= all.remaining()[i].start
                <= region@.len() by {
                assert(all.remaining()[i] == ahead[i + 1]);
            }
            assert(record@ == match_record(
                seen_line(region@, base as int, ahead[0]),
                (number + index) as nat,
                None,
            ));
            let text = sheet.line(record@, Coloring::Plain);
            let rest = numbered_lines(
                sheet,
                region@,
                all.remaining(),
                (number + index + 1) as nat,
                base as int,
            );
            assert(written + (text + rest) =~= written + text + rest);
        }
        index += 1;
    }
    proof {
        assert(out@ + Seq::<u8>::empty() =~= out@);
    }
}

/// Print a region: line by line where anything is resolved per line, and verbatim otherwise.
fn write_region(
    emitter: &Emitter<'_>,
    data: &[u8],
    from: usize,
    to: usize,
    line_numbers: &mut LineCursor,
    out: &mut Vec<u8>,
)
    requires
        emitter.wf(),
        from <= to <= data@.len(),
        data@.len() < usize::MAX,
        old(line_numbers).wf(),
        old(line_numbers).through() <= from,
        old(line_numbers).counted() == byte_count(
            data@.subrange(0, old(line_numbers).through() as int),
            LF,
        ),
    ensures
        final(out)@ == old(out)@ + region_text(emitter@, data@, from as int, to as int),
        final(line_numbers).wf(),
        final(line_numbers).through() <= from,
        final(line_numbers).counted() == byte_count(
            data@.subrange(0, final(line_numbers).through() as int),
            LF,
        ),
{
    let region: &[u8] = &data[from..to];
    if emitter.config.annotates_lines() || emitter.config.output_format != OutputFormat::Standard {
        let ghost through = line_numbers.through() as int;
        proof {
            lemma_byte_count_joins(
                data@.subrange(0, through),
                data@.subrange(through, from as int),
                LF,
            );
            assert(data@.subrange(0, through) + data@.subrange(through, from as int)
                =~= data@.subrange(0, from as int));
        }
        let number: usize = line_numbers.line_at(data, from);
        write_numbered(emitter, region, number, from, out);
    } else {
        emitter.region(out, region);
    }
}

/// What one match of a whole-buffer search prints. Answers whether a header was printed by now, and
/// one past the last printed region.
fn print_match(
    emitter: &Emitter<'_>,
    data: &[u8],
    found: MatchInfo,
    context: Context,
    printed_heading: &mut bool,
    last_printed_end: Option<usize>,
    line_numbers: &mut LineCursor,
    out: &mut Vec<u8>,
) -> (last: Option<usize>)
    requires
        emitter.wf(),
        found.inside(data@),
        data@.len() < usize::MAX,
        old(line_numbers).wf(),
        old(line_numbers).counted() == byte_count(
            data@.subrange(0, old(line_numbers).through() as int),
            LF,
        ),
        last_printed_end matches Some(end) ==> old(line_numbers).through() <= end <= data@.len(),
        last_printed_end is None ==> old(line_numbers).through() == 0,
    ensures
        forall|task: Task, before: Sweep|
            #![trigger sweep_one(task, data@, (found.offset as int, found.length as int), before)]
            task.reporting.emits() == Some(*emitter.config) && task.sheet(*emitter.config)
                == emitter@ && task.reporting.surrounds() == context && before.headed == *old(
                printed_heading,
            ) && before.last == opt_int(last_printed_end) && before.bytes == old(out)@ ==> {
                let next = sweep_one(
                    task,
                    data@,
                    (found.offset as int, found.length as int),
                    before,
                );
                &&& next.bytes == final(out)@
                &&& next.headed == *final(printed_heading)
                &&& next.last == opt_int(last)
            },
        final(line_numbers).wf(),
        final(line_numbers).counted() == byte_count(
            data@.subrange(0, final(line_numbers).through() as int),
            LF,
        ),
        last matches Some(end) ==> final(line_numbers).through() <= end <= data@.len(),
        last is None ==> final(line_numbers).through() == 0,
{
    broadcast use crate::bytes::group_append;

    // The same once-per-file header line mode writes.
    emitter.file_heading(out, printed_heading);
    assert(found.offset + found.length <= data.len());
    let (start, stop) = printed_region(data, found.offset, found.offset + found.length, context);
    // Regions never overlap.
    let from: usize = match last_printed_end {
        Some(end) => if end > start {
            end
        } else {
            start
        },
        None => start,
    };
    // The region reaches past the newline terminating its last line and carries that terminator. A
    // region of exactly one newline is a blank line, which is context like any other.
    let to: usize = if stop < data.len() {
        stop + 1
    } else {
        data.len()
    };
    if from < to {
        // A region that does not abut the previous one opens a group.
        let follows_a_gap = match last_printed_end {
            Some(end) => from > end,
            None => false,
        };
        if (context.before > 0 || context.after > 0) && follows_a_gap {
            emitter.group_separator(out);
        }
        write_region(emitter, data, from, to, line_numbers, out);
        Some(to)
    } else {
        last_printed_end
    }
}

/// An offset as a mathematical integer.
pub open spec fn opt_int(value: Option<usize>) -> Option<int> {
    match value {
        Some(value) => Some(value as int),
        None => None,
    }
}

/// Search a whole buffer, matches crossing lines.
pub fn search_multiline(
    data: &[u8],
    path: &str,
    search: &Search<'_>,
    reporting: &Reporting,
    out: &mut Vec<u8>,
) -> (result: FileResult)
    requires
        search.wf(),
        data@.len() < usize::MAX,
    ensures
        ({
            let done = swept(multiline_task(path, search, reporting, data@), data@);
            let counted = lines_counted(search.line_counting, data@);
            &&& final(out)@ == old(out)@ + done.bytes + json_end(
                encode_utf8(path@),
                *reporting,
                done.headed,
                done.matches,
                counted,
                closing_hash(*reporting, done.headed, data@),
            )
            &&& result.match_count == done.matches
            &&& result.lines_searched == counted
            &&& result.bytes_searched == data@.len()
            // Reaching the cap ends the walk over the rest, but only with input still unread.
            &&& result.flow == if reached(done.matches, search.max_matches) && done.scanned
                < data@.len() {
                Some(Stop::MaxMatches)
            } else {
                None
            }
        }),
        result.match_count <= data@.len(),
        result.lines_searched <= data@.len() + 1,
{
    let ghost task = multiline_task(path, search, reporting, data@);
    let stop_at_first = match reporting {
        Reporting::Tally { stop_at_first } => *stop_at_first,
        _ => false,
    };
    let context = reporting.context();
    let placement = reporting.hash_placement();
    let heading_hash = if placement == HashPlacement::Heading {
        Some(data)
    } else {
        None
    };
    proof {
        lemma_byte_count(data@, LF);
    }
    let lines_searched: usize = if search.line_counting == LineCounting::Reported {
        count_byte(data, LF) + 1
    } else {
        0
    };
    let ghost done = swept(task, data@);
    let mut match_count: usize = 0;
    let mut printed_heading = false;
    let mut scanned_through: usize = 0;
    // One past the terminator of the last printed region, absent until one is printed.
    let mut last_printed_end: Option<usize> = None;
    // Regions arrive in increasing order, which is what lets the line number carry.
    let mut line_numbers = LineCursor::default();
    let mut matches = search.matcher.matches(data);
    let ghost started = out@;
    let ghost mut state = unswept();
    proof {
        assert(data@.subrange(0, 0) =~= Seq::<u8>::empty());
        assert(started + Seq::<u8>::empty() =~= started);
    }
    loop
        invariant_except_break
            done == sweep(task, data@, matches.remaining(), state),
        invariant
            search.wf(),
            data@.len() < usize::MAX,
            matches.wf(),
            matches.input() == data@,
            matches.rule() == search.matcher@,
            0 <= matches.at() <= data@.len(),
            match_count <= matches.at(),
            task == multiline_task(path, search, reporting, data@),
            done == swept(task, data@),
            heading_hash == (if reporting.places_hash() == HashPlacement::Heading {
                Some(data)
            } else {
                None
            }),
            context == reporting.surrounds(),
            stop_at_first == (*reporting matches Reporting::Tally { stop_at_first: true }),
            started == old(out)@,
            out@ == started + state.bytes,
            state.matches == match_count,
            state.headed == printed_heading,
            state.last == opt_int(last_printed_end),
            state.scanned == scanned_through,
            line_numbers.wf(),
            line_numbers.counted() == byte_count(
                data@.subrange(0, line_numbers.through() as int),
                LF,
            ),
            last_printed_end matches Some(end) ==> line_numbers.through() <= end <= data@.len(),
            last_printed_end is None ==> line_numbers.through() == 0,
        ensures
            done == state,
        decreases data@.len() - matches.at(),
    {
        let found = match matches.next() {
            Some(found) => found,
            None => {
                break;
            },
        };
        let capped = match search.max_matches {
            Some(max) => match_count >= max,
            None => false,
        };
        if capped {
            break;
        }
        let ghost before = state;
        match_count = match_count + 1;
        assert(found.offset + found.length <= data.len());
        scanned_through = found.offset + found.length;
        match reporting.config() {
            None => {
                proof {
                    state = sweep_one(
                        task,
                        data@,
                        (found.offset as int, found.length as int),
                        before,
                    );
                }
                if stop_at_first {
                    break;
                }
            },
            Some(config) => {
                let emitter = Emitter { path, search, config, heading_hash };
                last_printed_end = print_match(
                    &emitter,
                    data,
                    found,
                    context,
                    &mut printed_heading,
                    last_printed_end,
                    &mut line_numbers,
                    out,
                );
                proof {
                    assert(task.sheet(*config) == emitter@);
                    // What is written so far stands in front of either account of it.
                    let found_here = (found.offset as int, found.length as int);
                    let absolute = Sweep { bytes: started + before.bytes, ..before };
                    lemma_written_before(task, data@, found_here, before, started);
                    let next = sweep_one(task, data@, found_here, absolute);
                    assert(next.bytes == out@);
                    state = sweep_one(task, data@, found_here, before);
                }
            },
        }
    }
    let file_hash = if printed_heading && placement == HashPlacement::ClosingRecord {
        Some(content_hash(data))
    } else {
        None
    };
    print_json_end(
        out,
        path,
        reporting,
        printed_heading,
        match_count,
        lines_searched,
        file_hash,
    );
    let capped = match search.max_matches {
        Some(max) => match_count >= max,
        None => false,
    };
    let flow = if capped && scanned_through < data.len() {
        Some(Stop::MaxMatches)
    } else {
        None
    };
    FileResult { match_count, lines_searched, bytes_searched: data.len(), flow }
}

/// The task of a search of a whole buffer: a heading names the buffer itself.
pub open spec fn multiline_task(
    path: &str,
    search: &Search<'_>,
    reporting: &Reporting,
    data: Seq<u8>,
) -> Task {
    Task { heading: heading_of(*reporting, data), ..task_of(path, search, reporting, None) }
}

/// What stands in the output before a search only stands in front of what the search writes.
proof fn lemma_written_before(
    task: Task,
    data: Seq<u8>,
    found: (int, int),
    before: Sweep,
    earlier: Seq<u8>,
)
    ensures
        ({
            let next = sweep_one(task, data, found, before);
            sweep_one(task, data, found, Sweep { bytes: earlier + before.bytes, ..before })
                == Sweep { bytes: earlier + next.bytes, ..next }
        }),
{
    match task.reporting.emits() {
        None => {},
        Some(config) => {
            let sheet = task.sheet(config);
            let context = task.reporting.surrounds();
            let (start, stop) = region_of(data, found.0, found.0 + found.1, context);
            let from = match before.last {
                Some(last) => if last > start {
                    last
                } else {
                    start
                },
                None => start,
            };
            let to = if stop < data.len() {
                stop + 1
            } else {
                data.len() as int
            };
            lemma_front(
                earlier,
                before.bytes,
                heading_due(sheet, before.headed),
                sheet.group_separator(),
                region_text(sheet, data, from, to),
            );
        },
    }
}

proof fn lemma_front(
    earlier: Seq<u8>,
    bytes: Seq<u8>,
    due: Seq<u8>,
    divider: Seq<u8>,
    text: Seq<u8>,
)
    ensures
        (earlier + bytes) + due == earlier + (bytes + due),
        (earlier + bytes) + due + divider + text == earlier + (bytes + due + divider + text),
        (earlier + bytes) + due + Seq::<u8>::empty() + text == earlier + (bytes + due + Seq::<
            u8,
        >::empty() + text),
{
    lemma_append(earlier, bytes, due);
    lemma_append(earlier, bytes + due, divider);
    lemma_append(earlier, bytes + due + divider, text);
    lemma_append(earlier, bytes + due, Seq::<u8>::empty());
    lemma_append(earlier, bytes + due + Seq::<u8>::empty(), text);
}

} // verus!
