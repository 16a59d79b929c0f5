//! What a search across lines prints: whole lines, as many around a match as were asked for.

use vstd::prelude::*;

use crate::bytes::{byte_position, lemma_byte_position};
use crate::cuts::{closes, last_close, lemma_last_close, CutAfter};
use crate::sz::{byte_count, lemma_byte_count_joins, lemma_none_counted};

use super::matcher::matches_from;
use super::multiline::{
    earlier_start, later_end, line_end, line_start, region_of, sweep, sweep_one, swept, unswept,
    Sweep,
};
use super::options::{Context, Reporting};
use super::window::Task;

verus! {

/// Whether a line begins at `at`.
pub open spec fn begins_a_line(data: Seq<u8>, at: int) -> bool {
    at == 0 || 0 < at <= data.len() && data[at - 1] == '\n' as u8
}

/// Whether a line ends at `at`, in front of its line feed or at the end of the data.
pub open spec fn ends_a_line(data: Seq<u8>, at: int) -> bool {
    at == data.len() || 0 <= at < data.len() && data[at] == '\n' as u8
}

proof fn lemma_line_start(data: Seq<u8>, at: int)
    requires
        0 <= at <= data.len(),
    ensures
        0 <= line_start(data, at) <= at,
        begins_a_line(data, line_start(data, at)),
        forall|i: int| line_start(data, at) <= i < at ==> data[i] != 0x0A,
{
    let front = data.subrange(0, at);
    lemma_last_close(front, at, CutAfter::LineFeed);
    match last_close(front, at, CutAfter::LineFeed) {
        Some(end) => {
            assert(closes(front, end - 1, CutAfter::LineFeed));
            assert forall|i: int| end <= i < at implies data[i] != 0x0A by {
                assert(!closes(front, i, CutAfter::LineFeed));
            }
        },
        None => {
            assert forall|i: int| 0 <= i < at implies data[i] != 0x0A by {
                assert(!closes(front, i, CutAfter::LineFeed));
            }
        },
    }
}

proof fn lemma_line_end(data: Seq<u8>, at: int)
    requires
        0 <= at <= data.len(),
    ensures
        at <= line_end(data, at) <= data.len(),
        ends_a_line(data, line_end(data, at)),
        forall|i: int| at <= i < line_end(data, at) ==> data[i] != 0x0A,
{
    let rest = data.subrange(at, data.len() as int);
    lemma_byte_position(rest, 0x0A, 0);
    let found = byte_position(rest, 0x0A, 0);
    assert forall|i: int| at <= i < at + found implies data[i] != 0x0A by {
        assert(rest[i - at] != 0x0A);
    }
    if found < rest.len() {
        assert(rest[found] == data[at + found]);
    }
}

proof fn lemma_feeds(data: Seq<u8>, from: int, middle: int, to: int)
    requires
        0 <= from <= middle <= to <= data.len(),
    ensures
        byte_count(data.subrange(from, to), 0x0A) == byte_count(data.subrange(from, middle), 0x0A)
            + byte_count(data.subrange(middle, to), 0x0A),
{
    lemma_byte_count_joins(data.subrange(from, middle), data.subrange(middle, to), 0x0A);
    assert(data.subrange(from, middle) + data.subrange(middle, to) =~= data.subrange(from, to));
}

proof fn lemma_one_feed(data: Seq<u8>, at: int)
    requires
        0 <= at < data.len(),
        data[at] == 0x0A,
    ensures
        byte_count(data.subrange(at, at + 1), 0x0A) == 1,
{
    let one = data.subrange(at, at + 1);
    assert(one.drop_last() =~= Seq::empty());
    reveal_with_fuel(byte_count, 2);
}

proof fn lemma_earlier(data: Seq<u8>, start: int, count: nat)
    requires
        0 <= start <= data.len(),
        begins_a_line(data, start),
    ensures
        ({
            let first = earlier_start(data, start, count);
            let feeds = byte_count(data.subrange(first, start), 0x0A);
            &&& 0 <= first <= start
            &&& begins_a_line(data, first)
            &&& feeds <= count
            &&& feeds == count || first == 0
        }),
    decreases count,
{
    if count == 0 || start <= 0 {
        assert(data.subrange(start, start) =~= Seq::empty());
    } else {
        let above = line_start(data, start - 1);
        lemma_line_start(data, start - 1);
        lemma_earlier(data, above, (count - 1) as nat);
        let first = earlier_start(data, above, (count - 1) as nat);
        lemma_feeds(data, first, above, start);
        lemma_feeds(data, above, start - 1, start);
        lemma_none_counted(data.subrange(above, start - 1), 0x0A);
        lemma_one_feed(data, start - 1);
    }
}

proof fn lemma_later(data: Seq<u8>, end: int, count: nat)
    requires
        0 <= end <= data.len(),
        ends_a_line(data, end),
    ensures
        ({
            let last = later_end(data, end, count);
            let feeds = byte_count(data.subrange(end, last), 0x0A);
            &&& end <= last <= data.len()
            &&& ends_a_line(data, last)
            &&& feeds <= count
            &&& feeds == count || last == data.len()
        }),
    decreases count,
{
    if count == 0 || end >= data.len() {
        assert(data.subrange(end, end) =~= Seq::empty());
    } else {
        let below = line_end(data, end + 1);
        lemma_line_end(data, end + 1);
        lemma_later(data, below, (count - 1) as nat);
        let last = later_end(data, below, (count - 1) as nat);
        lemma_feeds(data, end, below, last);
        lemma_feeds(data, end, end + 1, below);
        lemma_none_counted(data.subrange(end + 1, below), 0x0A);
        lemma_one_feed(data, end);
    }
}

/// A region is whole lines: those that a match touches, and as many in front of them and behind them
/// as were asked for, or as there are.
pub proof fn a_region_is_whole_lines(data: Seq<u8>, from: int, to: int, context: Context)
    requires
        0 <= from <= to <= data.len(),
    ensures
        ({
            let (start, stop) = region_of(data, from, to, context);
            &&& 0 <= start <= from
            &&& to <= stop <= data.len()
            &&& begins_a_line(data, start)
            &&& ends_a_line(data, stop)
            &&& byte_count(data.subrange(start, from), '\n' as u8) == context.before || start == 0
                && byte_count(data.subrange(start, from), '\n' as u8) <= context.before
            &&& byte_count(data.subrange(to, stop), '\n' as u8) == context.after || stop
                == data.len() && byte_count(data.subrange(to, stop), '\n' as u8) <= context.after
        }),
{
    let (start, stop) = region_of(data, from, to, context);
    let above = line_start(data, from);
    let below = line_end(data, to);
    lemma_line_start(data, from);
    lemma_line_end(data, to);
    lemma_earlier(data, above, context.before as nat);
    lemma_later(data, below, context.after as nat);
    lemma_feeds(data, start, above, from);
    lemma_none_counted(data.subrange(above, from), 0x0A);
    lemma_feeds(data, to, below, stop);
    lemma_none_counted(data.subrange(to, below), 0x0A);
}

proof fn lemma_swept(task: Task, data: Seq<u8>, found: Seq<(int, int)>, before: Sweep)
    requires
        !(task.reporting matches Reporting::Tally { stop_at_first: true }),
    ensures
        sweep(task, data, found, before).matches == match task.max {
            Some(max) => if before.matches + found.len() < max {
                before.matches + found.len()
            } else if before.matches < max {
                max as nat
            } else {
                before.matches
            },
            None => before.matches + found.len(),
        },
    decreases found.len(),
{
    if found.len() > 0 && !(task.max matches Some(max) && before.matches >= max) {
        let next = sweep_one(task, data, found[0], before);
        assert(next.matches == before.matches + 1);
        lemma_swept(task, data, found.drop_first(), next);
    }
}

/// A search across lines counts every match, up to the cap where there is one.
pub proof fn every_match_across_lines_counts(task: Task, data: Seq<u8>)
    requires
        !(task.reporting matches Reporting::Tally { stop_at_first: true }),
    ensures
        ({
            let found = matches_from(data, task.rule, 0).len();
            swept(task, data).matches == match task.max {
                Some(max) => if found < max {
                    found
                } else {
                    max as nat
                },
                None => found,
            }
        }),
{
    lemma_swept(task, data, matches_from(data, task.rule, 0), unswept());
}

} // verus!
