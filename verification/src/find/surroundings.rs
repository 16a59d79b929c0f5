//! Which lines a search prints: those it selects, and the lines around them that were asked for, each
//! once and in order.

use vstd::prelude::*;

use super::emit::{Coloring, Sheet};
use super::laws::{stands_at, the_leftmost_place_is_found};
use super::matcher::Rule;
use super::options::{Context, OutputConfig, Reporting};
use super::search::selected;
use super::window::{
    context_record, first_unprinted, held_lines, match_record, ring, step, unprinted, walk, Held,
    Progress, Seen, Task,
};

verus! {

/// A line is selected where the pattern stands in it, and in an inverted search where it does not.
pub proof fn a_line_is_selected_by_its_bytes(line: Seq<u8>, rule: Rule, invert: bool)
    requires
        rule.pattern.len() > 0,
        !rule.ignore_case,
        !rule.unicode,
    ensures
        selected(line, rule, invert) is Some <==> invert != exists|at: int|
            #[trigger] stands_at(line, rule, at),
{
    reveal(stands_at);
    the_leftmost_place_is_found(line, rule, 0);
    if exists|at: int| #[trigger] stands_at(line, rule, at) {
        let at = choose|at: int| #[trigger] stands_at(line, rule, at);
        assert(stands_at(line, rule, at));
    }
}

/// Whether a search selects the line at `at`.
pub open spec fn chosen(task: Task, all: Seq<Seen>, at: int) -> bool {
    0 <= at < all.len() && selected(all[at].as_cut, task.rule, task.invert) is Some
}

/// How many of the first `end` lines a search selects.
pub open spec fn chosen_count(task: Task, all: Seq<Seen>, end: int) -> nat
    decreases end,
{
    if end <= 0 {
        0
    } else {
        chosen_count(task, all, end - 1) + if chosen(task, all, end - 1) {
            1nat
        } else {
            0nat
        }
    }
}

/// Whether the line at `at` is one that a search selects among the first `end`, or at most
/// `context.before` lines in front of one or `context.after` behind one.
#[verifier::opaque]
pub open spec fn near(task: Task, all: Seq<Seen>, context: Context, end: int, at: int) -> bool {
    exists|hit: int|
        hit < end && #[trigger] chosen(task, all, hit) && hit - context.before <= at <= hit
            + context.after
}

/// The header of a file.
#[verifier::opaque]
pub open spec fn header_of(sheet: Sheet) -> Seq<u8> {
    sheet.file_heading()
}

/// The divider between lines that do not adjoin.
#[verifier::opaque]
pub open spec fn divider_of(sheet: Sheet) -> Seq<u8> {
    sheet.group_separator()
}

/// The record of the line at `at`.
#[verifier::opaque]
pub open spec fn record_at(task: Task, all: Seq<Seen>, sheet: Sheet, at: int) -> Seq<u8> {
    match selected(all[at].as_cut, task.rule, task.invert) {
        Some(first) => sheet.match_line(match_record(all[at], (at + 1) as nat, first)),
        None => sheet.line(context_record(all[at], (at + 1) as nat), Coloring::Plain),
    }
}

/// Whether any line in front of `at` is printed.
pub open spec fn any_before(
    task: Task,
    all: Seq<Seen>,
    context: Context,
    end: int,
    at: int,
) -> bool
    decreases at,
{
    at > 0 && (near(task, all, context, end, at - 1) || any_before(
        task,
        all,
        context,
        end,
        at - 1,
    ))
}

/// The first `at` lines as they are printed once the first `end` were searched: every line near a
/// selected one, the header in front of the first of them, and a divider wherever lines were left
/// out since the last.
pub open spec fn page(
    task: Task,
    all: Seq<Seen>,
    sheet: Sheet,
    context: Context,
    end: int,
    at: int,
) -> Seq<u8>
    decreases at,
{
    if at <= 0 {
        Seq::empty()
    } else {
        let earlier = page(task, all, sheet, context, end, at - 1);
        if near(task, all, context, end, at - 1) {
            earlier + (if !any_before(task, all, context, end, at - 1) {
                header_of(sheet)
            } else if !near(task, all, context, end, at - 2) {
                divider_of(sheet)
            } else {
                Seq::empty()
            }) + record_at(task, all, sheet, at - 1)
        } else {
            earlier
        }
    }
}

/// The records of the lines from `from` on, in front of `to`.
spec fn run_of(task: Task, all: Seq<Seen>, sheet: Sheet, from: int, to: int) -> Seq<u8>
    decreases to - from,
{
    if from >= to {
        Seq::empty()
    } else {
        run_of(task, all, sheet, from, to - 1) + record_at(task, all, sheet, to - 1)
    }
}

proof fn lemma_run_front(task: Task, all: Seq<Seen>, sheet: Sheet, from: int, to: int)
    requires
        from < to,
    ensures
        run_of(task, all, sheet, from, to) == record_at(task, all, sheet, from) + run_of(
            task,
            all,
            sheet,
            from + 1,
            to,
        ),
    decreases to - from,
{
    reveal_with_fuel(run_of, 2);
    if from + 1 < to {
        lemma_run_front(task, all, sheet, from, to - 1);
        assert(run_of(task, all, sheet, from, to) =~= record_at(task, all, sheet, from) + run_of(
            task,
            all,
            sheet,
            from + 1,
            to,
        ));
    } else {
        assert(run_of(task, all, sheet, from, to) =~= record_at(task, all, sheet, from) + run_of(
            task,
            all,
            sheet,
            from + 1,
            to,
        ));
    }
}

/// Where a walk stands once `end` lines were searched.
spec fn follows(
    task: Task,
    all: Seq<Seen>,
    sheet: Sheet,
    context: Context,
    end: int,
    now: Progress,
) -> bool {
    let kept = if context.before < end {
        context.before as int
    } else {
        end
    };
    &&& 0 <= end <= all.len()
    &&& now.lines == end
    &&& now.matches == chosen_count(task, all, end)
    &&& now.headed == (sheet.opens_files() && any_before(task, all, context, end, end))
    &&& (now.pending > 0 <==> near(task, all, context, end, end))
    &&& now.pending <= context.after
    &&& forall|more: int|
        0 <= more <= context.after ==> (#[trigger] near(task, all, context, end, end + more)
            <==> more < now.pending)
    &&& now.behind.len() == kept
    &&& forall|i: int|
        0 <= i < kept ==> #[trigger] now.behind[i] == (Held {
            seen: all[end - kept + i],
            number: (end - kept + i + 1) as nat,
        })
    &&& match now.last {
        None => !any_before(task, all, context, end, end),
        Some(last) => {
            &&& 1 <= last <= end
            &&& near(task, all, context, end, last - 1)
            &&& forall|at: int| last <= at < end ==> !#[trigger] near(task, all, context, end, at)
        },
    }
}

proof fn lemma_any_before(task: Task, all: Seq<Seen>, context: Context, end: int, at: int)
    ensures
        any_before(task, all, context, end, at) <==> exists|i: int|
            0 <= i < at && #[trigger] near(task, all, context, end, i),
    decreases at,
{
    if at > 0 {
        lemma_any_before(task, all, context, end, at - 1);
        if any_before(task, all, context, end, at - 1) {
            let i = choose|i: int| 0 <= i < at - 1 && #[trigger] near(task, all, context, end, i);
            assert(near(task, all, context, end, i));
        }
    }
}

/// Lines that are not near print nothing.
proof fn lemma_page_gap(
    task: Task,
    all: Seq<Seen>,
    sheet: Sheet,
    context: Context,
    end: int,
    from: int,
    to: int,
)
    requires
        0 <= from <= to,
        forall|i: int| from <= i < to ==> !#[trigger] near(task, all, context, end, i),
    ensures
        page(task, all, sheet, context, end, to) == page(task, all, sheet, context, end, from),
        any_before(task, all, context, end, to) == any_before(task, all, context, end, from),
    decreases to - from,
{
    if from < to {
        lemma_page_gap(task, all, sheet, context, end, from, to - 1);
        assert(!near(task, all, context, end, to - 1));
    }
}

/// Lines that are all near print a run, the first of them behind what it opens with.
proof fn lemma_page_run(
    task: Task,
    all: Seq<Seen>,
    sheet: Sheet,
    context: Context,
    end: int,
    from: int,
    to: int,
)
    requires
        0 <= from < to,
        forall|i: int| from <= i < to ==> #[trigger] near(task, all, context, end, i),
    ensures
        page(task, all, sheet, context, end, to) == page(task, all, sheet, context, end, from) + (
        if !any_before(task, all, context, end, from) {
            header_of(sheet)
        } else if !near(task, all, context, end, from - 1) {
            divider_of(sheet)
        } else {
            Seq::empty()
        }) + run_of(task, all, sheet, from, to),
        any_before(task, all, context, end, to),
    decreases to - from,
{
    assert(near(task, all, context, end, to - 1));
    reveal_with_fuel(run_of, 2);
    if from + 1 < to {
        lemma_page_run(task, all, sheet, context, end, from, to - 1);
        assert(near(task, all, context, end, to - 2));
        assert(page(task, all, sheet, context, end, to) =~= page(
            task,
            all,
            sheet,
            context,
            end,
            from,
        ) + (if !any_before(task, all, context, end, from) {
            header_of(sheet)
        } else if !near(task, all, context, end, from - 1) {
            divider_of(sheet)
        } else {
            Seq::empty()
        }) + run_of(task, all, sheet, from, to));
    } else {
        assert(run_of(task, all, sheet, from, to) =~= record_at(task, all, sheet, from));
    }
}

/// The held lines that are not printed yet are a run of lines.
proof fn lemma_held(
    task: Task,
    all: Seq<Seen>,
    sheet: Sheet,
    behind: Seq<Held>,
    end: int,
    from: int,
    last: Option<nat>,
)
    requires
        0 <= from <= behind.len() <= end <= all.len(),
        forall|i: int|
            0 <= i < behind.len() ==> #[trigger] behind[i] == (Held {
                seen: all[end - behind.len() + i],
                number: (end - behind.len() + i + 1) as nat,
            }),
        last matches Some(last) ==> last <= end,
        forall|i: int|
            end - behind.len() <= i < end && (last matches Some(last) ==> last <= i) ==> !#[trigger] chosen(
                task,
                all,
                i,
            ),
    ensures
        ({
            let first = end - behind.len() + from;
            let start = match last {
                Some(last) => if first < last {
                    last as int
                } else {
                    first
                },
                None => first,
            };
            &&& held_lines(sheet, behind, from, last) == run_of(task, all, sheet, start, end)
            &&& first_unprinted(behind, last, from) == if start < end {
                Some((start + 1) as nat)
            } else {
                None
            }
        }),
    decreases behind.len() - from,
{
    let first = end - behind.len() + from;
    if from < behind.len() {
        assert(behind[from].number == first + 1);
        if unprinted(behind[from].number, last) {
            lemma_unselected(task, all, sheet, first);
            lemma_held(task, all, sheet, behind, end, from + 1, Some((first + 1) as nat));
            lemma_run_front(task, all, sheet, first, end);
        } else {
            lemma_held(task, all, sheet, behind, end, from + 1, last);
        }
    }
}

/// A line that was not selected is recorded as a surrounding one.
proof fn lemma_unselected(task: Task, all: Seq<Seen>, sheet: Sheet, at: int)
    requires
        0 <= at < all.len(),
        !chosen(task, all, at),
    ensures
        sheet.line(context_record(all[at], (at + 1) as nat), Coloring::Plain) == record_at(
            task,
            all,
            sheet,
            at,
        ),
{
    reveal(record_at);
}

/// What one line does to a search with surrounding lines.
proof fn lemma_around(
    task: Task,
    all: Seq<Seen>,
    config: OutputConfig,
    context: Context,
    end: int,
    now: Progress,
)
    requires
        task.max is None,
        task.reporting == Reporting::PrintContext(config, context),
        0 <= end < all.len(),
        now.lines == end,
    ensures
        ({
            let sheet = task.sheet(config);
            let next = step(task, all[end], now);
            let opens = match first_unprinted(now.behind, now.last, 0) {
                Some(first) => first,
                None => (end + 1) as nat,
            };
            &&& next.stop is None
            &&& next.progress.lines == end + 1
            &&& next.progress.behind == ring(
                now.behind,
                context.before as int,
                all[end],
                (end + 1) as nat,
            )
            &&& if chosen(task, all, end) {
                &&& next.bytes == (if now.headed {
                    Seq::empty()
                } else {
                    header_of(sheet)
                }) + (if now.last is Some && opens > now.last->0 + 1 {
                    divider_of(sheet)
                } else {
                    Seq::empty()
                }) + held_lines(sheet, now.behind, 0, now.last) + record_at(task, all, sheet, end)
                &&& next.progress.matches == now.matches + 1
                &&& next.progress.headed == (now.headed || sheet.opens_files())
                &&& next.progress.pending == context.after
                &&& next.progress.last == Some((end + 1) as nat)
            } else {
                &&& next.progress.matches == now.matches
                &&& next.progress.headed == now.headed
                &&& if now.pending > 0 {
                    &&& next.bytes == record_at(task, all, sheet, end)
                    &&& next.progress.pending == now.pending - 1
                    &&& next.progress.last == Some((end + 1) as nat)
                } else {
                    &&& next.bytes == Seq::<u8>::empty()
                    &&& next.progress.pending == 0
                    &&& next.progress.last == now.last
                }
            }
        }),
{
    reveal(step);
    reveal(record_at);
    reveal(header_of);
    reveal(divider_of);
}

/// What one line does to a search without surrounding lines.
proof fn lemma_alone(task: Task, all: Seq<Seen>, config: OutputConfig, end: int, now: Progress)
    requires
        task.max is None,
        task.reporting == Reporting::Print(config),
        0 <= end < all.len(),
        now.lines == end,
    ensures
        ({
            let sheet = task.sheet(config);
            let next = step(task, all[end], now);
            &&& next.stop is None
            &&& next.progress.lines == end + 1
            &&& if chosen(task, all, end) {
                &&& next.bytes == (if now.headed {
                    Seq::empty()
                } else {
                    header_of(sheet)
                }) + record_at(task, all, sheet, end)
                &&& next.progress.matches == now.matches + 1
                &&& next.progress.headed == (now.headed || sheet.opens_files())
            } else {
                &&& next.bytes == Seq::<u8>::empty()
                &&& next.progress.matches == now.matches
                &&& next.progress.headed == now.headed
            }
        }),
{
    reveal(step);
    reveal(record_at);
    reveal(header_of);
}

/// A format that opens no file with a header has none.
proof fn lemma_no_header(sheet: Sheet)
    ensures
        !sheet.opens_files() ==> header_of(sheet) == Seq::<u8>::empty(),
{
    reveal(header_of);
}

/// Searching one more line prints what it brings near.
#[verifier::rlimit(60)]
proof fn lemma_follows_step(
    task: Task,
    all: Seq<Seen>,
    config: OutputConfig,
    context: Context,
    end: int,
    now: Progress,
)
    requires
        task.max is None,
        task.reporting == Reporting::PrintContext(config, context),
        follows(task, all, task.sheet(config), context, end, now),
        end < all.len(),
    ensures
        ({
            let sheet = task.sheet(config);
            let next = step(task, all[end], now);
            &&& next.stop is None
            &&& follows(task, all, sheet, context, end + 1, next.progress)
            &&& page(task, all, sheet, context, end, end) + next.bytes == page(
                task,
                all,
                sheet,
                context,
                end + 1,
                end + 1,
            )
        }),
{
    let sheet = task.sheet(config);
    let next = step(task, all[end], now);
    lemma_around(task, all, config, context, end, now);
    lemma_no_header(sheet);
    let before = context.before as int;
    let after = context.after as int;
    let hit = chosen(task, all, end);
    // What the line changes about nearness.
    assert forall|at: int| #[trigger] near(task, all, context, end + 1, at) == (near(
        task,
        all,
        context,
        end,
        at,
    ) || hit && end - before <= at <= end + after) by {
        reveal(near);
        if near(task, all, context, end, at) {
            let by = choose|by: int|
                by < end && #[trigger] chosen(task, all, by) && by - before <= at <= by + after;
            assert(chosen(task, all, by));
        }
        if near(task, all, context, end + 1, at) {
            let by = choose|by: int|
                by < end + 1 && #[trigger] chosen(task, all, by) && by - before <= at <= by + after;
            assert(chosen(task, all, by));
        }
    }
    // Nothing is near far behind what was searched.
    assert forall|at: int| at >= end + after implies !#[trigger] near(
        task,
        all,
        context,
        end,
        at,
    ) by {
        reveal(near);
    }
    lemma_any_before(task, all, context, end, end);
    lemma_any_before(task, all, context, end + 1, end + 1);
    assert(near(task, all, context, end, end + 0) <==> 0 < now.pending);
    if !hit {
        lemma_page_seam(task, all, sheet, context, end, end);
        if now.pending > 0 {
            assert(near(task, all, context, end + 1, end));
            assert(near(task, all, context, end, end - 1)) by {
                reveal(near);
                let by = choose|by: int|
                    by < end && #[trigger] chosen(task, all, by) && by - before <= end <= by
                        + after;
                assert(chosen(task, all, by));
            }
            assert(near(task, all, context, end + 1, end - 1));
            assert(end > 0) by {
                reveal(near);
            }
            assert(any_before(task, all, context, end + 1, end));
            assert(page(task, all, sheet, context, end, end) + next.bytes =~= page(
                task,
                all,
                sheet,
                context,
                end + 1,
                end + 1,
            ));
        } else {
            assert(page(task, all, sheet, context, end, end) + next.bytes =~= page(
                task,
                all,
                sheet,
                context,
                end + 1,
                end + 1,
            ));
        }
        assert forall|more: int| 0 <= more <= after implies (#[trigger] near(
            task,
            all,
            context,
            end + 1,
            end + 1 + more,
        ) <==> more < next.progress.pending) by {
            assert(near(task, all, context, end, end + (more + 1)) == near(
                task,
                all,
                context,
                end + 1,
                end + 1 + more,
            ));
        }
    } else {
        let printed: int = match now.last {
            Some(last) => last as int,
            None => 0,
        };
        let reach: int = if end - before > 0 {
            end - before
        } else {
            0
        };
        let start: int = if reach > printed {
            reach
        } else {
            printed
        };
        // A line in front of the last printed one that is now near was near before.
        assert forall|at: int| 0 <= at < printed implies #[trigger] near(
            task,
            all,
            context,
            end,
            at,
        ) == near(task, all, context, end + 1, at) by {
            if end - before <= at {
                reveal(near);
                let by = choose|by: int|
                    by < end && #[trigger] chosen(task, all, by) && by - before <= printed - 1
                        <= by + after;
                assert(chosen(task, all, by));
                assert(near(task, all, context, end, at));
            }
        }
        if printed > 0 {
            assert(near(task, all, context, end, printed - 1));
        }
        assert forall|at: int| printed <= at < end implies !#[trigger] near(
            task,
            all,
            context,
            end,
            at,
        ) by {}
        assert forall|at: int| printed <= at < end implies !#[trigger] chosen(task, all, at) by {
            if chosen(task, all, at) {
                assert(near(task, all, context, end, at)) by {
                    reveal(near);
                }
            }
        }
        lemma_page_seam(task, all, sheet, context, end, printed);
        lemma_page_gap(task, all, sheet, context, end, printed, end);
        lemma_page_gap(task, all, sheet, context, end + 1, printed, start);
        assert forall|at: int| start <= at < end + 1 implies #[trigger] near(
            task,
            all,
            context,
            end + 1,
            at,
        ) by {}
        lemma_page_run(task, all, sheet, context, end + 1, start, end + 1);
        lemma_held(task, all, sheet, now.behind, end, 0, now.last);
        assert(chosen(task, all, end));
        reveal_with_fuel(run_of, 2);
        assert(run_of(task, all, sheet, start, end + 1) =~= run_of(task, all, sheet, start, end)
            + record_at(task, all, sheet, end));
        assert(any_before(task, all, context, end + 1, start) == (printed > 0));
        if printed > 0 {
            assert(near(task, all, context, end + 1, start - 1) == (start == printed));
        }
        assert((if now.headed {
            Seq::<u8>::empty()
        } else {
            header_of(sheet)
        }) == if printed > 0 {
            Seq::<u8>::empty()
        } else {
            header_of(sheet)
        });
        assert(page(task, all, sheet, context, end, end) + next.bytes =~= page(
            task,
            all,
            sheet,
            context,
            end + 1,
            end + 1,
        ));
        assert(near(task, all, context, end + 1, end));
        assert forall|more: int| 0 <= more <= after implies (#[trigger] near(
            task,
            all,
            context,
            end + 1,
            end + 1 + more,
        ) <==> more < next.progress.pending) by {
            if more == after {
                assert(!near(task, all, context, end, end + 1 + more));
            }
        }
    }
    assert(near(task, all, context, end + 1, end + 1 + 0) <==> 0 < next.progress.pending);
    let kept = now.behind.len() as int;
    let held = next.progress.behind;
    assert forall|i: int| 0 <= i < held.len() implies #[trigger] held[i] == (Held {
        seen: all[end + 1 - held.len() + i],
        number: (end + 1 - held.len() + i + 1) as nat,
    }) by {
        if before > 0 {
            let shift: int = if kept >= before {
                1
            } else {
                0
            };
            if i < held.len() - 1 {
                assert(held[i] == now.behind[i + shift]);
            }
        }
    }
}

/// The page up to the last printed line stays as it was.
proof fn lemma_page_seam(
    task: Task,
    all: Seq<Seen>,
    sheet: Sheet,
    context: Context,
    end: int,
    printed: int,
)
    requires
        0 <= printed,
        forall|at: int|
            0 <= at < printed ==> #[trigger] near(task, all, context, end, at) == near(
                task,
                all,
                context,
                end + 1,
                at,
            ),
    ensures
        page(task, all, sheet, context, end, printed) == page(
            task,
            all,
            sheet,
            context,
            end + 1,
            printed,
        ),
        any_before(task, all, context, end, printed) == any_before(
            task,
            all,
            context,
            end + 1,
            printed,
        ),
    decreases printed,
{
    if printed > 0 {
        lemma_page_seam(task, all, sheet, context, end, printed - 1);
        assert(near(task, all, context, end, printed - 1) == near(
            task,
            all,
            context,
            end + 1,
            printed - 1,
        ));
        if printed == 1 {
            assert(!any_before(task, all, context, end, 0));
            assert(!any_before(task, all, context, end + 1, 0));
        } else {
            assert(near(task, all, context, end, printed - 2) == near(
                task,
                all,
                context,
                end + 1,
                printed - 2,
            ));
        }
    }
}

proof fn lemma_follows_on(
    task: Task,
    all: Seq<Seen>,
    config: OutputConfig,
    context: Context,
    end: int,
    now: Progress,
)
    requires
        task.max is None,
        task.reporting == Reporting::PrintContext(config, context),
        follows(task, all, task.sheet(config), context, end, now),
    ensures
        ({
            let sheet = task.sheet(config);
            let rest = walk(task, all.skip(end), now);
            let size = all.len() as int;
            &&& page(task, all, sheet, context, end, end) + rest.bytes == page(
                task,
                all,
                sheet,
                context,
                size,
                size,
            )
            &&& rest.progress.matches == chosen_count(task, all, size)
            &&& rest.progress.lines == size
        }),
    decreases all.len() - end,
{
    let sheet = task.sheet(config);
    let rest = all.skip(end);
    if end < all.len() {
        let next = step(task, all[end], now);
        lemma_follows_step(task, all, config, context, end, now);
        lemma_follows_on(task, all, config, context, end + 1, next.progress);
        assert(rest[0] == all[end]);
        assert(rest.drop_first() =~= all.skip(end + 1));
        let later = walk(task, all.skip(end + 1), next.progress);
        assert(page(task, all, sheet, context, end, end) + (next.bytes + later.bytes) =~= (page(
            task,
            all,
            sheet,
            context,
            end,
            end,
        ) + next.bytes) + later.bytes);
    } else {
        assert(rest =~= Seq::empty());
        assert(page(task, all, sheet, context, end, end) + Seq::<u8>::empty() =~= page(
            task,
            all,
            sheet,
            context,
            end,
            end,
        ));
    }
}

/// Where a search begins.
pub open spec fn at_the_start() -> Progress {
    Progress { matches: 0, lines: 0, headed: false, pending: 0, last: None, behind: Seq::empty() }
}

/// A search with surrounding lines and no cap prints exactly the lines that it selects, the lines at
/// most so many in front of one and at most so many behind one, each once and in order: the header
/// in front of the first, and a divider wherever lines were left out. It counts the lines it selects.
pub proof fn the_lines_around_a_match_are_printed(
    task: Task,
    all: Seq<Seen>,
    config: OutputConfig,
    context: Context,
)
    requires
        task.max is None,
        task.reporting == Reporting::PrintContext(config, context),
    ensures
        ({
            let size = all.len() as int;
            let done = walk(task, all, at_the_start());
            &&& done.bytes == page(task, all, task.sheet(config), context, size, size)
            &&& done.progress.matches == chosen_count(task, all, size)
            &&& done.progress.lines == size
        }),
{
    let sheet = task.sheet(config);
    assert(all.skip(0) =~= all);
    assert forall|at: int| !#[trigger] near(task, all, context, 0, at) by {
        reveal(near);
    }
    lemma_follows_on(task, all, config, context, 0, at_the_start());
    let done = walk(task, all, at_the_start());
    assert(Seq::<u8>::empty() + done.bytes =~= done.bytes);
}

/// The records of the lines that a search selects among the first `end`, in order.
pub open spec fn chosen_records(task: Task, all: Seq<Seen>, sheet: Sheet, end: int) -> Seq<u8>
    decreases end,
{
    if end <= 0 {
        Seq::empty()
    } else {
        chosen_records(task, all, sheet, end - 1) + if chosen(task, all, end - 1) {
            record_at(task, all, sheet, end - 1)
        } else {
            Seq::empty()
        }
    }
}

/// A search without surrounding lines and without a cap prints exactly the lines that it selects, in
/// order, behind one header where the format has one, and counts them.
pub proof fn the_selected_lines_are_printed(task: Task, all: Seq<Seen>, config: OutputConfig)
    requires
        task.max is None,
        task.reporting == Reporting::Print(config),
    ensures
        ({
            let size = all.len() as int;
            let sheet = task.sheet(config);
            let done = walk(task, all, at_the_start());
            &&& done.bytes == (if chosen_count(task, all, size) > 0 {
                header_of(sheet)
            } else {
                Seq::empty()
            }) + chosen_records(task, all, sheet, size)
            &&& done.progress.matches == chosen_count(task, all, size)
            &&& done.progress.lines == size
        }),
{
    assert(all.skip(0) =~= all);
    lemma_printed_on(task, all, config, 0, at_the_start(), Seq::empty());
    let done = walk(task, all, at_the_start());
    assert(Seq::<u8>::empty() + done.bytes =~= done.bytes);
}

proof fn lemma_printed_on(
    task: Task,
    all: Seq<Seen>,
    config: OutputConfig,
    end: int,
    now: Progress,
    written: Seq<u8>,
)
    requires
        task.max is None,
        task.reporting == Reporting::Print(config),
        0 <= end <= all.len(),
        now.lines == end,
        now.matches == chosen_count(task, all, end),
        now.headed == (task.sheet(config).opens_files() && chosen_count(task, all, end) > 0),
        written == (if chosen_count(task, all, end) > 0 {
            header_of(task.sheet(config))
        } else {
            Seq::empty()
        }) + chosen_records(task, all, task.sheet(config), end),
    ensures
        ({
            let size = all.len() as int;
            let sheet = task.sheet(config);
            let rest = walk(task, all.skip(end), now);
            &&& written + rest.bytes == (if chosen_count(task, all, size) > 0 {
                header_of(sheet)
            } else {
                Seq::empty()
            }) + chosen_records(task, all, sheet, size)
            &&& rest.progress.matches == chosen_count(task, all, size)
            &&& rest.progress.lines == size
        }),
    decreases all.len() - end,
{
    let sheet = task.sheet(config);
    let rest = all.skip(end);
    if end < all.len() {
        let next = step(task, all[end], now);
        lemma_alone(task, all, config, end, now);
        lemma_no_header(sheet);
        assert(rest[0] == all[end]);
        assert(rest.drop_first() =~= all.skip(end + 1));
        lemma_count_grows(task, all, end);
        if chosen_count(task, all, end) == 0 {
            lemma_none_recorded(task, all, sheet, end);
        }
        assert(written + next.bytes =~= (if chosen_count(task, all, end + 1) > 0 {
            header_of(sheet)
        } else {
            Seq::empty()
        }) + chosen_records(task, all, sheet, end + 1));
        lemma_printed_on(task, all, config, end + 1, next.progress, written + next.bytes);
        let later = walk(task, all.skip(end + 1), next.progress);
        assert(written + (next.bytes + later.bytes) =~= (written + next.bytes) + later.bytes);
    } else {
        assert(rest =~= Seq::empty());
        assert(written + Seq::<u8>::empty() =~= written);
    }
}

proof fn lemma_count_grows(task: Task, all: Seq<Seen>, end: int)
    requires
        0 <= end,
    ensures
        chosen_count(task, all, end + 1) == chosen_count(task, all, end) + if chosen(
            task,
            all,
            end,
        ) {
            1nat
        } else {
            0nat
        },
{
}

proof fn lemma_none_recorded(task: Task, all: Seq<Seen>, sheet: Sheet, end: int)
    requires
        chosen_count(task, all, end) == 0,
    ensures
        chosen_records(task, all, sheet, end) == Seq::<u8>::empty(),
    decreases end,
{
    if end > 0 {
        lemma_none_recorded(task, all, sheet, end - 1);
        assert(chosen_records(task, all, sheet, end) =~= Seq::empty());
    }
}

} // verus!
