//! What deduplication keeps of its input.

use vstd::prelude::*;

use crate::json::Terminator;
use crate::lines::{
    joined, lemma_break_is, lemma_lines_chain, lemma_lines_step, lemma_next_break, line_at, lines,
    lines_reproduce_the_input, newline_at, Line, Newlines,
};
use crate::sz::folded;

use super::lines::{
    deduplicated, key_of, newlines_for, survivors, unique_lines, written, Rendering,
};

verus! {

/// What a line of `data` is told apart by.
pub open spec fn line_key(data: Seq<u8>, line: Line, ignore_case: bool) -> Seq<u8> {
    key_of(line.as_cut(data), ignore_case)
}

/// Whether the line at `at` differs from every line before it.
pub open spec fn occurs_first(data: Seq<u8>, all: Seq<Line>, at: int, ignore_case: bool) -> bool {
    forall|earlier: int|
        0 <= earlier < at ==> line_key(data, #[trigger] all[earlier], ignore_case) != line_key(
            data,
            all[at],
            ignore_case,
        )
}

/// Whether each of these lines ends before the next begins.
pub open spec fn apart(all: Seq<Line>) -> bool {
    forall|i: int, j: int|
        #![trigger all[i], all[j]]
        0 <= i < j < all.len() ==> all[i].end <= all[j].start
}

/// Whether no two of these lines are the same.
pub open spec fn distinct(data: Seq<u8>, all: Seq<Line>, ignore_case: bool) -> bool {
    forall|i: int, j: int|
        #![trigger all[i], all[j]]
        0 <= i < j < all.len() ==> line_key(data, all[i], ignore_case) != line_key(
            data,
            all[j],
            ignore_case,
        )
}

/// Whether one of these lines has this key.
pub open spec fn has_like(
    data: Seq<u8>,
    all: Seq<Line>,
    ignore_case: bool,
    key: Seq<u8>,
) -> bool {
    exists|i: int| 0 <= i < all.len() && line_key(data, #[trigger] all[i], ignore_case) == key
}

/// Whether `line` is one of these lines, and the first of its like.
pub open spec fn is_first(data: Seq<u8>, all: Seq<Line>, ignore_case: bool, line: Line) -> bool {
    exists|i: int|
        0 <= i < all.len() && #[trigger] all[i] == line && occurs_first(data, all, i, ignore_case)
}

proof fn lemma_survivor_is_first(
    data: Seq<u8>,
    all: Seq<Line>,
    seen: Set<Seq<u8>>,
    ignore_case: bool,
    at: int,
)
    requires
        0 <= at < survivors(data, all, seen, ignore_case).len(),
    ensures
        is_first(data, all, ignore_case, survivors(data, all, seen, ignore_case)[at]),
        !seen.contains(
            line_key(data, survivors(data, all, seen, ignore_case)[at], ignore_case),
        ),
    decreases all.len(),
{
    let kept = survivors(data, all, seen, ignore_case);
    let key = line_key(data, all[0], ignore_case);
    let rest = all.drop_first();
    let line = kept[at];
    if !seen.contains(key) && at == 0 {
        assert(occurs_first(data, all, 0, ignore_case));
        assert(all[0] == line);
    } else {
        let own = line_key(data, line, ignore_case);
        if seen.contains(key) {
            lemma_survivor_is_first(data, rest, seen, ignore_case, at);
        } else {
            assert(line == survivors(data, rest, seen.insert(key), ignore_case)[at - 1]);
            lemma_survivor_is_first(data, rest, seen.insert(key), ignore_case, at - 1);
        }
        assert(own != key);
        let i = choose|i: int|
            0 <= i < rest.len() && #[trigger] rest[i] == line && occurs_first(
                data,
                rest,
                i,
                ignore_case,
            );
        assert(all[i + 1] == line);
        assert forall|earlier: int| 0 <= earlier < i + 1 implies line_key(
            data,
            #[trigger] all[earlier],
            ignore_case,
        ) != own by {
            if earlier > 0 {
                assert(rest[earlier - 1] == all[earlier]);
            }
        }
        assert(occurs_first(data, all, i + 1, ignore_case));
    }
}

proof fn lemma_survivors_differ(
    data: Seq<u8>,
    all: Seq<Line>,
    seen: Set<Seq<u8>>,
    ignore_case: bool,
)
    requires
        apart(all),
    ensures
        apart(survivors(data, all, seen, ignore_case)),
        distinct(data, survivors(data, all, seen, ignore_case), ignore_case),
    decreases all.len(),
{
    if all.len() > 0 {
        let kept = survivors(data, all, seen, ignore_case);
        let key = line_key(data, all[0], ignore_case);
        let rest = all.drop_first();
        assert forall|i: int, j: int|
            #![trigger rest[i], rest[j]]
            0 <= i < j < rest.len() implies rest[i].end <= rest[j].start by {
            assert(rest[i] == all[i + 1] && rest[j] == all[j + 1]);
        }
        if seen.contains(key) {
            lemma_survivors_differ(data, rest, seen, ignore_case);
        } else {
            let later = survivors(data, rest, seen.insert(key), ignore_case);
            lemma_survivors_differ(data, rest, seen.insert(key), ignore_case);
            assert forall|i: int, j: int|
                #![trigger kept[i], kept[j]]
                0 <= i < j < kept.len() implies line_key(data, kept[i], ignore_case) != line_key(
                data,
                kept[j],
                ignore_case,
            ) && kept[i].end <= kept[j].start by {
                assert(kept[j] == later[j - 1]);
                if i > 0 {
                    assert(kept[i] == later[i - 1]);
                } else {
                    lemma_survivor_is_first(data, rest, seen.insert(key), ignore_case, j - 1);
                    let at = choose|at: int|
                        0 <= at < rest.len() && #[trigger] rest[at] == later[j - 1];
                    assert(rest[at] == all[at + 1]);
                }
            }
        }
    }
}

proof fn lemma_survivors_cover(
    data: Seq<u8>,
    all: Seq<Line>,
    seen: Set<Seq<u8>>,
    ignore_case: bool,
    at: int,
)
    requires
        0 <= at < all.len(),
        !seen.contains(line_key(data, all[at], ignore_case)),
    ensures
        has_like(
            data,
            survivors(data, all, seen, ignore_case),
            ignore_case,
            line_key(data, all[at], ignore_case),
        ),
    decreases all.len(),
{
    let kept = survivors(data, all, seen, ignore_case);
    let key = line_key(data, all[0], ignore_case);
    let own = line_key(data, all[at], ignore_case);
    let rest = all.drop_first();
    if own == key {
        assert(kept[0] == all[0]);
    } else {
        assert(rest[at - 1] == all[at]);
        if seen.contains(key) {
            lemma_survivors_cover(data, rest, seen, ignore_case, at - 1);
        } else {
            lemma_survivors_cover(data, rest, seen.insert(key), ignore_case, at - 1);
            let later = survivors(data, rest, seen.insert(key), ignore_case);
            let i = choose|i: int|
                0 <= i < later.len() && line_key(data, #[trigger] later[i], ignore_case) == own;
            assert(kept[i + 1] == later[i]);
        }
    }
}

proof fn lemma_lines_apart(data: Seq<u8>, from: int, newlines: Newlines)
    requires
        0 <= from <= data.len(),
    ensures
        apart(lines(data, from, newlines)),
    decreases data.len() - from,
{
    if from < data.len() {
        lemma_lines_step(data, from, newlines);
        let all = lines(data, from, newlines);
        let next = line_at(data, from, newlines).end;
        let rest = lines(data, next, newlines);
        lemma_lines_apart(data, next, newlines);
        lemma_lines_chain(data, next, newlines);
        assert forall|i: int, j: int|
            #![trigger all[i], all[j]]
            0 <= i < j < all.len() implies all[i].end <= all[j].start by {
            assert(all[j] == rest[j - 1]);
            if i > 0 {
                assert(all[i] == rest[i - 1]);
            }
        }
    }
}

/// Deduplication keeps the first occurrence of each line: every line that is kept differs from
/// all lines before it in the input, no two lines that are kept are the same, every line of the
/// input has its like among them, and they stay in order.
pub proof fn the_first_of_each_line_survives(data: Seq<u8>, ignore_case: bool, utf8: bool)
    ensures
        ({
            let all = lines(data, 0, newlines_for(utf8));
            let kept = unique_lines(data, ignore_case, utf8);
            &&& apart(kept)
            &&& distinct(data, kept, ignore_case)
            &&& forall|k: int|
                0 <= k < kept.len() ==> is_first(data, all, ignore_case, #[trigger] kept[k])
            &&& forall|i: int|
                0 <= i < all.len() ==> has_like(
                    data,
                    kept,
                    ignore_case,
                    line_key(data, #[trigger] all[i], ignore_case),
                )
        }),
{
    let all = lines(data, 0, newlines_for(utf8));
    let kept = unique_lines(data, ignore_case, utf8);
    lemma_lines_apart(data, 0, newlines_for(utf8));
    lemma_survivors_differ(data, all, Set::empty(), ignore_case);
    assert forall|k: int| 0 <= k < kept.len() implies is_first(
        data,
        all,
        ignore_case,
        #[trigger] kept[k],
    ) by {
        lemma_survivor_is_first(data, all, Set::empty(), ignore_case, k);
    }
    assert forall|i: int| 0 <= i < all.len() implies has_like(
        data,
        kept,
        ignore_case,
        line_key(data, #[trigger] all[i], ignore_case),
    ) by {
        lemma_survivors_cover(data, all, Set::empty(), ignore_case, i);
    }
}

/// Lines written as they appeared, one behind the other.
proof fn lemma_written_verbatim(data: Seq<u8>, kept: Seq<Line>, path: Seq<char>, index: nat)
    ensures
        written(data, kept, Rendering::Verbatim, path, index) == joined(data, kept),
    decreases kept.len(),
{
    if kept.len() > 0 {
        lemma_written_verbatim(data, kept.drop_first(), path, index + 1);
    }
}

/// Lines that differ from each other all survive.
proof fn lemma_distinct_survive(
    data: Seq<u8>,
    all: Seq<Line>,
    seen: Set<Seq<u8>>,
    ignore_case: bool,
)
    requires
        distinct(data, all, ignore_case),
        forall|k: int|
            0 <= k < all.len() ==> !seen.contains(line_key(data, #[trigger] all[k], ignore_case)),
    ensures
        survivors(data, all, seen, ignore_case) == all,
    decreases all.len(),
{
    if all.len() > 0 {
        let rest = all.drop_first();
        assert(!seen.contains(line_key(data, all[0], ignore_case)));
        assert forall|k: int| 0 <= k < rest.len() implies !seen.insert(
            line_key(data, all[0], ignore_case),
        ).contains(line_key(data, #[trigger] rest[k], ignore_case)) by {
            assert(rest[k] == all[k + 1]);
        }
        assert forall|k: int, l: int|
            #![trigger rest[k], rest[l]]
            0 <= k < l < rest.len() implies line_key(data, rest[k], ignore_case) != line_key(
            data,
            rest[l],
            ignore_case,
        ) by {
            assert(rest[k] == all[k + 1] && rest[l] == all[l + 1]);
        }
        lemma_distinct_survive(
            data,
            rest,
            seen.insert(line_key(data, all[0], ignore_case)),
            ignore_case,
        );
        assert(seq![all[0]] + rest =~= all);
    }
}

/// Reading back the lines that were written one behind the other.
proof fn lemma_lines_read_back(data: Seq<u8>, kept: Seq<Line>, out: Seq<u8>, from: int)
    requires
        apart(kept),
        forall|k: int|
            #![trigger kept[k]]
            0 <= k < kept.len() ==> 0 <= kept[k].start < data.len() && kept[k] == line_at(
                data,
                kept[k].start,
                Newlines::Lf,
            ),
        0 <= from <= out.len(),
        out.subrange(from, out.len() as int) == joined(data, kept),
    ensures
        lines(out, from, Newlines::Lf).len() == kept.len(),
        forall|k: int|
            #![trigger lines(out, from, Newlines::Lf)[k]]
            0 <= k < kept.len() ==> lines(out, from, Newlines::Lf)[k].as_cut(out)
                == kept[k].as_cut(data),
    decreases kept.len(),
{
    let tail = out.subrange(from, out.len() as int);
    if kept.len() > 0 {
        let line = kept[0];
        let whole = line.whole(data);
        let rest = kept.drop_first();
        lemma_next_break(data, line.start, Newlines::Lf);
        let after = from + whole.len();
        assert(whole.len() == line.end - line.start);
        assert(tail == whole + joined(data, rest));
        assert forall|at: int| 0 <= at < whole.len() implies out[from + at] == #[trigger] data[line.start
            + at] by {
            assert(tail[at] == whole[at]);
            assert(tail[at] == out[from + at]);
        }
        let cut = from + (line.cut - line.start);
        if line.cut == data.len() {
            if rest.len() > 0 {
                assert(kept[1].start >= kept[0].end);
            }
            assert(rest.len() == 0);
            assert(after == out.len());
        } else {
            assert(out[cut] == data[line.start + (line.cut - line.start)]);
        }
        assert forall|earlier: int| from <= earlier < cut implies newline_at(
            out,
            earlier,
            Newlines::Lf,
        ) == 0 by {
            assert(out[from + (earlier - from)] == data[line.start + (earlier - from)]);
            assert(newline_at(data, line.start + (earlier - from), Newlines::Lf) == 0);
        }
        lemma_break_is(out, from, Newlines::Lf, cut);
        assert(line_at(out, from, Newlines::Lf).end == after);
        assert(line_at(out, from, Newlines::Lf).as_cut(out) =~= line.as_cut(data)) by {
            assert forall|at: int| 0 <= at < line.cut - line.start implies out.subrange(
                from,
                cut,
            )[at] == data.subrange(line.start, line.cut)[at] by {
                assert(out[from + at] == data[line.start + at]);
            }
        }
        assert(out.subrange(after, out.len() as int) =~= joined(data, rest)) by {
            assert(out.subrange(after, out.len() as int) =~= tail.subrange(
                whole.len() as int,
                tail.len() as int,
            ));
            assert((whole + joined(data, rest)).subrange(whole.len() as int, tail.len() as int)
                =~= joined(data, rest));
        }
        assert forall|k: int|
            #![trigger rest[k]]
            0 <= k < rest.len() implies 0 <= rest[k].start < data.len() && rest[k] == line_at(
            data,
            rest[k].start,
            Newlines::Lf,
        ) by {
            assert(rest[k] == kept[k + 1]);
        }
        assert forall|i: int, j: int|
            #![trigger rest[i], rest[j]]
            0 <= i < j < rest.len() implies rest[i].end <= rest[j].start by {
            assert(rest[i] == kept[i + 1] && rest[j] == kept[j + 1]);
        }
        lemma_lines_read_back(data, rest, out, after);
        lemma_lines_step(out, from, Newlines::Lf);
        let all = lines(out, from, Newlines::Lf);
        assert forall|k: int| #![trigger all[k]] 0 <= k < kept.len() implies all[k].as_cut(out)
            == kept[k].as_cut(data) by {
            if k > 0 {
                assert(all[k] == lines(out, after, Newlines::Lf)[k - 1]);
                assert(rest[k - 1] == kept[k]);
            }
        }
    } else {
        assert(tail.len() == 0);
    }
}

/// Whether the lines of `out` are these lines of `data`, in order and text for text.
pub open spec fn keeps_the_texts(
    out: Seq<u8>,
    data: Seq<u8>,
    kept: Seq<Line>,
    newlines: Newlines,
) -> bool {
    &&& lines(out, 0, newlines).len() == kept.len()
    &&& forall|k: int|
        #![trigger kept[k]]
        0 <= k < kept.len() ==> lines(out, 0, newlines)[k].as_cut(out) == kept[k].as_cut(data)
}

/// A rewritten file holds the first occurrence of each line and nothing else, and rewriting it again
/// changes nothing and finds no duplicate, so that its total is what was unique. Stated for lines
/// that end in LF alone: under the Unicode newline set, dropping a line can bring a CR and an
/// LF together, which are one terminator from then on.
pub proof fn deduplicating_twice_changes_nothing(
    data: Seq<u8>,
    ignore_case: bool,
    path: Seq<char>,
)
    ensures
        ({
            let once = deduplicated(data, ignore_case, false, Rendering::Verbatim, path);
            &&& deduplicated(once, ignore_case, false, Rendering::Verbatim, path) == once
            &&& unique_lines(once, ignore_case, false) == lines(once, 0, Newlines::Lf)
            &&& keeps_the_texts(once, data, unique_lines(data, ignore_case, false), Newlines::Lf)
        }),
{
    let kept = unique_lines(data, ignore_case, false);
    let once = deduplicated(data, ignore_case, false, Rendering::Verbatim, path);
    the_first_of_each_line_survives(data, ignore_case, false);
    lemma_written_verbatim(data, kept, path, 0);
    assert(once =~= joined(data, kept));
    assert(once.subrange(0, once.len() as int) =~= once);
    let all = lines(data, 0, Newlines::Lf);
    assert forall|k: int| #![trigger kept[k]] 0 <= k < kept.len() implies 0 <= kept[k].start
        < data.len() && kept[k] == line_at(data, kept[k].start, Newlines::Lf) by {
        assert(is_first(data, all, ignore_case, kept[k]));
        let i = choose|i: int| 0 <= i < all.len() && #[trigger] all[i] == kept[k];
        lemma_lines_chain(data, 0, Newlines::Lf);
        assert(all[i] == kept[k]);
    }
    lemma_lines_read_back(data, kept, once, 0);
    let again = lines(once, 0, Newlines::Lf);
    assert(distinct(once, again, ignore_case)) by {
        assert forall|k: int, l: int|
            #![trigger again[k], again[l]]
            0 <= k < l < again.len() implies line_key(once, again[k], ignore_case) != line_key(
            once,
            again[l],
            ignore_case,
        ) by {
            assert(again[k].as_cut(once) == kept[k].as_cut(data));
            assert(again[l].as_cut(once) == kept[l].as_cut(data));
        }
    }
    lemma_distinct_survive(once, again, Set::empty(), ignore_case);
    lemma_written_verbatim(once, again, path, 0);
    lines_reproduce_the_input(once, Newlines::Lf);
    assert(joined(once, again) + Seq::<u8>::empty() =~= once);
}

/// Reading back the lines that were each written with an LF behind it.
proof fn lemma_terminated_read_back(
    data: Seq<u8>,
    kept: Seq<Line>,
    newlines: Newlines,
    path: Seq<char>,
    index: nat,
    out: Seq<u8>,
    from: int,
)
    requires
        forall|k: int|
            #![trigger kept[k]]
            0 <= k < kept.len() ==> 0 <= kept[k].start < data.len() && kept[k] == line_at(
                data,
                kept[k].start,
                newlines,
            ),
        0 <= from <= out.len(),
        out.subrange(from, out.len() as int) == written(
            data,
            kept,
            Rendering::Terminated(Terminator::Newline),
            path,
            index,
        ),
    ensures
        lines(out, from, newlines).len() == kept.len(),
        forall|k: int|
            #![trigger lines(out, from, newlines)[k]]
            0 <= k < kept.len() ==> lines(out, from, newlines)[k].as_cut(out) == kept[k].as_cut(
                data,
            ),
    decreases kept.len(),
{
    let rendering = Rendering::Terminated(Terminator::Newline);
    let tail = out.subrange(from, out.len() as int);
    if kept.len() > 0 {
        let line = kept[0];
        let text = line.as_cut(data);
        let rest = kept.drop_first();
        let later = written(data, rest, rendering, path, index + 1);
        lemma_next_break(data, line.start, newlines);
        let cut = from + text.len();
        assert(tail == text + seq![0x0Au8] + later);
        assert forall|at: int| 0 <= at < text.len() implies out[from + at] == #[trigger] data[line.start
            + at] by {
            assert(tail[at] == text[at]);
            assert(tail[at] == out[from + at]);
        }
        assert(out[cut] == 0x0A) by {
            assert(tail[text.len() as int] == 0x0A);
        }
        assert forall|earlier: int| from <= earlier < cut implies newline_at(
            out,
            earlier,
            newlines,
        ) == 0 by {
            let at = earlier - from;
            assert(out[from + at] == data[line.start + at]);
            if at + 1 < text.len() {
                assert(out[from + (at + 1)] == data[line.start + (at + 1)]);
            }
            if at + 2 < text.len() {
                assert(out[from + (at + 2)] == data[line.start + (at + 2)]);
            }
            assert(newline_at(data, line.start + at, newlines) == 0);
        }
        lemma_break_is(out, from, newlines, cut);
        assert(line_at(out, from, newlines).end == cut + 1);
        assert(line_at(out, from, newlines).as_cut(out) =~= text) by {
            assert forall|at: int| 0 <= at < text.len() implies out.subrange(from, cut)[at]
                == text[at] by {
                assert(out[from + at] == data[line.start + at]);
            }
        }
        assert(out.subrange(cut + 1, out.len() as int) =~= later) by {
            assert(out.subrange(cut + 1, out.len() as int) =~= tail.subrange(
                text.len() as int + 1,
                tail.len() as int,
            ));
        }
        assert forall|k: int|
            #![trigger rest[k]]
            0 <= k < rest.len() implies 0 <= rest[k].start < data.len() && rest[k] == line_at(
            data,
            rest[k].start,
            newlines,
        ) by {
            assert(rest[k] == kept[k + 1]);
        }
        lemma_terminated_read_back(data, rest, newlines, path, index + 1, out, cut + 1);
        lemma_lines_step(out, from, newlines);
        let all = lines(out, from, newlines);
        assert forall|k: int| #![trigger all[k]] 0 <= k < kept.len() implies all[k].as_cut(out)
            == kept[k].as_cut(data) by {
            if k > 0 {
                assert(all[k] == lines(out, cut + 1, newlines)[k - 1]);
                assert(rest[k - 1] == kept[k]);
            }
        }
    } else {
        assert(tail.len() == 0);
    }
}

/// What is written with terminators of its own depends on the lines' text alone.
proof fn lemma_terminated_alike(
    one: Seq<u8>,
    first: Seq<Line>,
    two: Seq<u8>,
    second: Seq<Line>,
    path: Seq<char>,
    index: nat,
)
    requires
        first.len() == second.len(),
        forall|k: int|
            #![trigger first[k]]
            0 <= k < first.len() ==> first[k].as_cut(one) == second[k].as_cut(two),
    ensures
        ({
            let rendering = Rendering::Terminated(Terminator::Newline);
            written(one, first, rendering, path, index) == written(
                two,
                second,
                rendering,
                path,
                index,
            )
        }),
    decreases first.len(),
{
    if first.len() > 0 {
        assert(first[0].as_cut(one) == second[0].as_cut(two));
        let later = first.drop_first();
        assert forall|k: int| #![trigger later[k]] 0 <= k < later.len() implies later[k].as_cut(one)
            == second.drop_first()[k].as_cut(two) by {
            assert(later[k] == first[k + 1]);
        }
        lemma_terminated_alike(one, later, two, second.drop_first(), path, index + 1);
    }
}

/// What a run prints with a newline behind each line is the first occurrence of each line and nothing
/// else, and deduplicating it again changes nothing and finds no duplicate, so that its total is what
/// was unique, under either newline set.
pub proof fn deduplicating_printed_lines_changes_nothing(
    data: Seq<u8>,
    ignore_case: bool,
    utf8: bool,
    path: Seq<char>,
)
    ensures
        ({
            let rendering = Rendering::Terminated(Terminator::Newline);
            let once = deduplicated(data, ignore_case, utf8, rendering, path);
            &&& deduplicated(once, ignore_case, utf8, rendering, path) == once
            &&& unique_lines(once, ignore_case, utf8) == lines(once, 0, newlines_for(utf8))
            &&& keeps_the_texts(
                once,
                data,
                unique_lines(data, ignore_case, utf8),
                newlines_for(utf8),
            )
        }),
{
    let newlines = newlines_for(utf8);
    let rendering = Rendering::Terminated(Terminator::Newline);
    let kept = unique_lines(data, ignore_case, utf8);
    let once = deduplicated(data, ignore_case, utf8, rendering, path);
    the_first_of_each_line_survives(data, ignore_case, utf8);
    assert(once =~= written(data, kept, rendering, path, 0));
    assert(once.subrange(0, once.len() as int) =~= once);
    let all = lines(data, 0, newlines);
    assert forall|k: int| #![trigger kept[k]] 0 <= k < kept.len() implies 0 <= kept[k].start
        < data.len() && kept[k] == line_at(data, kept[k].start, newlines) by {
        assert(is_first(data, all, ignore_case, kept[k]));
        let i = choose|i: int| 0 <= i < all.len() && #[trigger] all[i] == kept[k];
        lemma_lines_chain(data, 0, newlines);
        assert(all[i] == kept[k]);
    }
    lemma_terminated_read_back(data, kept, newlines, path, 0, once, 0);
    let again = lines(once, 0, newlines);
    assert(distinct(once, again, ignore_case)) by {
        assert forall|k: int, l: int|
            #![trigger again[k], again[l]]
            0 <= k < l < again.len() implies line_key(once, again[k], ignore_case) != line_key(
            once,
            again[l],
            ignore_case,
        ) by {
            assert(again[k].as_cut(once) == kept[k].as_cut(data));
            assert(again[l].as_cut(once) == kept[l].as_cut(data));
        }
    }
    lemma_distinct_survive(once, again, Set::empty(), ignore_case);
    lemma_terminated_alike(once, again, data, kept, path, 0);
    assert(deduplicated(once, ignore_case, utf8, rendering, path) =~= written(
        once,
        again,
        rendering,
        path,
        0,
    ));
}

/// What each of these lines is told apart by.
pub open spec fn keys_of(data: Seq<u8>, all: Seq<Line>, ignore_case: bool) -> Seq<Seq<u8>> {
    all.map_values(|line: Line| line_key(data, line, ignore_case))
}

/// The texts of these lines, each with a line feed behind it.
pub open spec fn ended_by_feeds(data: Seq<u8>, all: Seq<Line>) -> Seq<u8>
    decreases all.len(),
{
    if all.len() == 0 {
        Seq::empty()
    } else {
        all[0].as_cut(data).push(0x0A) + ended_by_feeds(data, all.drop_first())
    }
}

/// As many lines are kept as there are different ones.
proof fn lemma_kept_are_the_different(data: Seq<u8>, ignore_case: bool, utf8: bool)
    ensures
        unique_lines(data, ignore_case, utf8).len() == keys_of(
            data,
            lines(data, 0, newlines_for(utf8)),
            ignore_case,
        ).to_set().len(),
{
    let all = lines(data, 0, newlines_for(utf8));
    let kept = unique_lines(data, ignore_case, utf8);
    let every = keys_of(data, all, ignore_case);
    let once = keys_of(data, kept, ignore_case);
    the_first_of_each_line_survives(data, ignore_case, utf8);
    assert forall|i: int, j: int|
        0 <= i < once.len() && 0 <= j < once.len() && i != j implies once[i] != once[j] by {
        if i < j {
            assert(line_key(data, kept[i], ignore_case) != line_key(data, kept[j], ignore_case));
        } else {
            assert(line_key(data, kept[j], ignore_case) != line_key(data, kept[i], ignore_case));
        }
    }
    once.unique_seq_to_set();
    assert forall|key: Seq<u8>| once.to_set().contains(key) == every.to_set().contains(key) by {
        if once.contains(key) {
            let k = choose|k: int| 0 <= k < once.len() && once[k] == key;
            assert(is_first(data, all, ignore_case, kept[k]));
            let i = choose|i: int| 0 <= i < all.len() && #[trigger] all[i] == kept[k];
            assert(every[i] == key);
        }
        if every.contains(key) {
            let i = choose|i: int| 0 <= i < every.len() && every[i] == key;
            assert(has_like(data, kept, ignore_case, line_key(data, all[i], ignore_case)));
            let k = choose|k: int|
                0 <= k < kept.len() && line_key(data, #[trigger] kept[k], ignore_case) == key;
            assert(once[k] == key);
        }
    }
    assert(once.to_set() =~= every.to_set());
}

proof fn lemma_written_by_feeds(data: Seq<u8>, kept: Seq<Line>, path: Seq<char>, index: nat)
    ensures
        written(data, kept, Rendering::Terminated(Terminator::Newline), path, index)
            == ended_by_feeds(data, kept),
    decreases kept.len(),
{
    if kept.len() > 0 {
        let text = kept[0].as_cut(data);
        assert(text + seq![Terminator::Newline.byte()] =~= text.push(0x0A));
        lemma_written_by_feeds(data, kept.drop_first(), path, index + 1);
    }
}

/// Printing with a newline behind each line prints the first occurrence of each different line, in
/// the order of the input, each with one line feed behind it, and counts as many as there are
/// different lines. Running on what was printed prints it again, and its total is what was unique.
pub proof fn each_different_line_is_printed_once(
    data: Seq<u8>,
    ignore_case: bool,
    utf8: bool,
    path: Seq<char>,
)
    ensures
        ({
            let rendering = Rendering::Terminated(Terminator::Newline);
            let all = lines(data, 0, newlines_for(utf8));
            let kept = unique_lines(data, ignore_case, utf8);
            let once = deduplicated(data, ignore_case, utf8, rendering, path);
            &&& once == ended_by_feeds(data, kept)
            &&& kept.len() == keys_of(data, all, ignore_case).to_set().len()
            &&& apart(kept)
            &&& forall|k: int|
                0 <= k < kept.len() ==> is_first(data, all, ignore_case, #[trigger] kept[k])
            &&& deduplicated(once, ignore_case, utf8, rendering, path) == once
            &&& lines(once, 0, newlines_for(utf8)).len() == kept.len()
            &&& unique_lines(once, ignore_case, utf8).len() == kept.len()
        }),
{
    let kept = unique_lines(data, ignore_case, utf8);
    the_first_of_each_line_survives(data, ignore_case, utf8);
    lemma_kept_are_the_different(data, ignore_case, utf8);
    lemma_written_by_feeds(data, kept, path, 0);
    assert(ended_by_feeds(data, kept) + Seq::<u8>::empty() =~= ended_by_feeds(data, kept));
    deduplicating_printed_lines_changes_nothing(data, ignore_case, utf8, path);
}

/// Whether the text of the line at `at` is the same bytes as that of an earlier line, or, where case
/// is ignored, folds to the same bytes.
pub open spec fn seen_before(data: Seq<u8>, all: Seq<Line>, at: int, ignore_case: bool) -> bool {
    exists|earlier: int|
        0 <= earlier < at && same_text(
            data,
            #[trigger] all[earlier],
            all[at],
            ignore_case,
        )
}

/// Whether two lines of `data` hold the same bytes between their start and their terminator, or,
/// where case is ignored, bytes that fold alike.
pub open spec fn same_text(data: Seq<u8>, one: Line, two: Line, ignore_case: bool) -> bool {
    let left = data.subrange(one.start, one.cut);
    let right = data.subrange(two.start, two.cut);
    if ignore_case {
        folded(left) == folded(right)
    } else {
        left =~= right
    }
}

/// A line is kept exactly where no earlier line holds the same bytes; only where case is ignored do
/// lines count as the same whose bytes differ, and then exactly those that fold alike.
pub proof fn only_the_same_bytes_are_dropped(data: Seq<u8>, ignore_case: bool, utf8: bool, at: int)
    requires
        0 <= at < lines(data, 0, newlines_for(utf8)).len(),
    ensures
        ({
            let all = lines(data, 0, newlines_for(utf8));
            let kept = unique_lines(data, ignore_case, utf8);
            kept.contains(all[at]) <==> !seen_before(data, all, at, ignore_case)
        }),
{
    let all = lines(data, 0, newlines_for(utf8));
    let kept = unique_lines(data, ignore_case, utf8);
    the_first_of_each_line_survives(data, ignore_case, utf8);
    lemma_lines_apart(data, 0, newlines_for(utf8));
    lemma_lines_chain(data, 0, newlines_for(utf8));
    if kept.contains(all[at]) {
        let k = choose|k: int| 0 <= k < kept.len() && kept[k] == all[at];
        assert(is_first(data, all, ignore_case, kept[k]));
        let i = choose|i: int|
            0 <= i < all.len() && #[trigger] all[i] == kept[k] && occurs_first(
                data,
                all,
                i,
                ignore_case,
            );
        assert(all[i].start == all[at].start);
        if i < at {
            assert(all[i].end <= all[at].start);
        }
        if at < i {
            assert(all[at].end <= all[i].start);
        }
        assert forall|earlier: int| 0 <= earlier < at implies !same_text(
            data,
            #[trigger] all[earlier],
            all[at],
            ignore_case,
        ) by {
            assert(line_key(data, all[earlier], ignore_case) != line_key(
                data,
                all[at],
                ignore_case,
            ));
        }
    } else {
        assert(has_like(data, kept, ignore_case, line_key(data, all[at], ignore_case)));
        let k = choose|k: int|
            0 <= k < kept.len() && line_key(data, #[trigger] kept[k], ignore_case) == line_key(
                data,
                all[at],
                ignore_case,
            );
        assert(is_first(data, all, ignore_case, kept[k]));
        let i = choose|i: int|
            0 <= i < all.len() && #[trigger] all[i] == kept[k] && occurs_first(
                data,
                all,
                i,
                ignore_case,
            );
        assert(kept.contains(kept[k]));
        assert(i != at);
        if at < i {
            assert(line_key(data, all[at], ignore_case) != line_key(data, all[i], ignore_case));
        }
        assert(same_text(data, all[i], all[at], ignore_case));
    }
}

} // verus!
