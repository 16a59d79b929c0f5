//! Trimming a line leaves the same text whether or not its matches are colored.

use vstd::prelude::*;

use crate::cuts::{character_start, truncation_point};
use crate::lines::Newlines;
use crate::sz::characters;

use super::emit::{cut_of, kept_of, left_of, spans};
use super::matcher::{after_characters, continues, lemma_match_from, match_from, matches_from, Rule};

verus! {

/// Counting characters from the front.
proof fn lemma_characters_front(data: Seq<u8>)
    requires
        data.len() > 0,
    ensures
        characters(data) == characters(data.drop_first()) + if continues(data[0]) {
            0nat
        } else {
            1nat
        },
    decreases data.len(),
{
    if data.len() > 1 {
        lemma_characters_front(data.drop_last());
        assert(data.drop_last().drop_first() =~= data.drop_first().drop_last());
    } else {
        assert(data.drop_last() =~= Seq::empty());
        assert(data.drop_first() =~= Seq::empty());
    }
}

/// Walking over two runs is walking over the first and then, unless it holds enough, the second.
proof fn lemma_after_characters(one: Seq<u8>, two: Seq<u8>, at: int, left: int)
    requires
        0 <= at <= one.len(),
        0 <= left,
    ensures
        at <= after_characters(one, at, left) <= one.len(),
        after_characters(one, at, left) < one.len() ==> after_characters(one + two, at, left)
            == after_characters(one, at, left),
        after_characters(one, at, left) == one.len() ==> {
            let spent = characters(one.subrange(at, one.len() as int));
            &&& spent <= left
            &&& after_characters(one + two, at, left) == one.len() + after_characters(
                two,
                0,
                left - spent,
            )
        },
    decreases one.len() - at,
{
    let rest = one.subrange(at, one.len() as int);
    if at < one.len() {
        assert((one + two)[at] == one[at]);
        assert(rest.drop_first() =~= one.subrange(at + 1, one.len() as int));
        lemma_characters_front(rest);
        if continues(one[at]) {
            lemma_after_characters(one, two, at + 1, left);
        } else if left > 0 {
            lemma_after_characters(one, two, at + 1, left - 1);
        }
    } else {
        assert(rest =~= Seq::empty());
        lemma_after_shift(one, two, 0, left);
    }
}

/// Walking over what stands behind a run is walking over it on its own.
proof fn lemma_after_shift(one: Seq<u8>, two: Seq<u8>, at: int, left: int)
    requires
        0 <= at <= two.len(),
    ensures
        after_characters(one + two, one.len() + at, left) == one.len() + after_characters(
            two,
            at,
            left,
        ),
    decreases two.len() - at,
{
    if at < two.len() {
        assert((one + two)[one.len() + at] == two[at]);
        lemma_after_shift(one, two, at + 1, left);
        lemma_after_shift(one, two, at + 1, left - 1);
    }
}

/// The walk back from a byte limit stops in the same place of a run and of whatever holds it.
proof fn lemma_walk_back(whole: Seq<u8>, part: Seq<u8>, shift: int, end: int, floor: int, low: int)
    requires
        0 <= shift,
        shift + part.len() == whole.len(),
        part == whole.subrange(shift, whole.len() as int),
        0 <= floor <= end < part.len(),
        low <= shift + floor,
        low == shift + floor || floor == 0 && !continues(part[0]),
    ensures
        character_start(whole, shift + end, low) == shift + character_start(part, end, floor),
    decreases end,
{
    assert(part[end] == whole[shift + end]);
    if end > floor {
        if continues(part[end]) {
            lemma_walk_back(whole, part, shift, end - 1, floor, low);
        }
    } else {
        assert(part[0] == whole[shift]);
    }
}

/// The walk back stays inside the run it starts in.
proof fn lemma_same_walk_back(one: Seq<u8>, two: Seq<u8>, end: int, floor: int)
    requires
        0 <= floor <= end < one.len(),
    ensures
        character_start(one + two, end, floor) == character_start(one, end, floor),
        floor <= character_start(one, end, floor) <= end,
    decreases end,
{
    assert((one + two)[end] == one[end]);
    if end > floor {
        lemma_same_walk_back(one, two, end - 1, floor);
    }
}

proof fn lemma_start_bounds(line: Seq<u8>, end: int, floor: int)
    requires
        floor <= end,
    ensures
        floor <= character_start(line, end, floor) <= end,
    decreases end - floor,
{
    if end > floor {
        lemma_start_bounds(line, end - 1, floor);
    }
}

/// A limit keeps of two runs what it keeps of the first and then, unless the first used it up, of
/// the second. Under the byte limit the second has to start with a character.
proof fn lemma_kept_in_two(one: Seq<u8>, two: Seq<u8>, budget: Option<int>, newlines: Newlines)
    requires
        budget matches Some(limit) ==> 0 <= limit,
        newlines == Newlines::Lf && two.len() > 0 ==> !continues(two[0]),
    ensures
        cut_of(one, budget, newlines) ==> cut_of(one + two, budget, newlines) && kept_of(
            one + two,
            budget,
            newlines,
        ) == kept_of(one, budget, newlines),
        !cut_of(one, budget, newlines) ==> {
            let left = left_of(one, budget, newlines);
            &&& left matches Some(limit) ==> 0 <= limit
            &&& kept_of(one, budget, newlines) == one
            &&& cut_of(one + two, budget, newlines) == cut_of(two, left, newlines)
            &&& kept_of(one + two, budget, newlines) == one + kept_of(two, left, newlines)
        },
{
    let whole = one + two;
    match budget {
        None => {},
        Some(limit) => {
            match newlines {
                Newlines::Unicode => {
                    lemma_after_characters(one, two, 0, limit);
                    assert(one.subrange(0, one.len() as int) =~= one);
                    let kept = after_characters(one, 0, limit);
                    if kept < one.len() {
                        assert(whole.subrange(0, kept) =~= one.subrange(0, kept));
                    } else {
                        let spent = characters(one);
                        lemma_after_bounds(two, 0, limit - spent);
                        let more = after_characters(two, 0, limit - spent);
                        assert(whole.subrange(0, one.len() + more) =~= one + two.subrange(0, more));
                    }
                },
                Newlines::Lf => {
                    if limit < one.len() {
                        let floor = if limit >= 3 {
                            limit - 3
                        } else {
                            0
                        };
                        lemma_same_walk_back(one, two, limit, floor);
                        let kept = truncation_point(one, limit);
                        assert(truncation_point(whole, limit) == kept);
                        assert(whole.subrange(0, kept) =~= one.subrange(0, kept));
                    } else {
                        assert(one.subrange(0, one.len() as int) =~= one);
                        let left = limit - one.len();
                        if two.len() <= left {
                            assert(two.subrange(0, two.len() as int) =~= two);
                            assert(whole.subrange(0, whole.len() as int) =~= whole);
                        } else {
                            let floor = if left >= 3 {
                                left - 3
                            } else {
                                0
                            };
                            let low = if limit >= 3 {
                                limit - 3
                            } else {
                                0
                            };
                            assert(two =~= whole.subrange(one.len() as int, whole.len() as int));
                            lemma_walk_back(whole, two, one.len() as int, left, floor, low);
                            let kept = truncation_point(two, left);
                            lemma_start_bounds(two, left, floor);
                            assert(truncation_point(whole, limit) == one.len() + kept);
                            assert(whole.subrange(0, one.len() + kept) =~= one + two.subrange(
                                0,
                                kept,
                            ));
                        }
                    }
                },
            }
        },
    }
}

proof fn lemma_after_bounds(line: Seq<u8>, at: int, left: int)
    requires
        0 <= at <= line.len(),
    ensures
        at <= after_characters(line, at, left) <= line.len(),
    decreases line.len() - at,
{
    if at < line.len() {
        lemma_after_bounds(line, at + 1, left);
        lemma_after_bounds(line, at + 1, left - 1);
    }
}

/// Whether these matches stand one behind the other in `line`, from `from` on.
pub open spec fn in_order(line: Seq<u8>, from: int, found: Seq<(int, int)>) -> bool
    decreases found.len(),
{
    if found.len() == 0 {
        0 <= from <= line.len()
    } else {
        let (offset, length) = found[0];
        &&& 0 <= from <= offset
        &&& 0 < length
        &&& offset + length <= line.len()
        &&& in_order(line, offset + length, found.drop_first())
    }
}

/// Whether none of these matches begins or ends inside a character.
pub open spec fn on_characters(line: Seq<u8>, found: Seq<(int, int)>) -> bool
    decreases found.len(),
{
    found.len() > 0 ==> {
        let (offset, length) = found[0];
        &&& !continues(line[offset])
        &&& offset + length < line.len() ==> !continues(line[offset + length])
        &&& on_characters(line, found.drop_first())
    }
}

/// The matches of a line stand one behind the other, none of them empty, none of them overlapping.
pub proof fn matches_stand_in_order(line: Seq<u8>, rule: Rule, from: int)
    requires
        0 <= from <= line.len(),
    ensures
        in_order(line, from, matches_from(line, rule, from)),
    decreases line.len() - from,
{
    lemma_match_from(line, rule, from);
    match match_from(line, rule, from) {
        Some((offset, length)) => {
            let all = matches_from(line, rule, from);
            let later = matches_from(line, rule, offset + length);
            matches_stand_in_order(line, rule, offset + length);
            assert(all == seq![(offset, length)] + later);
            assert(all.drop_first() =~= later);
            assert(all[0] == (offset, length));
        },
        None => {},
    }
}

/// Coloring changes where a line is cut but never how much of it survives: what a limit keeps of a
/// line run by run, with nothing written around its matches, is what it keeps of the line at once.
/// Under the byte limit no match may begin or end inside a character.
pub proof fn coloring_trims_no_text(
    line: Seq<u8>,
    from: int,
    found: Seq<(int, int)>,
    budget: Option<int>,
    newlines: Newlines,
)
    requires
        in_order(line, from, found),
        newlines == Newlines::Lf ==> on_characters(line, found),
        budget matches Some(limit) ==> 0 <= limit,
    ensures
        spans(line, from, found, budget, newlines, Seq::empty(), Seq::empty()) == spans(
            line,
            from,
            Seq::empty(),
            budget,
            newlines,
            Seq::empty(),
            Seq::empty(),
        ),
    decreases found.len(),
{
    if found.len() > 0 {
        let (offset, length) = found[0];
        let none = Seq::<u8>::empty();
        let rest = line.subrange(from, line.len() as int);
        let gap = line.subrange(from, offset);
        let text = line.subrange(offset, offset + length);
        let tail = line.subrange(offset + length, line.len() as int);
        let behind = text + tail;
        assert(rest =~= gap + behind);
        assert(behind[0] == line[offset]);
        lemma_in_order_bounds(line, offset + length, found.drop_first());
        if tail.len() > 0 {
            assert(tail[0] == line[offset + length]);
        }
        lemma_kept_in_two(gap, behind, budget, newlines);
        let left = left_of(gap, budget, newlines);
        if !cut_of(gap, budget, newlines) {
            lemma_kept_in_two(text, tail, left, newlines);
            let head = kept_of(gap, budget, newlines) + none + kept_of(text, left, newlines) + none;
            assert(head =~= gap + kept_of(text, left, newlines));
            if !cut_of(text, left, newlines) {
                let last = left_of(text, left, newlines);
                coloring_trims_no_text(
                    line,
                    offset + length,
                    found.drop_first(),
                    last,
                    newlines,
                );
                assert(head + kept_of(tail, last, newlines) =~= gap + (text + kept_of(
                    tail,
                    last,
                    newlines,
                )));
            }
        }
    }
}

proof fn lemma_in_order_bounds(line: Seq<u8>, from: int, found: Seq<(int, int)>)
    requires
        in_order(line, from, found),
    ensures
        0 <= from <= line.len(),
    decreases found.len(),
{
}

/// Whether the limit cuts a line does not depend on the codes written around its matches.
pub proof fn codes_cut_no_line(
    line: Seq<u8>,
    from: int,
    found: Seq<(int, int)>,
    budget: Option<int>,
    newlines: Newlines,
    start: Seq<u8>,
    stop: Seq<u8>,
)
    ensures
        spans(line, from, found, budget, newlines, start, stop).1 == spans(
            line,
            from,
            found,
            budget,
            newlines,
            Seq::empty(),
            Seq::empty(),
        ).1,
    decreases found.len(),
{
    if found.len() > 0 {
        let (offset, length) = found[0];
        let left = left_of(line.subrange(from, offset), budget, newlines);
        let last = left_of(line.subrange(offset, offset + length), left, newlines);
        codes_cut_no_line(
            line,
            offset + length,
            found.drop_first(),
            last,
            newlines,
            start,
            stop,
        );
    }
}

} // verus!
