//! Whole walks over an input: what a caller of [`crate::windows::Refill`] sees that fills the window
//! whenever it is asked to, and consumes every window it is handed.

use vstd::prelude::*;

use crate::cols::extract::{line_texts, line_texts_join};
use crate::cuts::{cut_for, lemma_cut_is_a_boundary, lemma_cut_point, CutAfter};
use crate::lines::Newlines;
use crate::windows::{offered, Offer, Refill};

verus! {

/// Where a walk over an input stands: how many bytes were consumed, how many are in view behind
/// them, how wide the window is, and whether the end of the input was reported.
pub ghost struct Standing {
    pub passed: int,
    pub seen: int,
    pub size: usize,
    pub ended: bool,
}

impl Standing {
    /// The bytes in view.
    pub open spec fn in_view(self, input: Seq<u8>) -> Seq<u8> {
        input.subrange(self.passed, self.passed + self.seen)
    }

    /// What the walk is offered next.
    pub open spec fn offer(self, input: Seq<u8>, cut: CutAfter) -> Offer {
        offered(self.in_view(input), self.size, self.ended, cut)
    }

    /// How many ends of the input are still to be reported.
    pub open spec fn ends_to_report(self) -> int {
        if self.ended {
            0
        } else {
            1
        }
    }

    /// Whether a walk over `input` can stand here: what is in view fits the window and is part of
    /// the input, and reaches its end where the end was reported.
    pub open spec fn possible(self, input: Seq<u8>) -> bool {
        &&& 0 <= self.passed
        &&& 0 <= self.seen <= self.size
        &&& 0 < self.size
        &&& self.passed + self.seen <= input.len()
        &&& self.ended ==> self.passed + self.seen == input.len()
    }
}

impl Refill {
    /// Where a walk stands that this window is part of.
    pub open spec fn standing(&self) -> Standing {
        Standing {
            passed: self.passed().len() as int,
            seen: self.in_view().len() as int,
            size: self.size(),
            ended: self.ended(),
        }
    }
}

/// A window stands in the input that it reads, and is offered what its standing is offered: what
/// [`Refill::offer`] answers is a step of a walk, which a read through [`Refill::supply`], the wider
/// window, or [`Refill::advance`] by the whole window completes.
pub proof fn a_window_stands_in_its_input(refill: Refill, more: Seq<u8>, cut: CutAfter)
    requires
        refill.wf(),
        refill.ended() ==> more.len() == 0,
    ensures
        ({
            let input = refill.read() + more;
            &&& refill.standing().possible(input)
            &&& refill.standing().in_view(input) == refill.in_view()
            &&& refill.standing().offer(input, cut) == offered(
                refill.in_view(),
                refill.size(),
                refill.ended(),
                cut,
            )
        }),
{
    refill.lemma_size();
    let input = refill.read() + more;
    assert(refill.standing().in_view(input) =~= refill.in_view());
}

/// Where a walk through a window of `capacity` bytes begins.
pub open spec fn beginning(capacity: usize) -> Standing {
    Standing {
        passed: 0,
        seen: 0,
        size: if capacity == 0 {
            1
        } else {
            capacity
        },
        ended: false,
    }
}

/// Whether a read that has room for `room` bytes can give `count` of what is left: at least one, or
/// none at the end of the input.
pub open spec fn reads(room: int, left: int, count: int) -> bool {
    &&& 0 <= count <= room
    &&& count <= left
    &&& count == 0 <==> left == 0
}

/// Whether a walk over `input` can go from one standing to another in one step: by a read of any
/// size, by widening the window, or by consuming the window that is offered.
pub open spec fn goes(input: Seq<u8>, cut: CutAfter, from: Standing, to: Standing) -> bool {
    match from.offer(input, cut) {
        Offer::Fill { room } => {
            let count = to.seen - from.seen;
            &&& reads(room as int, input.len() - from.passed - from.seen, count)
            &&& to == (Standing { seen: from.seen + count, ended: count == 0, ..from })
        },
        Offer::Widen { capacity } => to == (Standing { size: capacity, ..from }),
        Offer::Window { end } => to == (Standing {
            passed: from.passed + end,
            seen: from.seen - end,
            ..from
        }),
        Offer::End => false,
    }
}

/// Where a walk stands once every window that is in view was consumed: where the window is to be
/// filled, widened where no record ends in it, or where nothing is left.
pub open spec fn settled(input: Seq<u8>, cut: CutAfter, from: Standing) -> Standing
    decreases from.seen,
{
    match from.offer(input, cut) {
        Offer::Window { end } => if 0 < end <= from.seen {
            settled(
                input,
                cut,
                Standing { passed: from.passed + end, seen: from.seen - end, ..from },
            )
        } else {
            from
        },
        Offer::Widen { capacity } => Standing { size: capacity, ..from },
        _ => from,
    }
}

/// A settled walk has read nothing, and wants bytes until the end was reported: there is room for one
/// as long as the window can be widened. Once the end was reported, nothing is left.
pub proof fn lemma_settled(input: Seq<u8>, cut: CutAfter, from: Standing)
    requires
        from.possible(input),
    ensures
        ({
            let to = settled(input, cut, from);
            &&& to.possible(input)
            &&& from.passed <= to.passed
            &&& to.passed + to.seen == from.passed + from.seen
            &&& to.ended == from.ended
            &&& from.ended ==> to.seen == 0 && to.offer(input, cut) == Offer::End
            &&& !from.ended && to.seen < to.size ==> to.offer(input, cut) == (Offer::Fill {
                room: (to.size - to.seen) as usize,
            })
            &&& !from.ended && to.seen == to.size ==> to.size == usize::MAX
        }),
    decreases from.seen,
{
    lemma_cut_point(from.in_view(input), cut);
    match from.offer(input, cut) {
        Offer::Window { end } => {
            let next = Standing { passed: from.passed + end, seen: from.seen - end, ..from };
            lemma_settled(input, cut, next);
        },
        _ => {},
    }
}

/// Whether these standings are a walk over `input` from `from` to its end.
pub open spec fn walks(
    input: Seq<u8>,
    cut: CutAfter,
    from: Standing,
    standings: Seq<Standing>,
) -> bool
    decreases standings.len(),
{
    if standings.len() == 0 {
        from.offer(input, cut) == Offer::End
    } else {
        goes(input, cut, from, standings[0]) && walks(
            input,
            cut,
            standings[0],
            standings.drop_first(),
        )
    }
}

/// The windows that a walk hands out.
pub open spec fn handed_out(
    input: Seq<u8>,
    cut: CutAfter,
    from: Standing,
    standings: Seq<Standing>,
) -> Seq<Seq<u8>>
    decreases standings.len(),
{
    if standings.len() == 0 {
        Seq::empty()
    } else {
        (match from.offer(input, cut) {
            Offer::Window { end } => seq![from.in_view(input).subrange(0, end as int)],
            _ => Seq::empty(),
        }) + handed_out(input, cut, standings[0], standings.drop_first())
    }
}

/// These windows, one behind the other.
pub open spec fn concatenated(windows: Seq<Seq<u8>>) -> Seq<u8>
    decreases windows.len(),
{
    if windows.len() == 0 {
        Seq::empty()
    } else {
        windows[0] + concatenated(windows.drop_first())
    }
}

/// The lines of each of these windows in turn.
pub open spec fn lines_of_each(windows: Seq<Seq<u8>>, newlines: Newlines) -> Seq<Seq<u8>>
    decreases windows.len(),
{
    if windows.len() == 0 {
        Seq::empty()
    } else {
        line_texts(windows[0], newlines) + lines_of_each(windows.drop_first(), newlines)
    }
}

/// What is offered to a possible standing, and where a step leads from there.
proof fn lemma_goes(input: Seq<u8>, cut: CutAfter, from: Standing, to: Standing)
    requires
        from.possible(input),
        goes(input, cut, from, to),
    ensures
        to.possible(input),
        from.passed <= to.passed,
        from.offer(input, cut) matches Offer::Window { end } ==> 0 < end <= from.seen,
{
    lemma_cut_point(from.in_view(input), cut);
}

/// The windows of a walk are what it had still to pass.
proof fn lemma_walk_tiles(
    input: Seq<u8>,
    cut: CutAfter,
    from: Standing,
    standings: Seq<Standing>,
)
    requires
        from.possible(input),
        walks(input, cut, from, standings),
    ensures
        concatenated(handed_out(input, cut, from, standings)) == input.subrange(
            from.passed,
            input.len() as int,
        ),
        forall|i: int|
            0 <= i < handed_out(input, cut, from, standings).len() ==> (#[trigger] handed_out(
                input,
                cut,
                from,
                standings,
            )[i]).len() > 0,
    decreases standings.len(),
{
    let windows = handed_out(input, cut, from, standings);
    if standings.len() == 0 {
        assert(input.subrange(from.passed, input.len() as int) =~= Seq::empty());
    } else {
        let to = standings[0];
        let later = standings.drop_first();
        lemma_goes(input, cut, from, to);
        lemma_walk_tiles(input, cut, to, later);
        let rest = handed_out(input, cut, to, later);
        match from.offer(input, cut) {
            Offer::Window { end } => {
                let window = from.in_view(input).subrange(0, end as int);
                assert(windows == seq![window] + rest);
                assert(windows.drop_first() =~= rest);
                assert(window + input.subrange(to.passed, input.len() as int) =~= input.subrange(
                    from.passed,
                    input.len() as int,
                ));
                assert forall|i: int| 0 <= i < windows.len() implies (#[trigger] windows[i]).len()
                    > 0 by {
                    if i > 0 {
                        assert(windows[i] == rest[i - 1]);
                    }
                }
            },
            _ => {
                assert(windows =~= rest);
            },
        }
    }
}

/// The lines of a walk's windows are the lines of what it had still to pass.
proof fn lemma_walk_lines(
    input: Seq<u8>,
    newlines: Newlines,
    from: Standing,
    standings: Seq<Standing>,
)
    requires
        from.possible(input),
        walks(input, cut_for(newlines), from, standings),
    ensures
        lines_of_each(handed_out(input, cut_for(newlines), from, standings), newlines)
            == line_texts(input.subrange(from.passed, input.len() as int), newlines),
    decreases standings.len(),
{
    let cut = cut_for(newlines);
    let windows = handed_out(input, cut, from, standings);
    let left = input.subrange(from.passed, input.len() as int);
    if standings.len() == 0 {
        assert(left =~= Seq::empty());
        assert(line_texts(left, newlines) =~= Seq::empty());
    } else {
        let to = standings[0];
        let later = standings.drop_first();
        lemma_goes(input, cut, from, to);
        lemma_walk_lines(input, newlines, to, later);
        let rest = handed_out(input, cut, to, later);
        match from.offer(input, cut) {
            Offer::Window { end } => {
                let seen = from.in_view(input);
                let window = seen.subrange(0, end as int);
                let behind = input.subrange(to.passed, input.len() as int);
                assert(windows == seq![window] + rest);
                assert(windows.drop_first() =~= rest);
                assert(left =~= window + behind);
                if from.ended {
                    assert(window =~= left);
                    assert(behind =~= Seq::empty());
                    assert(line_texts(behind, newlines) =~= Seq::empty());
                    assert(line_texts(window, newlines) + Seq::<Seq<u8>>::empty() =~= line_texts(
                        window,
                        newlines,
                    ));
                } else {
                    let more = input.subrange(from.passed + from.seen, input.len() as int);
                    assert(seen + more =~= left);
                    lemma_cut_is_a_boundary(seen, more, newlines);
                    lemma_cut_point(seen, cut);
                    line_texts_join(window, behind, newlines);
                }
            },
            _ => {
                assert(windows =~= rest);
            },
        }
    }
}

/// Reading an input through a window of any capacity, by reads of any sizes, hands all of it out: the
/// windows hold something each, and concatenate to the input. Where they cut behind lines, the lines
/// of each window in turn are the lines of the input.
pub proof fn a_walk_shows_the_whole_input(
    input: Seq<u8>,
    newlines: Newlines,
    cut: CutAfter,
    capacity: usize,
    standings: Seq<Standing>,
)
    requires
        walks(input, cut, beginning(capacity), standings),
    ensures
        ({
            let windows = handed_out(input, cut, beginning(capacity), standings);
            &&& concatenated(windows) == input
            &&& forall|i: int| 0 <= i < windows.len() ==> (#[trigger] windows[i]).len() > 0
            &&& cut == cut_for(newlines) ==> lines_of_each(windows, newlines) == line_texts(
                input,
                newlines,
            )
        }),
{
    let from = beginning(capacity);
    lemma_walk_tiles(input, cut, from, standings);
    assert(input.subrange(0, input.len() as int) =~= input);
    if cut == cut_for(newlines) {
        lemma_walk_lines(input, newlines, from, standings);
    }
}

/// One turn of a caller: the window once it was asked for what comes next, the bytes of the read that
/// it asked for, and the window once the caller did what it asked for.
pub ghost struct Turn {
    pub asked: Refill,
    pub data: Seq<u8>,
    pub after: Refill,
}

impl Turn {
    /// Whether a caller that reads `input` takes this turn: it reads where it is asked to, and
    /// consumes the window that it is handed.
    pub open spec fn takes(self, input: Seq<u8>, cut: CutAfter, before: Refill) -> bool {
        let next = offered(before.in_view(), before.size(), before.ended(), cut);
        &&& Refill::offers(before, self.asked, cut, next)
        &&& match next {
            Offer::Fill { room } => {
                &&& reads(room as int, input.len() - before.read().len(), self.data.len() as int)
                &&& Refill::supplies(self.asked, self.after, self.data)
                &&& self.after.read().is_prefix_of(input)
            },
            Offer::Widen { .. } => self.after == self.asked,
            Offer::Window { end } => Refill::advances(self.asked, self.after, end as int),
            Offer::End => false,
        }
    }
}

/// Whether a caller that reads `input` takes these turns, and is then at the end.
pub open spec fn turns_of(
    input: Seq<u8>,
    cut: CutAfter,
    before: Refill,
    turns: Seq<Turn>,
) -> bool
    decreases turns.len(),
{
    if turns.len() == 0 {
        offered(before.in_view(), before.size(), before.ended(), cut) == Offer::End
    } else {
        turns[0].takes(input, cut, before) && turns_of(
            input,
            cut,
            turns[0].after,
            turns.drop_first(),
        )
    }
}

/// Where the window stands after each of these turns.
pub open spec fn standings_of(turns: Seq<Turn>) -> Seq<Standing> {
    turns.map_values(|turn: Turn| turn.after.standing())
}

/// The turns of a caller are a walk over what it reads, and at its end everything was read: whatever
/// holds of every walk holds of what [`Refill::offer`], [`Refill::supply`] and [`Refill::advance`]
/// do in turn.
pub proof fn a_refilled_window_walks_its_input(
    input: Seq<u8>,
    cut: CutAfter,
    before: Refill,
    turns: Seq<Turn>,
)
    requires
        before.wf(),
        before.read().is_prefix_of(input),
        before.ended() ==> before.read() == input,
        turns_of(input, cut, before, turns),
    ensures
        walks(input, cut, before.standing(), standings_of(turns)),
        turns.len() > 0 ==> turns.last().after.read() == input,
        turns.len() == 0 ==> before.read() == input,
    decreases turns.len(),
{
    let left = input.subrange(before.read().len() as int, input.len() as int);
    assert(before.read() + left =~= input);
    a_window_stands_in_its_input(before, left, cut);
    let standings = standings_of(turns);
    if turns.len() > 0 {
        let turn = turns[0];
        let after = turn.after;
        let later = turns.drop_first();
        assert(standings.drop_first() =~= standings_of(later));
        lemma_cut_point(before.in_view(), cut);
        before.lemma_size();
        if offered(before.in_view(), before.size(), before.ended(), cut) is Fill {
            assert(after.read() =~= before.read() + turn.data);
            if turn.data.len() == 0 {
                assert(after.read() =~= input);
            }
        }
        a_refilled_window_walks_its_input(input, cut, after, later);
        assert(goes(input, cut, before.standing(), standings[0]));
    }
}

/// Filling a new window of any capacity by reads of any sizes, and consuming every window that it
/// offers, until nothing is left, hands out the whole input: the windows hold something each and
/// concatenate to the input, and where they cut behind lines, the lines of each window in turn are
/// the lines of the input.
pub proof fn a_refilled_window_shows_the_whole_input(
    input: Seq<u8>,
    newlines: Newlines,
    cut: CutAfter,
    capacity: usize,
    before: Refill,
    turns: Seq<Turn>,
)
    requires
        before.wf(),
        before.read() == Seq::<u8>::empty(),
        before.standing() == beginning(capacity),
        turns_of(input, cut, before, turns),
    ensures
        ({
            let windows = handed_out(input, cut, before.standing(), standings_of(turns));
            &&& concatenated(windows) == input
            &&& forall|i: int| 0 <= i < windows.len() ==> (#[trigger] windows[i]).len() > 0
            &&& cut == cut_for(newlines) ==> lines_of_each(windows, newlines) == line_texts(
                input,
                newlines,
            )
        }),
{
    assert(before.read().is_prefix_of(input));
    a_refilled_window_walks_its_input(input, cut, before, turns);
    a_walk_shows_the_whole_input(input, newlines, cut, capacity, standings_of(turns));
}

/// A walk over an input that a machine can hold always comes to its end: until nothing is left
/// another step can be taken, and every step comes nearer the end, by what is left to pass, by the
/// report of the end, by the width of the window, or by what it holds.
pub proof fn a_walk_comes_to_its_end(
    input: Seq<u8>,
    cut: CutAfter,
    from: Standing,
    to: Standing,
)
    requires
        from.possible(input),
        input.len() < usize::MAX,
    ensures
        from.offer(input, cut) != Offer::End ==> exists|onward: Standing| #[trigger]
            goes(input, cut, from, onward),
        goes(input, cut, from, to) ==> to.possible(input) && decreases_to!(
            input.len() - from.passed,
            from.ends_to_report(),
            usize::MAX - from.size,
            from.size - from.seen
            => input.len() - to.passed,
            to.ends_to_report(),
            usize::MAX - to.size,
            to.size - to.seen
        ),
{
    lemma_cut_point(from.in_view(input), cut);
    if goes(input, cut, from, to) {
        lemma_goes(input, cut, from, to);
    }
    match from.offer(input, cut) {
        Offer::Fill { room } => {
            let left = input.len() - from.passed - from.seen;
            let count = if left < room {
                left
            } else {
                room as int
            };
            let onward = Standing { seen: from.seen + count, ended: count == 0, ..from };
            assert(goes(input, cut, from, onward));
        },
        Offer::Widen { capacity } => {
            assert(goes(input, cut, from, Standing { size: capacity, ..from }));
        },
        Offer::Window { end } => {
            let onward = Standing { passed: from.passed + end, seen: from.seen - end, ..from };
            assert(goes(input, cut, from, onward));
        },
        Offer::End => {},
    }
}

} // verus!
