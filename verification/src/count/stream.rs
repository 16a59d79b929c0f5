//! Counting a stream through one reused window.

use vstd::prelude::*;
use vstd::utf8::valid_utf8;

use crate::cuts::{
    cut_point, lemma_cut_is_a_boundary, lemma_cut_point, whole_characters_are_kept, whole_prefix,
};
use crate::sz::characters;
use crate::walks::{
    a_window_stands_in_its_input, beginning, lemma_settled, reads, settled, Standing,
};
use crate::windows::{Offer, Refill};

use super::tally::{
    counted, lemma_characters_join, line_words_are_words, may_cut, nothing_counted, tallied,
    windows_count_the_whole, CountState, Counter, Counts, Plan, Tallies,
};
use super::words::{lemma_segments, lemma_unsplit, Mode};

verus! {

/// What a streamed count asks of its caller.
#[derive(Clone, Copy, Debug, PartialEq, Eq, Structural)]
pub enum Need {
    /// Read at most this many bytes, supply them, and go on.
    Read { room: usize },
    /// Nothing more.
    Done,
}

/// Whether a counter's only pass splits by Unicode whitespace, which no seam may fall into.
pub open spec fn decodes(counter: Counter) -> bool {
    counter.plan == Plan::WordsOnly && counter.mode == Mode::Unicode
}

/// Whether counting everything read so far and then `more` amounts to what was counted and then to
/// what the uncounted rest adds.
pub open spec fn account(
    counter: Counter,
    read: Seq<u8>,
    ahead: Seq<u8>,
    now: Tallies,
    more: Seq<u8>,
) -> bool {
    &&& tallied(counter, read + more, nothing_counted()) == tallied(counter, ahead + more, now)
    &&& decodes(counter) ==> valid_utf8(ahead + more)
}

/// Whether a count accounts for everything read so far, whatever the rest of the input turns out to
/// be, so long as it is UTF-8 where the counter decodes it.
pub open spec fn accounts(
    counter: Counter,
    read: Seq<u8>,
    ended: bool,
    ahead: Seq<u8>,
    now: Tallies,
) -> bool {
    forall|more: Seq<u8>|
        (ended ==> more.len() == 0) && (decodes(counter) ==> valid_utf8(read + more))
            ==> #[trigger] account(counter, read, ahead, now, more)
}

proof fn lemma_supplied(
    counter: Counter,
    read: Seq<u8>,
    ahead: Seq<u8>,
    now: Tallies,
    data: Seq<u8>,
    ended: bool,
)
    requires
        accounts(counter, read, false, ahead, now),
    ensures
        accounts(counter, read + data, ended, ahead + data, now),
{
    assert forall|more: Seq<u8>|
        (ended ==> more.len() == 0) && (decodes(counter) ==> valid_utf8(read + data + more)) implies
        #[trigger] account(counter, read + data, ahead + data, now, more) by {
        assert(read + (data + more) =~= read + data + more);
        assert(ahead + (data + more) =~= ahead + data + more);
        assert(account(counter, read, ahead, now, data + more));
    }
}

proof fn lemma_nothing(counter: Counter, now: Tallies)
    ensures
        tallied(counter, Seq::empty(), now) == now,
{
    lemma_segments(Seq::<u8>::empty(), 0);
}

/// A window cut where the counter allows it may be counted on its own, whatever follows.
proof fn lemma_may_cut(counter: Counter, ahead: Seq<u8>, more: Seq<u8>, end: int)
    requires
        counter.wf(),
        cut_point(ahead, counter.cut) == Some(end),
        decodes(counter) ==> valid_utf8(ahead + more),
    ensures
        0 < end <= ahead.len(),
        may_cut(counter, ahead.subrange(0, end), ahead.subrange(end, ahead.len() as int) + more),
        decodes(counter) ==> valid_utf8(ahead.subrange(end, ahead.len() as int) + more),
{
    lemma_cut_point(ahead, counter.cut);
    let one = ahead.subrange(0, end);
    let two = ahead.subrange(end, ahead.len() as int) + more;
    let whole = ahead + more;
    assert(one + two =~= whole);
    if counter.plan == Plan::LineExtents || counter.plan == Plan::LinesAndWords {
        lemma_cut_is_a_boundary(ahead, more, counter.mode.newline_set());
    }
    if decodes(counter) {
        whole_characters_are_kept(ahead, more);
        assert(end == whole_prefix(ahead));
        assert(whole.subrange(end, whole.len() as int) =~= two);
        assert(two[0] == whole[end]);
        lemma_unsplit(one, two);
    }
}

proof fn lemma_counted(
    counter: Counter,
    read: Seq<u8>,
    ended: bool,
    ahead: Seq<u8>,
    now: Tallies,
    end: int,
)
    requires
        counter.wf(),
        accounts(counter, read, ended, ahead, now),
        ended && end == ahead.len() || cut_point(ahead, counter.cut) == Some(end),
        0 <= end <= ahead.len(),
    ensures
        accounts(
            counter,
            read,
            ended,
            ahead.subrange(end, ahead.len() as int),
            tallied(counter, ahead.subrange(0, end), now),
        ),
{
    let later = ahead.subrange(end, ahead.len() as int);
    let window = ahead.subrange(0, end);
    let next = tallied(counter, window, now);
    assert forall|more: Seq<u8>|
        (ended ==> more.len() == 0) && (decodes(counter) ==> valid_utf8(read + more)) implies
        #[trigger] account(counter, read, later, next, more) by {
        assert(account(counter, read, ahead, now, more));
        if ended && end == ahead.len() {
            assert(ahead + more =~= window);
            assert(later + more =~= Seq::<u8>::empty());
            lemma_nothing(counter, next);
        } else {
            lemma_may_cut(counter, ahead, more, end);
            assert(window + (later + more) =~= ahead + more);
            windows_count_the_whole(counter, window, later + more, now);
        }
    }
}

/// A stream counted through one reused window, so peak memory is the window rather than the input.
/// The reading is the caller's.
pub struct CountStream {
    counter: Counter,
    refill: Refill,
    state: CountState,
}

impl CountStream {
    pub closed spec fn wf(&self) -> bool {
        &&& self.counter.wf()
        &&& self.refill.wf()
        &&& self.state.wf()
        &&& self.refill.read().len() <= usize::MAX
        &&& self.state.counts.bytes == self.refill.passed().len()
        &&& decodes(self.counter) ==> {
            &&& self.state@.lines == 0
            &&& self.state@.longest == 0
            &&& self.state@.chars == if self.counter.fields.chars {
                characters(self.refill.passed())
            } else {
                0
            }
        }
        &&& accounts(
            self.counter,
            self.refill.read(),
            self.refill.ended(),
            self.refill.in_view(),
            self.state@,
        )
    }

    pub closed spec fn counter(&self) -> Counter {
        self.counter
    }

    /// Everything read so far.
    pub closed spec fn read(&self) -> Seq<u8> {
        self.refill.read()
    }

    /// Where the count stands in what was read: how much of it was counted, and how much is in view.
    pub closed spec fn standing(&self) -> Standing {
        self.refill.standing()
    }

    /// Whether the end of the input was reported.
    pub open spec fn ended(&self) -> bool {
        self.standing().ended
    }

    /// How many bytes may be supplied now.
    pub open spec fn room(&self) -> int {
        self.standing().size - self.standing().seen
    }

    /// How many bytes were read and are not counted yet.
    pub open spec fn uncounted(&self) -> int {
        self.standing().seen
    }

    /// Everything read was counted or is in view.
    pub proof fn lemma_standing(&self)
        requires
            self.wf(),
        ensures
            self.standing().possible(self.read()),
            self.standing().passed + self.standing().seen == self.read().len(),
            self.read().len() <= usize::MAX,
    {
        let none = Seq::<u8>::empty();
        a_window_stands_in_its_input(self.refill, none, self.counter.cut);
        assert(self.refill.read() + none =~= self.refill.read());
    }

    /// What taking the bytes that one read gave does.
    pub open spec fn supplies(before: Self, after: Self, data: Seq<u8>) -> bool {
        &&& after.wf()
        &&& after.counter() == before.counter()
        &&& after.read() == before.read() + data
        &&& after.standing() == (Standing {
            seen: before.standing().seen + data.len(),
            ended: data.len() == 0,
            ..before.standing()
        })
    }

    /// What counting as far as the bytes in view allow does: every window that can be taken is
    /// counted, and bytes are asked for until the end of the input was reported, with room for one as
    /// long as a machine has it.
    pub open spec fn advances(before: Self, after: Self, need: Need) -> bool {
        &&& after.wf()
        &&& after.counter() == before.counter()
        &&& after.read() == before.read()
        &&& after.standing() == settled(before.read(), before.counter().cut, before.standing())
        &&& need == if after.ended() {
            Need::Done
        } else {
            Need::Read { room: after.room() as usize }
        }
        &&& need matches Need::Read { room } ==> room == after.room() && (room > 0
            || after.read().len() == usize::MAX)
        &&& need is Done ==> after.uncounted() == 0
    }

    /// Count a stream through a window of `capacity` bytes.
    pub fn new(counter: Counter, capacity: usize) -> (stream: Self)
        requires
            counter.wf(),
        ensures
            stream.wf(),
            stream.counter() == counter,
            stream.read() == Seq::<u8>::empty(),
            stream.standing() == beginning(capacity),
    {
        let stream = CountStream {
            counter,
            refill: Refill::new(capacity),
            state: CountState::default(),
        };
        proof {
            let none = Seq::<u8>::empty();
            assert(stream.refill.read() =~= none);
            assert forall|more: Seq<u8>|
                (decodes(counter) ==> valid_utf8(none + more)) implies #[trigger] account(
                counter,
                none,
                none,
                nothing_counted(),
                more,
            ) by {}
        }
        stream
    }

    /// Take what one read gave: some bytes, or none at the end of the input.
    pub fn supply(&mut self, data: &[u8])
        requires
            old(self).wf(),
            !old(self).ended(),
            data@.len() <= old(self).room(),
            old(self).read().len() + data@.len() <= usize::MAX,
        ensures
            Self::supplies(*old(self), *final(self), data@),
    {
        let ghost read = self.refill.read();
        let ghost ahead = self.refill.in_view();
        self.refill.supply(data);
        proof {
            assert(self.refill.read() =~= read + data@);
            lemma_supplied(
                self.counter,
                read,
                ahead,
                self.state@,
                data@,
                self.refill.ended(),
            );
        }
    }

    /// Count as far as the bytes in view allow, and answer what is needed to go on.
    pub fn advance(&mut self) -> (need: Need)
        requires
            old(self).wf(),
        ensures
            Self::advances(*old(self), *final(self), need),
    {
        let ghost settles = settled(self.read(), self.counter.cut, self.standing());
        proof {
            self.lemma_standing();
            lemma_settled(self.read(), self.counter.cut, self.standing());
        }
        loop
            invariant
                self.wf(),
                self.counter == old(self).counter,
                self.refill.read() == old(self).refill.read(),
                self.refill.ended() == old(self).refill.ended(),
                settles == settled(old(self).read(), self.counter.cut, old(self).standing()),
                settles == settled(self.read(), self.counter.cut, self.standing()),
                settles.possible(self.read()),
                settles.ended == self.standing().ended,
                settles.ended ==> settles.seen == 0,
                settles.passed + settles.seen == self.read().len(),
                !settles.ended && settles.seen == settles.size ==> settles.size == usize::MAX,
            decreases self.refill.in_view().len(),
        {
            let ghost view = self.refill.in_view();
            let ghost read = self.refill.read();
            let ghost size = self.refill.size();
            proof {
                self.refill.lemma_size();
                self.lemma_standing();
                assert(self.standing().in_view(read) =~= view);
                lemma_cut_point(view, self.counter.cut);
            }
            match self.refill.offer(self.counter.cut) {
                Offer::Fill { room } => {
                    return Need::Read { room };
                },
                Offer::Widen { .. } => {
                    proof {
                        self.refill.lemma_size();
                    }
                    return Need::Read { room: self.refill.room() };
                },
                Offer::End => {
                    return Need::Done;
                },
                Offer::Window { end } => {
                    let window: &[u8] = &self.refill.filled()[0..end];
                    let ghost now = self.state@;
                    let ghost passed = self.refill.passed();
                    self.counter.count_window(window, &mut self.state);
                    proof {
                        assert(window@ =~= view.subrange(0, end as int));
                        lemma_characters_join(passed, window@);
                        lemma_counted(
                            self.counter,
                            read,
                            self.refill.ended(),
                            view,
                            now,
                            end as int,
                        );
                    }
                    let _ = self.refill.advance(end);
                },
            }
        }
    }

    /// Report the tallies of a stream that was counted to its end: what counting it whole gives. Only
    /// the words of a stream that the counter decodes may differ, where it is not UTF-8.
    pub fn finish(self) -> (counts: Counts)
        requires
            self.wf(),
            self.ended(),
            self.uncounted() == 0,
        ensures
            ({
                let whole = counted(self.counter().mode, self.counter().fields, self.read());
                &&& counts.lines == whole.lines
                &&& counts.bytes == whole.bytes
                &&& counts.chars == whole.chars
                &&& counts.max_line_length == whole.longest
                &&& (decodes(self.counter()) ==> valid_utf8(self.read())) ==> counts.are(whole)
            }),
    {
        proof {
            let none = Seq::<u8>::empty();
            assert(self.refill.in_view() =~= none);
            assert(self.refill.read() + none =~= self.refill.read());
            if decodes(self.counter) ==> valid_utf8(self.refill.read()) {
                assert(account(
                    self.counter,
                    self.refill.read(),
                    self.refill.in_view(),
                    self.state@,
                    none,
                ));
                assert(self.refill.in_view() + none =~= none);
                lemma_nothing(self.counter, self.state@);
                line_words_are_words(self.refill.read(), self.counter.mode);
            }
        }
        self.counter.finish(self.state)
    }
}

/// One turn of a streamed count: what the count was when it asked for `room` bytes, the bytes that it
/// was given, and what it was then.
pub ghost struct Turn {
    pub asked: CountStream,
    pub room: usize,
    pub data: Seq<u8>,
    pub given: CountStream,
}

/// Whether these are turns of counting `input`, from `from` on to `last`: each advances the count,
/// reads what it asked for, some bytes or none at the end of the input, and supplies them.
pub open spec fn turns_of(
    input: Seq<u8>,
    from: CountStream,
    turns: Seq<Turn>,
    last: CountStream,
) -> bool
    decreases turns.len(),
{
    if turns.len() == 0 {
        last == from
    } else {
        let turn = turns[0];
        let at = from.read().len() as int;
        &&& CountStream::advances(from, turn.asked, Need::Read { room: turn.room })
        &&& reads(turn.room as int, input.len() - at, turn.data.len() as int)
        &&& turn.data == input.subrange(at, at + turn.data.len())
        &&& CountStream::supplies(turn.asked, turn.given, turn.data)
        &&& turns_of(input, turn.given, turns.drop_first(), last)
    }
}

/// A streamed count takes no more turns than its input has bytes, and one for its end. Each asks for
/// at least a byte.
pub proof fn a_streamed_count_comes_to_its_end(
    input: Seq<u8>,
    from: CountStream,
    turns: Seq<Turn>,
    last: CountStream,
)
    requires
        input.len() < usize::MAX,
        from.wf(),
        from.read().is_prefix_of(input),
        from.ended() ==> from.read() == input,
        turns_of(input, from, turns, last),
    ensures
        last.wf(),
        last.counter() == from.counter(),
        last.read().is_prefix_of(input),
        last.ended() ==> last.read() == input,
        forall|i: int| 0 <= i < turns.len() ==> (#[trigger] turns[i]).room > 0,
        turns.len() <= input.len() - from.read().len() + if from.ended() {
            0int
        } else {
            1int
        },
    decreases turns.len(),
{
    if turns.len() > 0 {
        let turn = turns[0];
        let later = turns.drop_first();
        let at = from.read().len() as int;
        from.lemma_standing();
        lemma_settled(from.read(), from.counter().cut, from.standing());
        assert(turn.given.read() =~= input.subrange(0, at + turn.data.len()));
        assert(turn.given.ended() ==> turn.given.read() =~= input);
        a_streamed_count_comes_to_its_end(input, turn.given, later, last);
        assert forall|i: int| 0 <= i < turns.len() implies (#[trigger] turns[i]).room > 0 by {
            if i > 0 {
                assert(turns[i] == later[i - 1]);
            }
        }
    }
}

/// No count depends on where a window's seam falls: however wide the window and whatever the reads
/// gave, a stream that was counted until nothing more was needed was counted whole, so that
/// [`CountStream::finish`] reports what counting `input` at once does.
pub proof fn a_streamed_count_counts_the_whole_input(
    input: Seq<u8>,
    from: CountStream,
    turns: Seq<Turn>,
    last: CountStream,
    done: CountStream,
)
    requires
        input.len() < usize::MAX,
        from.wf(),
        from.read() == Seq::<u8>::empty(),
        !from.ended(),
        turns_of(input, from, turns, last),
        CountStream::advances(last, done, Need::Done),
    ensures
        done.wf(),
        done.counter() == from.counter(),
        done.read() == input,
        done.ended(),
        done.uncounted() == 0,
{
    assert(from.read().is_prefix_of(input));
    a_streamed_count_comes_to_its_end(input, from, turns, last);
    last.lemma_standing();
    lemma_settled(last.read(), last.counter().cut, last.standing());
}

} // verus!
