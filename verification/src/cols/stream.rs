//! Extracting columns from a stream through one reused window.

use vstd::prelude::*;

use crate::cuts::{cut_for, cut_point, lemma_cut_is_a_boundary, lemma_cut_point, CutAfter};
use crate::lines::Newlines;
use crate::walks::{
    a_window_stands_in_its_input, beginning, lemma_settled, reads, settled, Standing,
};
use crate::windows::{Offer, Refill};

use super::extract::{
    extract_data, line_texts, line_texts_join, record_count, records, records_join, ColsState,
    ColumnSelection, Cutting, OutputConfig, Writing,
};

verus! {

/// What a streamed extraction asks of its caller.
#[derive(Clone, Copy, Debug, PartialEq, Eq, Structural)]
pub enum Need {
    /// Read at most this many bytes, supply them, and go on.
    Read { room: usize },
    /// Nothing more.
    Done,
}

/// Whether the lines of everything read and then `more` are the lines extracted so far and then
/// the lines of the rest.
pub open spec fn account(
    newlines: Newlines,
    read: Seq<u8>,
    ahead: Seq<u8>,
    behind: Seq<Seq<u8>>,
    more: Seq<u8>,
) -> bool {
    line_texts(read + more, newlines) == behind + line_texts(ahead + more, newlines)
}

/// Whether the lines extracted so far account for everything read, whatever the rest of the input
/// turns out to be.
pub open spec fn accounts(
    newlines: Newlines,
    read: Seq<u8>,
    ended: bool,
    ahead: Seq<u8>,
    behind: Seq<Seq<u8>>,
) -> bool {
    forall|more: Seq<u8>|
        (ended ==> more.len() == 0) ==> #[trigger] account(newlines, read, ahead, behind, more)
}

proof fn lemma_supplied(
    newlines: Newlines,
    read: Seq<u8>,
    ahead: Seq<u8>,
    behind: Seq<Seq<u8>>,
    data: Seq<u8>,
    ended: bool,
)
    requires
        accounts(newlines, read, false, ahead, behind),
    ensures
        accounts(newlines, read + data, ended, ahead + data, behind),
{
    assert forall|more: Seq<u8>| (ended ==> more.len() == 0) implies #[trigger] account(
        newlines,
        read + data,
        ahead + data,
        behind,
        more,
    ) by {
        assert(read + (data + more) =~= read + data + more);
        assert(ahead + (data + more) =~= ahead + data + more);
        assert(account(newlines, read, ahead, behind, data + more));
    }
}

proof fn lemma_extracted(
    newlines: Newlines,
    read: Seq<u8>,
    ended: bool,
    ahead: Seq<u8>,
    behind: Seq<Seq<u8>>,
    end: int,
)
    requires
        accounts(newlines, read, ended, ahead, behind),
        ended && end == ahead.len() || cut_point(ahead, cut_for(newlines)) == Some(end),
        0 <= end <= ahead.len(),
    ensures
        accounts(
            newlines,
            read,
            ended,
            ahead.subrange(end, ahead.len() as int),
            behind + line_texts(ahead.subrange(0, end), newlines),
        ),
{
    let window = ahead.subrange(0, end);
    let later = ahead.subrange(end, ahead.len() as int);
    let next = behind + line_texts(window, newlines);
    assert forall|more: Seq<u8>| (ended ==> more.len() == 0) implies #[trigger] account(
        newlines,
        read,
        later,
        next,
        more,
    ) by {
        assert(account(newlines, read, ahead, behind, more));
        assert(window + (later + more) =~= ahead + more);
        if ended && end == ahead.len() {
            assert(later + more =~= Seq::<u8>::empty());
            assert(ahead + more =~= window);
            assert(line_texts(later + more, newlines) =~= Seq::empty());
            assert(next + Seq::<Seq<u8>>::empty() =~= next);
        } else {
            lemma_cut_is_a_boundary(ahead, more, newlines);
            lemma_cut_point(ahead, cut_for(newlines));
            line_texts_join(window, later + more, newlines);
            assert(behind + (line_texts(window, newlines) + line_texts(later + more, newlines))
                =~= next + line_texts(later + more, newlines));
        }
    }
}

/// A stream whose lines are extracted as whole-line prefixes of one reused window, so that a pipe
/// costs bounded memory rather than the input's size. The reading is the caller's.
pub struct ColsStream<'a> {
    selection: ColumnSelection<'a>,
    config: OutputConfig<'a>,
    newlines: Newlines,
    refill: Refill,
    state: ColsState,
    behind: Ghost<Seq<Seq<u8>>>,
}

impl<'a> ColsStream<'a> {
    pub closed spec fn wf(&self) -> bool {
        &&& self.selection.delimiter@.len() > 0
        &&& self.refill.wf()
        &&& self.refill.read().len() < usize::MAX
        &&& self.behind@.len() <= self.refill.passed().len()
        &&& self.state.line_number == self.behind@.len()
        &&& self.state.emitted == record_count(self.selection@, self.behind@)
        &&& self.state.emitted <= self.state.line_number
        &&& accounts(
            self.newlines,
            self.refill.read(),
            self.refill.ended(),
            self.refill.in_view(),
            self.behind@,
        )
    }

    pub closed spec fn selection(&self) -> ColumnSelection<'a> {
        self.selection
    }

    pub closed spec fn config(&self) -> OutputConfig<'a> {
        self.config
    }

    pub closed spec fn newlines(&self) -> Newlines {
        self.newlines
    }

    /// Everything read so far.
    pub closed spec fn read(&self) -> Seq<u8> {
        self.refill.read()
    }

    /// Where the extraction stands in what was read: how much of it was extracted from, and how much
    /// is in view.
    pub closed spec fn standing(&self) -> Standing {
        self.refill.standing()
    }

    /// Whether the end of the input was reported.
    pub open spec fn ended(&self) -> bool {
        self.standing().ended
    }

    /// How many bytes may be supplied now.
    pub open spec fn room(&self) -> int {
        self.standing().size - self.standing().seen
    }

    /// The lines whose records are written.
    pub closed spec fn behind(&self) -> Seq<Seq<u8>> {
        self.behind@
    }

    /// Everything read was extracted from or is in view.
    pub proof fn lemma_standing(&self)
        requires
            self.wf(),
        ensures
            self.standing().possible(self.read()),
            self.standing().passed + self.standing().seen == self.read().len(),
            self.read().len() < usize::MAX,
    {
        let none = Seq::<u8>::empty();
        a_window_stands_in_its_input(self.refill, none, cut_for(self.newlines));
        assert(self.refill.read() + none =~= self.refill.read());
    }

    /// Whether two extractions select and write alike.
    pub open spec fn alike(&self, other: Self) -> bool {
        &&& self.selection() == other.selection()
        &&& self.newlines() == other.newlines()
        &&& self.config() == other.config()
    }

    /// What taking the bytes that one read gave does.
    pub open spec fn supplies(before: Self, after: Self, data: Seq<u8>) -> bool {
        &&& after.wf()
        &&& after.alike(before)
        &&& after.behind() == before.behind()
        &&& after.read() == before.read() + data
        &&& after.standing() == (Standing {
            seen: before.standing().seen + data.len(),
            ended: data.len() == 0,
            ..before.standing()
        })
    }

    /// What extracting as far as the bytes in view allow does: it writes the records of the lines it
    /// goes past, which are those of every window that can be taken, and asks for bytes, with room
    /// for one, until the end of the input was reported. An extraction that is done has gone past
    /// every line of what was read.
    pub open spec fn advances(before: Self, after: Self, written: Seq<u8>, need: Need) -> bool {
        let seen = before.behind().len() as int;
        let now = after.behind();
        &&& after.wf()
        &&& after.alike(before)
        &&& after.read() == before.read()
        &&& after.standing() == settled(
            before.read(),
            cut_for(before.newlines()),
            before.standing(),
        )
        &&& seen <= now.len()
        &&& now.subrange(0, seen) == before.behind()
        &&& written == records(
            before.selection()@,
            before.config()@,
            now.subrange(seen, now.len() as int),
            seen as nat,
        )
        &&& need == if after.ended() {
            Need::Done
        } else {
            Need::Read { room: after.room() as usize }
        }
        &&& need matches Need::Read { room } ==> room == after.room() && room > 0
        &&& need is Done ==> now == line_texts(after.read(), after.newlines())
    }

    /// Extract from a stream through a window of `capacity` bytes.
    pub fn new(
        selection: ColumnSelection<'a>,
        newlines: Newlines,
        config: OutputConfig<'a>,
        capacity: usize,
    ) -> (stream: Self)
        requires
            selection.delimiter@.len() > 0,
        ensures
            stream.wf(),
            stream.selection() == selection,
            stream.newlines() == newlines,
            stream.config() == config,
            stream.read() == Seq::<u8>::empty(),
            stream.behind() == Seq::<Seq<u8>>::empty(),
            stream.standing() == beginning(capacity),
    {
        let stream = ColsStream {
            selection,
            config,
            newlines,
            refill: Refill::new(capacity),
            state: ColsState::default(),
            behind: Ghost(Seq::empty()),
        };
        proof {
            let none = Seq::<u8>::empty();
            assert(stream.refill.read() =~= none);
            assert forall|more: Seq<u8>| #[trigger] account(
                newlines,
                none,
                none,
                Seq::empty(),
                more,
            ) by {
                assert(Seq::<Seq<u8>>::empty() + line_texts(none + more, newlines) =~= line_texts(
                    none + more,
                    newlines,
                ));
            }
        }
        stream
    }

    /// Take what one read gave: some bytes, or none at the end of the input.
    pub fn supply(&mut self, data: &[u8])
        requires
            old(self).wf(),
            !old(self).ended(),
            data@.len() <= old(self).room(),
            old(self).read().len() + data@.len() < usize::MAX,
        ensures
            Self::supplies(*old(self), *final(self), data@),
    {
        let ghost read = self.refill.read();
        let ghost ahead = self.refill.in_view();
        self.refill.supply(data);
        proof {
            assert(self.refill.read() =~= read + data@);
            lemma_supplied(
                self.newlines,
                read,
                ahead,
                self.behind@,
                data@,
                self.refill.ended(),
            );
        }
    }

    /// Extract as far as the bytes in view allow, and answer what is needed to go on.
    pub fn advance(&mut self, output: &mut Vec<u8>) -> (need: Need)
        requires
            old(self).wf(),
        ensures
            old(output)@.is_prefix_of(final(output)@),
            Self::advances(
                *old(self),
                *final(self),
                final(output)@.subrange(old(output)@.len() as int, final(output)@.len() as int),
                need,
            ),
    {
        let cut: CutAfter = CutAfter::from(self.newlines);
        let ghost seen = self.behind@.len() as int;
        let ghost settles = settled(self.read(), cut, self.standing());
        proof {
            self.lemma_standing();
            lemma_settled(self.read(), cut, self.standing());
            assert(self.behind@.subrange(0, seen) =~= self.behind@);
            assert(self.behind@.subrange(seen, seen) =~= Seq::<Seq<u8>>::empty());
            assert(output@ + Seq::<u8>::empty() =~= output@);
        }
        loop
            invariant
                self.wf(),
                cut == cut_for(self.newlines),
                self.selection == old(self).selection,
                self.newlines == old(self).newlines,
                self.config == old(self).config,
                self.refill.read() == old(self).refill.read(),
                self.refill.ended() == old(self).refill.ended(),
                settles == settled(old(self).read(), cut, old(self).standing()),
                settles == settled(self.read(), cut, self.standing()),
                settles.possible(self.read()),
                settles.ended == self.standing().ended,
                settles.ended ==> settles.seen == 0,
                settles.passed + settles.seen == self.read().len(),
                !settles.ended && settles.seen == settles.size ==> settles.size == usize::MAX,
                seen == old(self).behind@.len(),
                seen <= self.behind@.len(),
                self.behind@.subrange(0, seen) == old(self).behind@,
                output@ == old(output)@ + records(
                    self.selection@,
                    self.config@,
                    self.behind@.subrange(seen, self.behind@.len() as int),
                    seen as nat,
                ),
            decreases self.refill.in_view().len(),
        {
            let ghost view = self.refill.in_view();
            let ghost read = self.refill.read();
            let ghost behind = self.behind@;
            proof {
                self.refill.lemma_size();
                self.lemma_standing();
                assert(self.standing().in_view(read) =~= view);
                lemma_cut_point(view, cut);
                let written = records(
                    self.selection@,
                    self.config@,
                    behind.subrange(seen, behind.len() as int),
                    seen as nat,
                );
                assert(output@.subrange(old(output)@.len() as int, output@.len() as int)
                    =~= written);
            }
            match self.refill.offer(cut) {
                Offer::Fill { room } => {
                    return Need::Read { room };
                },
                Offer::Widen { .. } => {
                    proof {
                        self.refill.lemma_size();
                    }
                    return Need::Read { room: self.refill.room() };
                },
                Offer::End => {
                    proof {
                        let none = Seq::<u8>::empty();
                        assert(view =~= none);
                        assert(account(self.newlines, read, view, behind, none));
                        assert(read + none =~= read);
                        assert(view + none =~= none);
                        assert(line_texts(none, self.newlines) =~= Seq::empty());
                        assert(behind + Seq::<Seq<u8>>::empty() =~= behind);
                    }
                    return Need::Done;
                },
                Offer::Window { end } => {
                    let window: &[u8] = &self.refill.filled()[0..end];
                    let ghost fresh = line_texts(window@, self.newlines);
                    let ghost before = output@;
                    extract_data(
                        window,
                        &mut self.state,
                        &self.selection,
                        self.newlines,
                        &self.config,
                        output,
                    );
                    proof {
                        assert(window@ =~= view.subrange(0, end as int));
                        lemma_extracted(
                            self.newlines,
                            read,
                            self.refill.ended(),
                            view,
                            behind,
                            end as int,
                        );
                        records_join(self.selection@, self.config@, behind, fresh, 0);
                        let written = behind.subrange(seen, behind.len() as int);
                        records_join(self.selection@, self.config@, written, fresh, seen as nat);
                        let now = behind + fresh;
                        assert(now.subrange(seen, now.len() as int) =~= written + fresh);
                        assert(now.subrange(0, seen) =~= behind.subrange(0, seen));
                        assert(output@ =~= old(output)@ + records(
                            self.selection@,
                            self.config@,
                            written + fresh,
                            seen as nat,
                        ));
                        self.behind@ = now;
                    }
                    let _ = self.refill.advance(end);
                },
            }
        }
    }

    /// Report how far a finished extraction came: every line of what was read, and the records
    /// they made.
    pub fn finish(self) -> (state: ColsState)
        requires
            self.wf(),
        ensures
            state.line_number == self.behind().len(),
            state.emitted == record_count(self.selection()@, self.behind()),
    {
        self.state
    }
}

/// One turn of a streamed extraction: what it was when it asked for `room` bytes and what it had
/// written by then, the bytes that it was given, and what it was then.
pub ghost struct Turn<'a> {
    pub asked: ColsStream<'a>,
    pub written: Seq<u8>,
    pub room: usize,
    pub data: Seq<u8>,
    pub given: ColsStream<'a>,
}

/// Whether these are turns of extracting from `input`, from `from` on to `last`: each advances the
/// extraction, reads what it asked for, some bytes or none at the end of the input, and supplies them.
pub open spec fn turns_of<'a>(
    input: Seq<u8>,
    from: ColsStream<'a>,
    turns: Seq<Turn<'a>>,
    last: ColsStream<'a>,
) -> bool
    decreases turns.len(),
{
    if turns.len() == 0 {
        last == from
    } else {
        let turn = turns[0];
        let at = from.read().len() as int;
        &&& ColsStream::advances(from, turn.asked, turn.written, Need::Read { room: turn.room })
        &&& reads(turn.room as int, input.len() - at, turn.data.len() as int)
        &&& turn.data == input.subrange(at, at + turn.data.len())
        &&& ColsStream::supplies(turn.asked, turn.given, turn.data)
        &&& turns_of(input, turn.given, turns.drop_first(), last)
    }
}

/// What these turns wrote.
pub open spec fn written_in<'a>(turns: Seq<Turn<'a>>) -> Seq<u8>
    decreases turns.len(),
{
    if turns.len() == 0 {
        Seq::empty()
    } else {
        turns[0].written + written_in(turns.drop_first())
    }
}

/// Records of some lines past a point and then of more are the records of all of them.
proof fn lemma_records_onward(
    selection: Cutting,
    config: Writing,
    early: Seq<Seq<u8>>,
    late: Seq<Seq<u8>>,
    seen: int,
)
    requires
        0 <= seen <= early.len() <= late.len(),
        late.subrange(0, early.len() as int) == early,
    ensures
        records(selection, config, late.subrange(seen, late.len() as int), seen as nat) == records(
            selection,
            config,
            early.subrange(seen, early.len() as int),
            seen as nat,
        ) + records(
            selection,
            config,
            late.subrange(early.len() as int, late.len() as int),
            early.len(),
        ),
{
    let one = early.subrange(seen, early.len() as int);
    let two = late.subrange(early.len() as int, late.len() as int);
    assert(late.subrange(seen, late.len() as int) =~= one + two) by {
        assert forall|i: int| 0 <= i < one.len() implies late[seen + i] == #[trigger] one[i] by {
            assert(late.subrange(0, early.len() as int)[seen + i] == early[seen + i]);
        }
    }
    records_join(selection, config, one, two, seen as nat);
}

/// A streamed extraction takes no more turns than its input has bytes, and one for its end. Each asks
/// for at least a byte. What they wrote are the records of the lines they went past.
pub proof fn a_streamed_extraction_comes_to_its_end<'a>(
    input: Seq<u8>,
    from: ColsStream<'a>,
    turns: Seq<Turn<'a>>,
    last: ColsStream<'a>,
)
    requires
        input.len() < usize::MAX,
        from.wf(),
        from.read().is_prefix_of(input),
        from.ended() ==> from.read() == input,
        turns_of(input, from, turns, last),
    ensures
        last.wf(),
        last.alike(from),
        last.read().is_prefix_of(input),
        last.ended() ==> last.read() == input,
        forall|i: int| 0 <= i < turns.len() ==> (#[trigger] turns[i]).room > 0,
        turns.len() <= input.len() - from.read().len() + if from.ended() {
            0int
        } else {
            1int
        },
        ({
            let seen = from.behind().len() as int;
            let now = last.behind();
            &&& seen <= now.len()
            &&& now.subrange(0, seen) == from.behind()
            &&& written_in(turns) == records(
                from.selection()@,
                from.config()@,
                now.subrange(seen, now.len() as int),
                seen as nat,
            )
        }),
    decreases turns.len(),
{
    let seen = from.behind().len() as int;
    if turns.len() > 0 {
        let turn = turns[0];
        let later = turns.drop_first();
        let at = from.read().len() as int;
        from.lemma_standing();
        lemma_settled(from.read(), cut_for(from.newlines()), from.standing());
        assert(turn.given.read() =~= input.subrange(0, at + turn.data.len()));
        assert(turn.given.ended() ==> turn.given.read() =~= input);
        a_streamed_extraction_comes_to_its_end(input, turn.given, later, last);
        assert forall|i: int| 0 <= i < turns.len() implies (#[trigger] turns[i]).room > 0 by {
            if i > 0 {
                assert(turns[i] == later[i - 1]);
            }
        }
        let middle = turn.given.behind();
        let now = last.behind();
        lemma_records_onward(from.selection()@, from.config()@, middle, now, seen);
        assert(now.subrange(0, seen) =~= middle.subrange(0, seen)) by {
            assert forall|i: int| 0 <= i < seen implies now[i] == #[trigger] middle[i] by {
                assert(now.subrange(0, middle.len() as int)[i] == middle[i]);
            }
        }
    } else {
        assert(from.behind().subrange(0, seen) =~= from.behind());
        assert(from.behind().subrange(seen, seen) =~= Seq::<Seq<u8>>::empty());
    }
}

/// A stream gives the records that its bytes give at once: however wide the window and whatever the
/// reads gave, an extraction that ran until nothing more was needed has written the records of every
/// line of `input`, and counted them.
pub proof fn a_streamed_extraction_writes_every_record<'a>(
    input: Seq<u8>,
    from: ColsStream<'a>,
    turns: Seq<Turn<'a>>,
    last: ColsStream<'a>,
    rest: Seq<u8>,
    done: ColsStream<'a>,
)
    requires
        input.len() < usize::MAX,
        from.wf(),
        from.read() == Seq::<u8>::empty(),
        from.behind() == Seq::<Seq<u8>>::empty(),
        !from.ended(),
        turns_of(input, from, turns, last),
        ColsStream::advances(last, done, rest, Need::Done),
    ensures
        done.wf(),
        done.alike(from),
        done.read() == input,
        done.behind() == line_texts(input, from.newlines()),
        written_in(turns) + rest == records(
            from.selection()@,
            from.config()@,
            line_texts(input, from.newlines()),
            0,
        ),
{
    assert(from.read().is_prefix_of(input));
    a_streamed_extraction_comes_to_its_end(input, from, turns, last);
    last.lemma_standing();
    lemma_settled(last.read(), cut_for(last.newlines()), last.standing());
    let all = done.behind();
    lemma_records_onward(from.selection()@, from.config()@, last.behind(), all, 0);
    assert(all.subrange(0, all.len() as int) =~= all);
}

} // verus!
