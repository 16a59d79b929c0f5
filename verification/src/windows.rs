//! Reading an input through windows: one slice where it arrives whole, and a refilled buffer
//! where it streams. The reading itself is the caller's; what is decided here is when to read,
//! how much, and which bytes make a window.

use vstd::prelude::*;
use vstd::slice::slice_to_vec;

use crate::cuts::{cut_point, last_cut, CutAfter};
use crate::sz::{absorb, absorbed, digest, hash_of, hasher};

verus! {

/// Starting [`Refill`] capacity: large enough to amortize the read, small enough that the filled
/// window stays in cache between the read and the scan.
pub const DEFAULT_WINDOW_BYTES: usize = 262_144;

/// What a streamed walk asks of its caller, or hands to it.
#[derive(Clone, Copy, PartialEq, Eq, Structural, Debug)]
pub enum Next {
    /// Read at most this many bytes, supply them, and ask again.
    Read { room: usize },
    /// The first `end` bytes in view are the next window, and `start` is where they stand in the
    /// input.
    Window { start: usize, end: usize },
    /// Nothing is left.
    End,
}

/// A caller-driven byte window over a stream, reused for the whole stream, with the caller
/// choosing how much carries by choosing how much to consume.
///
/// It is filled to capacity or to the end of the input before anything is decided, so a caller can
/// demand a whole record and get one.
pub struct Refill {
    window: Vec<u8>,
    capacity: usize,
    reached_eof: bool,
    /// Hashes the stream as it arrives, when a caller asked for a whole-input hash.
    hasher: Option<stringzilla::sz::Hasher>,
    passed: Ghost<Seq<u8>>,
}

impl Refill {
    /// The bytes in the window never outgrow it, and a hash covers every byte that was read.
    pub closed spec fn wf(&self) -> bool {
        &&& self.window@.len() <= self.capacity
        &&& 0 < self.capacity
        &&& self.hasher matches Some(state) ==> absorbed(state) == self.passed@ + self.window@
    }

    /// The bytes in the window.
    pub closed spec fn in_view(&self) -> Seq<u8> {
        self.window@
    }

    /// The bytes consumed so far.
    pub closed spec fn passed(&self) -> Seq<u8> {
        self.passed@
    }

    /// Everything read so far.
    pub open spec fn read(&self) -> Seq<u8> {
        self.passed() + self.in_view()
    }

    /// The window size.
    pub closed spec fn size(&self) -> usize {
        self.capacity
    }

    /// Whether the end of the input was reported.
    pub closed spec fn ended(&self) -> bool {
        self.reached_eof
    }

    /// Whether the stream is hashed as it arrives.
    pub closed spec fn hashing(&self) -> bool {
        self.hasher is Some
    }

    /// What a read does to a window: its bytes stand behind those in view, and a read of none is the
    /// end of the input.
    pub open spec fn supplies(before: Self, after: Self, data: Seq<u8>) -> bool {
        &&& after.wf()
        &&& after.in_view() == before.in_view() + data
        &&& after.passed() == before.passed()
        &&& after.size() == before.size()
        &&& after.ended() == (before.ended() || data.len() == 0)
        &&& after.hashing() == before.hashing()
    }

    /// What consuming the first bytes in view does to a window.
    pub open spec fn advances(before: Self, after: Self, consumed: int) -> bool {
        &&& after.wf()
        &&& after.in_view() == before.in_view().subrange(consumed, before.in_view().len() as int)
        &&& after.passed() == before.passed() + before.in_view().subrange(0, consumed)
        &&& after.read() == before.read()
        &&& after.size() == before.size()
        &&& after.ended() == before.ended()
        &&& after.hashing() == before.hashing()
    }

    /// What asking a window for what comes next does to it: it is widened where no record ends in
    /// it, and unchanged otherwise.
    pub open spec fn offers(before: Self, after: Self, cut: CutAfter, next: Offer) -> bool {
        &&& after.wf()
        &&& after.in_view() == before.in_view()
        &&& after.passed() == before.passed()
        &&& after.ended() == before.ended()
        &&& after.hashing() == before.hashing()
        &&& next == offered(before.in_view(), before.size(), before.ended(), cut)
        &&& after.size() == match next {
            Offer::Widen { capacity } => capacity,
            _ => before.size(),
        }
    }

    /// A window always has room for a byte, and never holds more than fits.
    pub proof fn lemma_size(&self)
        requires
            self.wf(),
        ensures
            0 < self.size(),
            self.in_view().len() <= self.size(),
    {
    }

    /// A window of `capacity` bytes, rounded up to one byte.
    pub fn new(capacity: usize) -> (refill: Self)
        ensures
            refill.wf(),
            refill.in_view() == Seq::<u8>::empty(),
            refill.passed() == Seq::<u8>::empty(),
            refill.size() == if capacity == 0 {
                1
            } else {
                capacity
            },
            !refill.ended(),
            !refill.hashing(),
    {
        Refill {
            window: Vec::new(),
            capacity: if capacity == 0 {
                1
            } else {
                capacity
            },
            reached_eof: false,
            hasher: None,
            passed: Ghost(Seq::empty()),
        }
    }

    /// Hash the stream as it is read, so a whole-input hash costs no second pass and no buffer
    /// holding the input. A hash covers bytes that have not gone past yet, so a stream is hashed
    /// from its first byte or not at all.
    pub fn hash_stream(&mut self)
        requires
            old(self).wf(),
            old(self).read() == Seq::<u8>::empty(),
            !old(self).ended(),
        ensures
            final(self).wf(),
            final(self).hashing(),
            final(self).in_view() == old(self).in_view(),
            final(self).passed() == old(self).passed(),
            final(self).size() == old(self).size(),
            final(self).ended() == old(self).ended(),
    {
        if self.hasher.is_none() {
            self.hasher = Some(hasher());
            assert(self.passed@ + self.window@ =~= Seq::<u8>::empty());
        }
    }

    /// The hash of everything read so far, the same that hashing those bytes at once gives.
    ///
    /// A run that stops early has read less than the input holds, so this describes what was read
    /// rather than what the writer still has to give.
    pub fn digest(&self) -> (value: Option<u64>)
        requires
            self.wf(),
        ensures
            value == if self.hashing() {
                Some(hash_of(self.read()))
            } else {
                None
            },
    {
        match &self.hasher {
            Some(state) => Some(digest(state)),
            None => None,
        }
    }

    /// The bytes currently in the window.
    pub fn filled(&self) -> (data: &[u8])
        ensures
            data@ == self.in_view(),
    {
        self.window.as_slice()
    }

    /// Whether the end of the input was reported.
    pub fn at_eof(&self) -> (ended: bool)
        ensures
            ended == self.ended(),
    {
        self.reached_eof
    }

    /// The window size, which [`Refill::grow`] is the only way to change.
    pub fn capacity(&self) -> (capacity: usize)
        ensures
            capacity == self.size(),
    {
        self.capacity
    }

    /// How many more bytes the window has room for.
    pub fn room(&self) -> (room: usize)
        requires
            self.wf(),
        ensures
            room == self.size() - self.in_view().len(),
    {
        self.capacity - self.window.len()
    }

    /// Take what one read gave: some bytes, or none at the end of the input.
    pub fn supply(&mut self, data: &[u8])
        requires
            old(self).wf(),
            data@.len() <= old(self).size() - old(self).in_view().len(),
        ensures
            Self::supplies(*old(self), *final(self), data@),
    {
        let ghost before = self.read();
        if data.len() == 0 {
            self.reached_eof = true;
            assert(self.window@ + data@ =~= self.window@);
            return;
        }
        match self.hasher.take() {
            Some(mut state) => {
                absorb(&mut state, data);
                self.hasher = Some(state);
            },
            None => {},
        }
        self.window.extend_from_slice(data);
        assert(self.passed@ + self.window@ =~= before + data@);
        assert(self.in_view() =~= old(self).in_view() + data@);
    }

    /// Drop the first `consumed` bytes, slide the rest down, and answer how many bytes are wanted
    /// now: enough to fill the window, or none once the input has ended.
    pub fn advance(&mut self, consumed: usize) -> (wanted: usize)
        requires
            old(self).wf(),
            consumed <= old(self).in_view().len(),
        ensures
            Self::advances(*old(self), *final(self), consumed as int),
            wanted == if old(self).ended() {
                0
            } else {
                final(self).size() - final(self).in_view().len()
            },
    {
        let ghost whole = self.window@;
        let ghost earlier = self.passed@;
        let rest: Vec<u8> = slice_to_vec(&self.window.as_slice()[consumed..self.window.len()]);
        self.window = rest;
        self.passed = Ghost(earlier + whole.subrange(0, consumed as int));
        assert(self.passed@ + self.window@ =~= earlier + whole);
        if self.reached_eof {
            0
        } else {
            self.capacity - self.window.len()
        }
    }

    /// Double the window, so peak memory tracks the widest record rather than the input. At the
    /// end of the input there is nothing left to widen it for.
    pub fn grow(&mut self)
        requires
            old(self).wf(),
            !old(self).ended(),
        ensures
            final(self).wf(),
            final(self).size() == if 2 * old(self).size() <= usize::MAX {
                2 * old(self).size()
            } else {
                usize::MAX as int
            },
            final(self).in_view() == old(self).in_view(),
            final(self).passed() == old(self).passed(),
            final(self).ended() == old(self).ended(),
            final(self).hashing() == old(self).hashing(),
    {
        self.capacity = if self.capacity <= usize::MAX / 2 {
            self.capacity * 2
        } else {
            usize::MAX
        };
    }

    /// What comes next, for a caller that has consumed what it was done with: more bytes while the
    /// window has room and the input has not ended, the end where nothing is left, and otherwise
    /// the widest prefix that cuts no record, or everything where the input has ended. A record
    /// wider than the window widens the window.
    pub fn offer(&mut self, cut: CutAfter) -> (next: Offer)
        requires
            old(self).wf(),
        ensures
            Self::offers(*old(self), *final(self), cut, next),
    {
        if !self.reached_eof && self.window.len() < self.capacity {
            Offer::Fill { room: self.capacity - self.window.len() }
        } else if self.window.len() == 0 {
            Offer::End
        } else if self.reached_eof {
            Offer::Window { end: self.window.len() }
        } else {
            match last_cut(self.window.as_slice(), cut) {
                Some(end) => Offer::Window { end },
                None => {
                    self.grow();
                    Offer::Widen { capacity: self.capacity }
                },
            }
        }
    }
}

/// What a filled or unfilled window is good for.
#[derive(Clone, Copy, PartialEq, Eq, Structural, Debug)]
pub enum Offer {
    /// There is room for this many more bytes.
    Fill { room: usize },
    /// No record ends in the window, which was widened to this many bytes.
    Widen { capacity: usize },
    /// This many bytes hold whole records.
    Window { end: usize },
    /// Nothing is left.
    End,
}

/// The decision [`Refill::offer`] takes.
pub open spec fn offered(in_view: Seq<u8>, size: usize, ended: bool, cut: CutAfter) -> Offer {
    if !ended && in_view.len() < size {
        Offer::Fill { room: (size - in_view.len()) as usize }
    } else if in_view.len() == 0 {
        Offer::End
    } else if ended {
        Offer::Window { end: in_view.len() as usize }
    } else {
        match cut_point(in_view, cut) {
            Some(end) => Offer::Window { end: end as usize },
            None => Offer::Widen {
                capacity: if 2 * size <= usize::MAX {
                    (2 * size) as usize
                } else {
                    usize::MAX
                },
            },
        }
    }
}

/// One walk over an input's bytes, whether it arrived whole or has to be streamed.
///
/// An input that arrives whole yields one window covering everything; a stream yields as many as
/// it takes. Each window comes with where it starts, so a caller that reports absolute positions
/// does not have to accumulate one itself.
pub enum Windows<'a> {
    /// Every byte at once.
    Whole {
        data: &'a [u8],
        walked: bool,
        /// Bytes the caller has finished with, so a prefix taken first leaves the rest.
        taken: usize,
    },
    /// Bytes as they arrive.
    Stream {
        refill: Refill,
        base: usize,
        /// Whether the last window was not enough for the caller.
        stalled: bool,
    },
}

impl<'a> Windows<'a> {
    pub open spec fn wf(&self) -> bool {
        match self {
            Windows::Whole { data, taken, .. } => taken <= data@.len(),
            Windows::Stream { refill, base, .. } => refill.wf() && base == refill.passed().len(),
        }
    }

    /// Whether the bytes arrive piece by piece.
    pub open spec fn streams(&self) -> bool {
        *self is Stream
    }

    /// What is in view.
    pub open spec fn in_view(&self) -> Seq<u8> {
        match self {
            Windows::Whole { data, taken, .. } => data@.subrange(
                *taken as int,
                data@.len() as int,
            ),
            Windows::Stream { refill, .. } => refill.in_view(),
        }
    }

    /// What the caller has finished with.
    pub open spec fn passed(&self) -> Seq<u8> {
        match self {
            Windows::Whole { data, taken, .. } => data@.subrange(0, *taken as int),
            Windows::Stream { refill, .. } => refill.passed(),
        }
    }

    /// Everything read so far.
    pub open spec fn read(&self) -> Seq<u8> {
        self.passed() + self.in_view()
    }

    /// Whether everything the input will ever give is already in view.
    pub open spec fn ended(&self) -> bool {
        match self {
            Windows::Whole { .. } => true,
            Windows::Stream { refill, .. } => refill.ended(),
        }
    }

    /// How wide the window of a stream is.
    pub open spec fn size(&self) -> usize {
        match self {
            Windows::Whole { .. } => 0,
            Windows::Stream { refill, .. } => refill.size(),
        }
    }

    /// Whether a stream waits for bytes because its last window was not enough.
    pub open spec fn stalled(&self) -> bool {
        match self {
            Windows::Whole { .. } => false,
            Windows::Stream { stalled, .. } => *stalled,
        }
    }

    /// Whether the bytes are hashed as they arrive.
    pub open spec fn hashing(&self) -> bool {
        match self {
            Windows::Whole { .. } => false,
            Windows::Stream { refill, .. } => refill.hashing(),
        }
    }

    /// A walk over bytes that are all here.
    pub fn over(data: &'a [u8]) -> (windows: Self)
        ensures
            windows.wf(),
            windows == (Windows::Whole { data, walked: false, taken: 0 }),
    {
        Windows::Whole { data, walked: false, taken: 0 }
    }

    /// A walk that reads through a window of `capacity` bytes, the way a pipe is read.
    pub fn streaming(capacity: usize) -> (windows: Self)
        ensures
            windows.wf(),
            windows.streams(),
            windows.read() == Seq::<u8>::empty(),
            windows.in_view() == Seq::<u8>::empty(),
            windows.passed() == Seq::<u8>::empty(),
            windows.size() == if capacity == 0 {
                1
            } else {
                capacity
            },
            !windows.stalled(),
            !windows.ended(),
            !windows.hashing(),
    {
        Windows::Stream { refill: Refill::new(capacity), base: 0, stalled: false }
    }

    /// Every byte at once, where the input could give them at once.
    pub fn whole(&self) -> (data: Option<&'a [u8]>)
        ensures
            match (self, data) {
                (Windows::Whole { data: held, .. }, Some(data)) => data == held,
                (Windows::Stream { .. }, None) => true,
                _ => false,
            },
    {
        match self {
            Windows::Whole { data, .. } => Some(*data),
            Windows::Stream { .. } => None,
        }
    }

    /// Hash the bytes as they arrive. Must be asked before the first window, since a hash
    /// installed later would miss what has already been read.
    pub fn hash_stream(&mut self)
        requires
            old(self).wf(),
            old(self).streams() ==> old(self).read() == Seq::<u8>::empty() && !old(self).ended(),
        ensures
            final(self).wf(),
            !old(self).streams() ==> *final(self) == *old(self),
            old(self).streams() ==> final(self).streams() && final(self).hashing(),
            final(self).in_view() == old(self).in_view(),
            final(self).passed() == old(self).passed(),
            final(self).ended() == old(self).ended(),
            final(self).size() == old(self).size(),
            final(self).stalled() == old(self).stalled(),
    {
        match self {
            Windows::Whole { .. } => {},
            Windows::Stream { refill, .. } => {
                refill.hash_stream();
            },
        }
    }

    /// What the stream hashed, once it has been walked to the end.
    pub fn digest(&self) -> (value: Option<u64>)
        requires
            self.wf(),
        ensures
            value == if self.hashing() {
                Some(hash_of(self.read()))
            } else {
                None
            },
    {
        match self {
            Windows::Whole { .. } => None,
            Windows::Stream { refill, .. } => refill.digest(),
        }
    }

    /// What is in view right now.
    pub fn filled(&self) -> (data: &[u8])
        requires
            self.wf(),
        ensures
            data@ == self.in_view(),
    {
        match self {
            Windows::Whole { data, taken, .. } => &data[*taken..data.len()],
            Windows::Stream { refill, .. } => refill.filled(),
        }
    }

    /// Whether everything the input will ever give is already in view.
    pub fn at_eof(&self) -> (ended: bool)
        ensures
            ended == self.ended(),
    {
        match self {
            Windows::Whole { .. } => true,
            Windows::Stream { refill, .. } => refill.at_eof(),
        }
    }

    /// How many bytes to read and supply so that a caller can judge what it has before deciding how
    /// much to take: none where the window is full, the input has ended, or all of it is here.
    pub fn fill(&self) -> (wanted: usize)
        requires
            self.wf(),
        ensures
            wanted == match self {
                Windows::Stream { refill, .. } => if refill.ended() {
                    0
                } else {
                    refill.size() - refill.in_view().len()
                },
                Windows::Whole { .. } => 0,
            },
    {
        match self {
            Windows::Whole { .. } => 0,
            Windows::Stream { refill, .. } => if refill.at_eof() {
                0
            } else {
                refill.room()
            },
        }
    }

    /// Take what one read of a stream gave: some bytes, or none at the end of the input.
    pub fn supply(&mut self, data: &[u8])
        requires
            old(self).wf(),
            *old(self) matches Windows::Stream { refill, .. } && data@.len() <= refill.size()
                - refill.in_view().len(),
        ensures
            final(self).wf(),
            final(self).streams(),
            final(self).in_view() == old(self).in_view() + data@,
            final(self).passed() == old(self).passed(),
            final(self).ended() == (old(self).ended() || data@.len() == 0),
            final(self).size() == old(self).size(),
            final(self).stalled() == old(self).stalled(),
            final(self).hashing() == old(self).hashing(),
    {
        match self {
            Windows::Whole { .. } => {},
            Windows::Stream { refill, .. } => {
                refill.supply(data);
            },
        }
    }

    /// Widen the window, for a caller that needs more than one window's worth in view at once. An
    /// input that is all in view is already as wide as it gets.
    pub fn grow(&mut self)
        requires
            old(self).wf(),
        ensures
            final(self).wf(),
            final(self).in_view() == old(self).in_view(),
            final(self).passed() == old(self).passed(),
            final(self).ended() == old(self).ended(),
            final(self).hashing() == old(self).hashing(),
            old(self).ended() ==> *final(self) == *old(self),
            match (*old(self), *final(self)) {
                (Windows::Stream { refill, .. }, Windows::Stream { refill: grown, .. }) => {
                    !refill.ended() ==> grown.size() == if 2 * refill.size() <= usize::MAX {
                        2 * refill.size()
                    } else {
                        usize::MAX as int
                    }
                },
                (Windows::Whole { .. }, Windows::Whole { .. }) => true,
                _ => false,
            },
    {
        match self {
            Windows::Whole { .. } => {},
            Windows::Stream { refill, .. } => {
                if !refill.at_eof() {
                    refill.grow();
                }
            },
        }
    }

    /// The next window and where it starts, or what to do to get there.
    ///
    /// `consumed` is how much of the previous window the caller finished with: passing less than
    /// all of it is how a scanner keeps a partial record in view across a seam. Cutting only on
    /// `cut` keeps records whole, and a record wider than the window grows it. After a
    /// [`Next::Read`] the caller supplies bytes and asks [`Windows::resume`].
    pub fn next(&mut self, cut: CutAfter, consumed: usize) -> (next: Next)
        requires
            old(self).wf(),
            consumed <= old(self).in_view().len(),
            old(self).passed().len() + consumed <= usize::MAX,
        ensures
            final(self).wf(),
            final(self).streams() == old(self).streams(),
            final(self).hashing() == old(self).hashing(),
            final(self).ended() == old(self).ended(),
            final(self).read() == old(self).read(),
            match *old(self) {
                Windows::Whole { data, walked, .. } => {
                    let start = old(self).passed().len() + consumed;
                    if walked && (consumed == 0 || start >= data@.len()) {
                        next == Next::End && *final(self) == *old(self)
                    } else {
                        &&& next == (Next::Window {
                            start: start as usize,
                            end: (data@.len() - start) as usize,
                        })
                        &&& *final(self) == (Windows::Whole {
                            data,
                            walked: true,
                            taken: start as usize,
                        })
                    }
                },
                Windows::Stream { refill, .. } => {
                    &&& final(self).passed() == old(self).passed() + old(self).in_view().subrange(
                        0,
                        consumed as int,
                    )
                    &&& final(self).in_view() == old(self).in_view().subrange(
                        consumed as int,
                        old(self).in_view().len() as int,
                    )
                    &&& final(self).answers(
                        next,
                        cut,
                        refill.size(),
                        consumed == 0 && refill.in_view().len() > 0,
                    )
                },
            },
    {
        let ghost whole_read = self.read();
        match self {
            Windows::Whole { data, walked, taken } => {
                let start: usize = *taken + consumed;
                // Everything is in view already, so a caller that consumed nothing has seen all
                // there is.
                if *walked && (consumed == 0 || start >= data.len()) {
                    return Next::End;
                }
                *taken = start;
                *walked = true;
                let end: usize = data.len() - start;
                assert(data@.subrange(0, start as int) + data@.subrange(
                    start as int,
                    data@.len() as int,
                ) =~= data@);
                assert(whole_read =~= data@);
                return Next::Window { start, end };
            },
            Windows::Stream { refill, base, stalled } => {
                // Consuming nothing says the last window was not enough, so the window has to
                // widen before it is handed back: otherwise the caller sees it again forever.
                *stalled = consumed == 0 && refill.filled().len() > 0;
                *base = *base + consumed;
                refill.advance(consumed);
            },
        }
        self.resume(cut)
    }

    /// Whether `next` is what a stream with this much in view owes its caller, given how wide the
    /// window was and whether the last window was not enough.
    pub open spec fn answers(&self, next: Next, cut: CutAfter, size: usize, stalled: bool) -> bool {
        match self {
            Windows::Whole { .. } => false,
            Windows::Stream { refill, base, stalled: waiting } => {
                let widened = if 2 * size <= usize::MAX {
                    (2 * size) as usize
                } else {
                    usize::MAX
                };
                let seen = refill.in_view();
                match offered(seen, size, refill.ended(), cut) {
                    Offer::Fill { room } => next == (Next::Read { room }) && refill.size() == size
                        && *waiting == stalled,
                    Offer::End => next == Next::End && refill.size() == size,
                    Offer::Window { end } => if stalled && !refill.ended() {
                        next == (Next::Read { room: (widened - seen.len()) as usize })
                            && refill.size() == widened && !*waiting
                    } else {
                        next == (Next::Window { start: *base, end }) && refill.size() == size
                    },
                    Offer::Widen { capacity } => next == (Next::Read {
                        room: (widened - seen.len()) as usize,
                    }) && refill.size() == widened && !*waiting,
                }
            },
        }
    }

    /// The answer to a [`Windows::next`] that asked for more bytes, once they were supplied.
    pub fn resume(&mut self, cut: CutAfter) -> (next: Next)
        requires
            old(self).wf(),
            old(self).streams(),
        ensures
            final(self).wf(),
            final(self).streams(),
            final(self).in_view() == old(self).in_view(),
            final(self).passed() == old(self).passed(),
            final(self).ended() == old(self).ended(),
            final(self).hashing() == old(self).hashing(),
            *old(self) matches Windows::Stream { refill, stalled, .. } && final(self).answers(
                next,
                cut,
                refill.size(),
                stalled,
            ),
    {
        match self {
            Windows::Whole { .. } => Next::End,
            Windows::Stream { refill, base, stalled } => {
                if *stalled && refill.filled().len() > 0 && !refill.at_eof() && refill.room()
                    == 0 {
                    *stalled = false;
                    refill.grow();
                    return Next::Read { room: refill.room() };
                }
                match refill.offer(cut) {
                    Offer::Fill { room } => Next::Read { room },
                    Offer::Widen { .. } => {
                        *stalled = false;
                        Next::Read { room: refill.room() }
                    },
                    Offer::Window { end } => Next::Window { start: *base, end },
                    Offer::End => Next::End,
                }
            },
        }
    }
}

/// The windows of a walk tile its input: a window starts where everything consumed before it ends,
/// holds the bytes that stand there, and never reaches past what has been read. Unless the input
/// has ended, it cuts no record.
pub proof fn windows_tile_the_input(windows: Windows<'_>, next: Next, cut: CutAfter, size: usize, stalled: bool)
    requires
        windows.wf(),
        windows.answers(next, cut, size, stalled),
        next is Window,
    ensures
        next matches Next::Window { start, end } && {
            &&& start == windows.passed().len()
            &&& start + end <= windows.read().len()
            &&& windows.read().subrange(start as int, start + end) == windows.in_view().subrange(
                0,
                end as int,
            )
            &&& 0 < end
            &&& windows.ended() && end == windows.in_view().len() || cut_point(
                windows.in_view(),
                cut,
            ) == Some(end as int)
        },
{
    let seen = windows.in_view();
    crate::cuts::lemma_cut_point(seen, cut);
    match next {
        Next::Window { start, end } => {
            assert(windows.read().subrange(start as int, start + end) =~= seen.subrange(
                0,
                end as int,
            ));
        },
        _ => {},
    }
}

} // verus!
