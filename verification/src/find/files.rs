//! Searching one input: at once where it arrives whole, and window by window where it streams.

use vstd::prelude::*;
use vstd::utf8::encode_utf8;

use crate::cuts::{cut_for, cut_point, lemma_cut_point, CutAfter};
use crate::hashing::content_hash;
use crate::walks::{beginning, reads, Standing};
use crate::windows::{windows_tile_the_input, Next, Offer, Windows};

use super::closing::{json_end, print_json_end};
use super::multiline::{closing_hash, lines_counted, multiline_task, search_multiline, swept};
use super::options::{Field, HashPlacement, Reporting};
use super::search::{reached, Search};
use super::window::{
    search_window, searched, streaming_changes_nothing, task_of, walk, window_lines, FileResult,
    FindState, Progress, Seen, Stop, Task, Walked,
};

verus! {

/// Whether a stream can be searched through a bounded window rather than drained whole.
///
/// A multiline search reads the whole input backward, and the look-behind ring holds
/// window-relative spans that dangle once the window moves, so those two keep every byte. A heading
/// is written on the first match, long before a stream reaches the bytes a file's hash covers. JSON
/// names the file again when it closes it, which a stream does reach.
pub open spec fn streamable(multiline: bool, reporting: Reporting) -> bool {
    &&& !multiline
    &&& reporting.places_hash() != HashPlacement::Heading
    &&& reporting.surrounds().before == 0
}

/// Whether a stream can be searched through a bounded window rather than drained whole.
pub fn can_stream(search: &Search<'_>, reporting: &Reporting) -> (yes: bool)
    ensures
        yes == streamable(search.multiline, *reporting),
{
    !search.multiline && reporting.hash_placement() != HashPlacement::Heading && match reporting {
        Reporting::PrintContext(_, context) => context.before == 0,
        _ => true,
    }
}

/// A search that has seen no line.
pub open spec fn fresh() -> Progress {
    Progress { matches: 0, lines: 0, headed: false, pending: 0, last: None, behind: Seq::empty() }
}

/// The task of searching an input that is all here: a heading names the input itself.
pub open spec fn whole_task(
    path: &str,
    search: &Search<'_>,
    reporting: &Reporting,
    data: Seq<u8>,
) -> Task {
    multiline_task(path, search, reporting, data)
}

/// What searching an input that is all here writes and counts.
pub ghost struct Found {
    pub bytes: Seq<u8>,
    pub matches: nat,
    pub lines: nat,
    pub flow: Option<Stop>,
}

/// What searching an input that is all here writes and counts: line by line, or across lines.
pub open spec fn found_in(
    path: &str,
    search: &Search<'_>,
    reporting: &Reporting,
    data: Seq<u8>,
) -> Found {
    let task = whole_task(path, search, reporting, data);
    if search.multiline {
        let done = swept(task, data);
        let counted = lines_counted(search.line_counting, data);
        Found {
            bytes: done.bytes + json_end(
                encode_utf8(path@),
                *reporting,
                done.headed,
                done.matches,
                counted,
                closing_hash(*reporting, done.headed, data),
            ),
            matches: done.matches,
            lines: counted,
            // Reaching the cap ends the walk over the rest, but only with input still unread.
            flow: if reached(done.matches, search.max_matches) && done.scanned < data.len() {
                Some(Stop::MaxMatches)
            } else {
                None
            },
        }
    } else {
        let done = walk(task, window_lines(data, 0, search.newlines), fresh());
        Found {
            bytes: done.bytes + json_end(
                encode_utf8(path@),
                *reporting,
                done.progress.headed,
                done.progress.matches,
                done.progress.lines,
                closing_hash(*reporting, done.progress.headed, data),
            ),
            matches: done.progress.matches,
            lines: done.progress.lines,
            flow: done.stop,
        }
    }
}

/// Search an input that is all here, folding every line into one file's totals.
pub fn search_whole(
    data: &[u8],
    path: &str,
    search: &Search<'_>,
    reporting: &Reporting,
    out: &mut Vec<u8>,
) -> (result: FileResult)
    requires
        search.wf(),
        data@.len() < usize::MAX,
    ensures
        ({
            let found = found_in(path, search, reporting, data@);
            &&& final(out)@ == old(out)@ + found.bytes
            &&& result.match_count == found.matches
            &&& result.lines_searched == found.lines
            &&& result.bytes_searched == data@.len()
            &&& result.flow == found.flow
        }),
        result.match_count <= data@.len(),
        result.lines_searched <= data@.len() + 1,
{
    broadcast use crate::bytes::group_append;

    if search.multiline {
        return search_multiline(data, path, search, reporting, out);
    }
    let placement = reporting.hash_placement();
    let heading_hash = if placement == HashPlacement::Heading {
        Some(data)
    } else {
        None
    };
    let mut state = FindState::new(reporting.context());
    assert(state.progress(data@) =~= fresh());
    let flow = search_window(data, path, search, reporting, &mut state, out, heading_hash);
    let file_hash = if state.printed_heading && placement == HashPlacement::ClosingRecord {
        Some(content_hash(data))
    } else {
        None
    };
    print_json_end(
        out,
        path,
        reporting,
        state.printed_heading,
        state.match_count,
        state.lines_searched,
        file_hash,
    );
    state.result(data.len(), flow)
}

/// What a streamed search asks of its caller.
#[derive(Clone, Copy, Debug, PartialEq, Eq, Structural)]
pub enum Need {
    /// Read at most this many bytes, supply them, and go on.
    Read { room: usize },
    /// Nothing more.
    Done,
}

/// Whether searching everything read so far and then `more` amounts to what was written and then to
/// what the unsearched rest adds.
pub open spec fn account(
    task: Task,
    read: Seq<u8>,
    ahead: Seq<u8>,
    written: Seq<u8>,
    now: Progress,
    flow: Option<Stop>,
    more: Seq<u8>,
) -> bool {
    let whole = searched(task, read + more, 0, fresh());
    match flow {
        Some(_) => whole.bytes == written && whole.progress == now && whole.stop == flow,
        None => {
            let rest = searched(task, ahead + more, read.len() - ahead.len(), now);
            &&& whole.bytes == written + rest.bytes
            &&& whole.progress == rest.progress
            &&& whole.stop == rest.stop
        },
    }
}

/// Searching a window and then everything behind it is searching it all.
proof fn lemma_window_first(
    task: Task,
    ahead: Seq<u8>,
    more: Seq<u8>,
    base: nat,
    now: Progress,
    end: int,
)
    requires
        cut_point(ahead, cut_for(task.newlines)) == Some(end),
    ensures
        ({
            let first = searched(task, ahead.subrange(0, end), base as int, now);
            let whole = searched(task, ahead + more, base as int, now);
            if first.stop is Some {
                whole == first
            } else {
                let rest = searched(
                    task,
                    ahead.subrange(end, ahead.len() as int) + more,
                    base + end,
                    first.progress,
                );
                &&& whole.bytes == first.bytes + rest.bytes
                &&& whole.progress == rest.progress
                &&& whole.stop == rest.stop
            }
        }),
{
    lemma_cut_point(ahead, cut_for(task.newlines));
    streaming_changes_nothing(task, ahead, more, base, now);
    let tail = ahead + more;
    assert(tail.subrange(end, tail.len() as int) =~= ahead.subrange(end, ahead.len() as int)
        + more);
}

/// Searching nothing does nothing.
proof fn lemma_nothing_searched(task: Task, base: int, now: Progress)
    ensures
        searched(task, Seq::empty(), base, now) == (Walked {
            bytes: Seq::empty(),
            progress: now,
            stop: None,
        }),
{
    reveal(searched);
    assert(window_lines(Seq::<u8>::empty(), base, task.newlines) =~= Seq::<Seen>::empty());
}

/// Whether a search accounts for everything read so far, whatever the rest of the input turns out
/// to be.
pub open spec fn accounts(
    task: Task,
    read: Seq<u8>,
    ended: bool,
    ahead: Seq<u8>,
    written: Seq<u8>,
    now: Progress,
    flow: Option<Stop>,
) -> bool {
    forall|more: Seq<u8>|
        (ended ==> more.len() == 0) ==> #[trigger] account(
            task,
            read,
            ahead,
            written,
            now,
            flow,
            more,
        )
}

/// More bytes are already accounted for.
proof fn lemma_supplied(
    task: Task,
    read: Seq<u8>,
    ahead: Seq<u8>,
    written: Seq<u8>,
    now: Progress,
    flow: Option<Stop>,
    data: Seq<u8>,
    ended: bool,
)
    requires
        accounts(task, read, false, ahead, written, now, flow),
        ahead.len() <= read.len(),
    ensures
        accounts(task, read + data, ended, ahead + data, written, now, flow),
{
    assert forall|more: Seq<u8>| (ended ==> more.len() == 0) implies #[trigger] account(
        task,
        read + data,
        ahead + data,
        written,
        now,
        flow,
        more,
    ) by {
        assert(account(task, read, ahead, written, now, flow, data + more));
        assert(read + (data + more) =~= read + data + more);
        assert(ahead + (data + more) =~= ahead + data + more);
    }
}

/// Searching a window accounts for it.
proof fn lemma_searched(
    task: Task,
    read: Seq<u8>,
    ended: bool,
    ahead: Seq<u8>,
    written: Seq<u8>,
    now: Progress,
    end: int,
)
    requires
        accounts(task, read, ended, ahead, written, now, None),
        ahead.len() <= read.len(),
        ended && end == ahead.len() || cut_point(
            ahead,
            cut_for(task.newlines),
        ) == Some(end),
        0 <= end <= ahead.len(),
    ensures
        ({
            let first = searched(task, ahead.subrange(0, end), read.len() - ahead.len(), now);
            accounts(
                task,
                read,
                ended,
                ahead.subrange(end, ahead.len() as int),
                written + first.bytes,
                first.progress,
                first.stop,
            )
        }),
{
    let base = read.len() - ahead.len();
    let window = ahead.subrange(0, end);
    let later = ahead.subrange(end, ahead.len() as int);
    let first = searched(task, window, base, now);
    assert forall|more: Seq<u8>| (ended ==> more.len() == 0) implies #[trigger] account(
        task,
        read,
        later,
        written + first.bytes,
        first.progress,
        first.stop,
        more,
    ) by {
        assert(account(task, read, ahead, written, now, None, more));
        if ended && end == ahead.len() {
            assert(ahead + more =~= window);
            assert(later + more =~= Seq::empty());
            lemma_nothing_searched(task, base + end, first.progress);
            assert(written + first.bytes + Seq::<u8>::empty() =~= written + first.bytes);
        } else {
            lemma_window_first(task, ahead, more, base as nat, now, end);
            let next = searched(task, later + more, base + end, first.progress);
            assert(written + (first.bytes + next.bytes) =~= written + first.bytes + next.bytes);
        }
    }
}

/// A search that has stopped accounts for everything, however far the reading goes on.
proof fn lemma_stopped(
    task: Task,
    read: Seq<u8>,
    ended: bool,
    ahead: Seq<u8>,
    later: Seq<u8>,
    written: Seq<u8>,
    now: Progress,
    flow: Option<Stop>,
)
    requires
        accounts(task, read, ended, ahead, written, now, flow),
        flow is Some,
    ensures
        accounts(task, read, ended, later, written, now, flow),
{
    assert forall|more: Seq<u8>| (ended ==> more.len() == 0) implies #[trigger] account(
        task,
        read,
        later,
        written,
        now,
        flow,
        more,
    ) by {
        assert(account(task, read, ahead, written, now, flow, more));
    }
}

/// Where a streamed search stands: where its walk stands, what of the window was searched and is not
/// dropped yet, whether it waits for bytes, and if so whether it will widen the window before it
/// takes anything of it, and what it has counted, written and stopped at.
pub ghost struct Hunt {
    pub standing: Standing,
    pub taken: int,
    pub waiting: bool,
    pub unmet: bool,
    pub progress: Progress,
    pub written: Seq<u8>,
    pub stop: Option<Stop>,
}

impl Hunt {
    /// Whether the window is widened before anything of it is taken. Bytes that were brought into
    /// view before the search first asked for any were not enough for whoever did.
    pub open spec fn widens(self) -> bool {
        if self.waiting {
            self.unmet
        } else {
            self.taken == 0 && self.standing.seen > 0
        }
    }

    /// The search once it asks for bytes.
    pub open spec fn asking(self, size: usize, unmet: bool) -> Hunt {
        Hunt {
            standing: Standing { size, ..self.standing },
            taken: 0,
            waiting: true,
            unmet,
            ..self
        }
    }

    /// The search once the first `end` bytes ahead are behind it: searched, unless it has stopped.
    pub open spec fn past(self, task: Task, read: Seq<u8>, end: int) -> Hunt {
        let at = self.standing.passed;
        let window = read.subrange(at, at + end);
        let first = searched(task, window, at, self.progress);
        let behind = Hunt {
            standing: Standing {
                passed: at + end,
                seen: self.standing.seen - end,
                ..self.standing
            },
            taken: end,
            waiting: false,
            unmet: false,
            ..self
        };
        if self.stop is Some {
            behind
        } else {
            Hunt {
                progress: first.progress,
                written: self.written + first.bytes,
                stop: first.stop,
                ..behind
            }
        }
    }
}

/// Where a search of a stream through a window of `capacity` bytes begins.
pub open spec fn hunt_begins(capacity: usize) -> Hunt {
    Hunt {
        standing: beginning(capacity),
        taken: 0,
        waiting: false,
        unmet: false,
        progress: fresh(),
        written: Seq::empty(),
        stop: None,
    }
}

/// A window as wide again, as far as a machine can count.
pub open spec fn widened(size: usize) -> usize {
    if 2 * size <= usize::MAX {
        (2 * size) as usize
    } else {
        usize::MAX
    }
}

/// Where a search stands once it went as far as the bytes in view allow, and what it needs to go on.
/// It takes window after window until it stops, unless it is to reach the end of the input for the
/// file's hash, and asks for bytes only where no record ends in view.
pub open spec fn hunted(task: Task, hashes: bool, read: Seq<u8>, from: Hunt) -> (Hunt, Need)
    decreases from.standing.seen,
{
    let size = from.standing.size;
    let seen = from.standing.seen;
    match from.standing.offer(read, cut_for(task.newlines)) {
        Offer::Fill { room } => (from.asking(size, from.widens()), Need::Read { room }),
        Offer::Widen { capacity } => (
            from.asking(capacity, false),
            Need::Read { room: (capacity - seen) as usize },
        ),
        Offer::Window { end } => if from.widens() && !from.standing.ended {
            (
                from.asking(widened(size), false),
                Need::Read { room: (widened(size) - seen) as usize },
            )
        } else if 0 < end <= seen {
            let next = from.past(task, read, end as int);
            if next.stop is Some && !hashes {
                (next, Need::Done)
            } else {
                hunted(task, hashes, read, next)
            }
        } else {
            (from, Need::Done)
        },
        Offer::End => (
            Hunt { taken: 0, waiting: false, unmet: false, ..from },
            Need::Done,
        ),
    }
}

impl Hunt {
    /// A search that has nothing in view to take asks for bytes.
    proof fn lemma_asks(self, task: Task, hashes: bool, read: Seq<u8>, asking: Hunt, room: usize)
        requires
            self.standing.possible(read),
            self.standing.passed + self.standing.seen == read.len(),
            !self.standing.ended,
            read.len() <= usize::MAX,
            ({
                let size = self.standing.size;
                match self.standing.offer(read, cut_for(task.newlines)) {
                    Offer::Fill { room: free } => room == free && asking == self.asking(
                        size,
                        self.widens(),
                    ),
                    Offer::End => false,
                    Offer::Window { .. } => self.widens() && room == widened(size)
                        - self.standing.seen && asking == self.asking(widened(size), false),
                    Offer::Widen { .. } => room == widened(size) - self.standing.seen && asking
                        == self.asking(widened(size), false),
                }
            }),
        ensures
            hunted(task, hashes, read, self) == (asking, Need::Read { room }),
            room == asking.standing.size - asking.standing.seen,
            room > 0 || read.len() == usize::MAX,
    {
    }
}

/// A search that reads its input through windows, folding every line into one file's totals.
///
/// A match cannot cross a newline here — the search looks within each line — so cutting at a line
/// ending needs no carry, not even when ignoring case. The reading is the caller's.
pub struct WindowSearch<'a> {
    path: &'a str,
    search: &'a Search<'a>,
    reporting: &'a Reporting,
    windows: Windows<'a>,
    state: FindState,
    flow: Option<Stop>,
    /// How much of the bytes in view is searched.
    consumed: usize,
    /// Whether the walk is waiting for bytes.
    waiting: bool,
    written: Ghost<Seq<u8>>,
}

impl<'a> WindowSearch<'a> {
    /// What this search is to do with every line.
    pub closed spec fn task(&self) -> Task {
        task_of(self.path, self.search, self.reporting, None)
    }

    /// Everything read so far.
    pub closed spec fn read(&self) -> Seq<u8> {
        self.windows.read()
    }

    /// Where it stands.
    pub closed spec fn hunt(&self) -> Hunt {
        Hunt {
            standing: Standing {
                passed: self.state.window_base as int,
                seen: self.windows.in_view().len() - self.consumed,
                size: self.windows.size(),
                ended: self.windows.ended(),
            },
            taken: self.consumed as int,
            waiting: self.waiting,
            unmet: self.waiting && self.windows.stalled(),
            progress: self.state.progress(Seq::empty()),
            written: self.written@,
            stop: self.flow,
        }
    }

    /// Whether the end of the input was reported.
    pub open spec fn ended(&self) -> bool {
        self.hunt().standing.ended
    }

    /// Everything this search has written.
    pub open spec fn written(&self) -> Seq<u8> {
        self.hunt().written
    }

    /// What it has counted.
    pub open spec fn progress(&self) -> Progress {
        self.hunt().progress
    }

    /// Why it stopped, if it did.
    pub open spec fn stopped(&self) -> Option<Stop> {
        self.hunt().stop
    }

    /// How many bytes it has walked over, which is where the last window that it searched ends.
    pub open spec fn walked(&self) -> int {
        self.hunt().standing.passed
    }

    /// How many bytes may be supplied now.
    pub open spec fn room(&self) -> int {
        self.hunt().standing.size - self.hunt().standing.seen - self.hunt().taken
    }

    /// Whether it reads to the end of the input for the file's hash.
    pub open spec fn hashes(&self) -> bool {
        self.reporting().places_hash() != HashPlacement::Absent
    }

    /// Everything read was walked over or is in view.
    pub proof fn lemma_standing(&self)
        requires
            self.wf(),
        ensures
            self.hunt().standing.possible(self.read()),
            self.walked() + self.hunt().standing.seen == self.read().len(),
            0 <= self.hunt().taken <= self.walked(),
            self.hunt().waiting ==> self.hunt().taken == 0,
            self.read().len() <= usize::MAX,
    {
        match &self.windows {
            Windows::Stream { refill, .. } => {
                refill.lemma_size();
            },
            _ => {},
        }
    }

    /// Whether the search still wants windows: until it stopped, and to the end of the input where
    /// the file's hash is asked for, since a hash of a prefix looks exactly like a hash of the file.
    pub open spec fn going(&self) -> bool {
        self.stopped() is None || self.hashes()
    }

    /// Whether searching `input` at once writes, counts and stops at what this search has written,
    /// counted and stopped at.
    pub open spec fn finds_in(&self, input: Seq<u8>) -> bool {
        let whole = searched(self.task(), input, 0, fresh());
        &&& whole.bytes == self.written()
        &&& whole.progress == self.progress()
        &&& whole.stop == self.stopped()
    }

    /// Whether this search is done: it has read to the end unless it had no reason to, and it has
    /// found, printed and counted what searching the input at once does, however much of the input
    /// it left unread.
    pub open spec fn done(&self) -> bool {
        &&& self.going() ==> self.ended() && self.walked() == self.read().len()
        &&& self.finds_in(self.read())
        &&& forall|more: Seq<u8>|
            (self.ended() ==> more.len() == 0) ==> #[trigger] self.finds_in(self.read() + more)
    }

    pub closed spec fn reporting(&self) -> Reporting {
        *self.reporting
    }

    pub closed spec fn path(&self) -> Seq<u8> {
        encode_utf8(self.path@)
    }

    /// The search accounts for everything read, whatever the rest turns out to be.
    pub closed spec fn wf(&self) -> bool {
        &&& self.search.wf()
        &&& streamable(self.search.multiline, *self.reporting)
        &&& self.windows.wf()
        &&& self.windows.streams()
        &&& self.read().len() <= usize::MAX
        &&& self.consumed <= self.windows.in_view().len()
        &&& self.waiting ==> self.consumed == 0
        &&& self.state.window_base == self.windows.passed().len() + self.consumed
        &&& self.state.context.lines == self.reporting.surrounds()
        &&& self.state.fits(Seq::empty(), self.state.window_base as nat)
        &&& self.windows.hashing() == (self.reporting.emits() matches Some(config)
            && super::options::holds_field(config.fields, Field::FileHash))
        &&& accounts(
            self.task(),
            self.read(),
            self.windows.ended(),
            self.ahead(),
            self.written@,
            self.progress(),
            self.flow,
        )
    }

    /// What was read and is not searched yet.
    spec fn ahead(&self) -> Seq<u8> {
        self.windows.in_view().subrange(
            self.consumed as int,
            self.windows.in_view().len() as int,
        )
    }

    /// Whether two searches look for and report the same.
    pub open spec fn alike(&self, other: Self) -> bool {
        &&& self.task() == other.task()
        &&& self.path() == other.path()
        &&& self.reporting() == other.reporting()
    }

    /// What taking the bytes that one read gave does.
    pub open spec fn supplies(before: Self, after: Self, data: Seq<u8>) -> bool {
        &&& after.wf()
        &&& after.alike(before)
        &&& after.read() == before.read() + data
        &&& after.hunt() == (Hunt {
            standing: Standing {
                seen: before.hunt().standing.seen + data.len(),
                ended: data.len() == 0,
                ..before.hunt().standing
            },
            ..before.hunt()
        })
    }

    /// What searching as far as the bytes in view allow does. A search that still wants windows goes
    /// on wanting them where it asks for bytes, and asks for one at least as long as a machine has
    /// room for it.
    pub open spec fn advances(before: Self, after: Self, written: Seq<u8>, need: Need) -> bool {
        &&& after.wf()
        &&& after.alike(before)
        &&& after.read() == before.read()
        &&& (after.hunt(), need) == hunted(
            before.task(),
            before.hashes(),
            before.read(),
            before.hunt(),
        )
        &&& after.ended() == before.ended()
        &&& after.written() == before.written() + written
        &&& need matches Need::Read { room } ==> {
            &&& !after.ended()
            &&& room == after.room()
            &&& room > 0 || after.read().len() == usize::MAX
            &&& before.going() ==> after.going()
        }
        &&& need is Done ==> after.done()
    }

    /// A search of a stream, read through a window of `capacity` bytes. Where the file's hash is
    /// asked for, every byte is hashed as it arrives.
    pub fn new(
        path: &'a str,
        search: &'a Search<'a>,
        reporting: &'a Reporting,
        capacity: usize,
    ) -> (searcher: Self)
        requires
            search.wf(),
            streamable(search.multiline, *reporting),
        ensures
            searcher.wf(),
            searcher.task() == task_of(path, search, reporting, None),
            searcher.path() == encode_utf8(path@),
            searcher.reporting() == *reporting,
            searcher.read() == Seq::<u8>::empty(),
            searcher.hunt() == hunt_begins(capacity),
    {
        let mut windows = Windows::streaming(capacity);
        let hashes = match reporting.config() {
            Some(config) => config.carries(Field::FileHash),
            None => false,
        };
        if hashes {
            windows.hash_stream();
        }
        let searcher = WindowSearch {
            path,
            search,
            reporting,
            windows,
            state: FindState::new(reporting.context()),
            flow: None,
            consumed: 0,
            waiting: false,
            written: Ghost(Seq::empty()),
        };
        proof {
            let none = Seq::<u8>::empty();
            assert(searcher.progress() =~= fresh());
            assert(searcher.hunt() =~= hunt_begins(capacity));
            assert(searcher.read() =~= none);
            assert(searcher.ahead() =~= none);
            assert(searcher.windows.passed().len() == 0);
            assert forall|more: Seq<u8>| #[trigger] account(
                searcher.task(),
                none,
                none,
                none,
                fresh(),
                None,
                more,
            ) by {
                let whole = searched(searcher.task(), none + more, 0, fresh());
                assert(none + whole.bytes =~= whole.bytes);
            }
        }
        searcher
    }

    /// How many bytes to read and supply so that the window is full, none once the input has ended.
    pub fn wanted(&self) -> (wanted: usize)
        requires
            self.wf(),
        ensures
            wanted == if self.ended() {
                0
            } else {
                self.room()
            },
    {
        self.windows.fill()
    }

    /// What is in view right now, which is what a binary input is told by.
    pub fn filled(&self) -> (data: &[u8])
        requires
            self.wf(),
        ensures
            self.walked() == 0 ==> data@ == self.read(),
    {
        let data = self.windows.filled();
        assert(self.walked() == 0 ==> data@ =~= self.read());
        data
    }

    /// Take what one read gave: some bytes, or none at the end of the input.
    pub fn supply(&mut self, data: &[u8])
        requires
            old(self).wf(),
            !old(self).ended(),
            data@.len() <= old(self).room(),
            old(self).read().len() + data@.len() <= usize::MAX,
        ensures
            Self::supplies(*old(self), *final(self), data@),
    {
        let ghost read = self.read();
        let ghost ahead = self.ahead();
        self.windows.supply(data);
        proof {
            assert(self.read() =~= read + data@);
            assert(self.hunt().progress =~= old(self).hunt().progress);
            assert(self.ahead() =~= ahead + data@);
            lemma_supplied(
                self.task(),
                read,
                ahead,
                self.written@,
                self.progress(),
                self.flow,
                data@,
                self.windows.ended(),
            );
        }
    }

    /// Search as far as the bytes in view allow, and answer what is needed to go on.
    ///
    /// A run that asked for the file's hash keeps reading after the search has what it needs, but
    /// it stops searching, or the totals would count one line per remaining window.
    pub fn advance(&mut self, out: &mut Vec<u8>) -> (need: Need)
        requires
            old(self).wf(),
        ensures
            old(out)@.is_prefix_of(final(out)@),
            Self::advances(
                *old(self),
                *final(self),
                final(out)@.subrange(old(out)@.len() as int, final(out)@.len() as int),
                need,
            ),
    {
        let cut: CutAfter = CutAfter::from(self.search.newlines);
        let hashing = self.reporting.hash_placement() != HashPlacement::Absent;
        let ghost began = self.written@;
        let ghost task = self.task();
        let ghost target = hunted(task, hashing, self.read(), self.hunt());
        let ghost mut added = Seq::<u8>::empty();
        proof {
            assert(began + added =~= began);
            assert(out@ + added =~= out@);
        }
        loop
            invariant
                self.wf(),
                self.read() == old(self).read(),
                self.windows.ended() == old(self).windows.ended(),
                self.path == old(self).path,
                self.search == old(self).search,
                self.reporting == old(self).reporting,
                cut == cut_for(self.search.newlines),
                hashing == self.hashes(),
                task == self.task(),
                task.newlines == self.search.newlines,
                target == hunted(task, hashing, old(self).read(), old(self).hunt()),
                target == hunted(task, hashing, self.read(), self.hunt()),
                old(self).going() ==> self.going(),
                began == old(self).written@,
                self.written@ == began + added,
                out@ == old(out)@ + added,
            decreases 2 * self.ahead().len() + if self.waiting { 0int } else { 1int },
        {
            let ghost ahead = self.ahead();
            let ghost read = self.read();
            let ghost hunt = self.hunt();
            proof {
                self.lemma_standing();
            }
            let ghost size: usize = match &self.windows {
                Windows::Stream { refill, .. } => refill.size(),
                _ => 0,
            };
            let ghost stalled: bool = match &self.windows {
                Windows::Stream { stalled, .. } => if self.waiting {
                    *stalled
                } else {
                    self.consumed == 0 && self.windows.in_view().len() > 0
                },
                _ => false,
            };
            let next = if self.waiting {
                self.windows.resume(cut)
            } else {
                let consumed: usize = self.consumed;
                self.consumed = 0;
                self.windows.next(cut, consumed)
            };
            proof {
                assert(self.ahead() =~= ahead);
                assert(self.windows.in_view() =~= ahead);
                assert(self.windows.answers(next, cut, size, stalled));
                assert(stalled == hunt.widens());
                assert(hunt.standing.in_view(read) =~= ahead);
                assert(out@.subrange(old(out)@.len() as int, out@.len() as int) =~= added);
                lemma_cut_point(ahead, cut);
                match &self.windows {
                    Windows::Stream { refill, .. } => {
                        refill.lemma_size();
                    },
                    _ => {},
                }
            }
            match next {
                Next::Read { room } => {
                    self.waiting = true;
                    proof {
                        hunt.lemma_asks(task, hashing, read, self.hunt(), room);
                        assert(self.going() == (hunt.stop is None || hashing));
                    }
                    return Need::Read { room };
                },
                Next::End => {
                    self.waiting = false;
                    proof {
                        self.lemma_complete();
                    }
                    return Need::Done;
                },
                Next::Window { end, .. } => {
                    self.waiting = false;
                    proof {
                        windows_tile_the_input(self.windows, next, cut, size, stalled);
                    }
                    let ghost earlier = self.written@;
                    let ghost before = out@;
                    self.take_window(end, out);
                    proof {
                        let more = self.written@.subrange(
                            earlier.len() as int,
                            self.written@.len() as int,
                        );
                        assert(began + added + more =~= began + (added + more));
                        assert(old(out)@ + added + more =~= old(out)@ + (added + more));
                        added = added + more;
                        assert(self.hunt() == hunt.past(task, read, end as int));
                        assert(out@.subrange(old(out)@.len() as int, out@.len() as int) =~= added);
                    }
                    if self.flow.is_some() && !hashing {
                        proof {
                            self.lemma_complete();
                        }
                        return Need::Done;
                    }
                },
            }
        }
    }

    /// Search the first `end` bytes in view.
    fn take_window(&mut self, end: usize, out: &mut Vec<u8>)
        requires
            old(self).wf(),
            old(self).consumed == 0,
            !old(self).waiting,
            0 < end <= old(self).windows.in_view().len(),
            old(self).windows.ended() && end == old(self).windows.in_view().len() || cut_point(
                old(self).windows.in_view(),
                cut_for(old(self).search.newlines),
            ) == Some(end as int),
        ensures
            final(self).wf(),
            final(self).windows == old(self).windows,
            final(self).path == old(self).path,
            final(self).search == old(self).search,
            final(self).reporting == old(self).reporting,
            final(self).consumed == end,
            !final(self).waiting,
            final(self).hunt() == old(self).hunt().past(
                old(self).task(),
                old(self).read(),
                end as int,
            ),
            ({
                let added = final(self).written@.subrange(
                    old(self).written@.len() as int,
                    final(self).written@.len() as int,
                );
                &&& old(self).written@.len() <= final(self).written@.len()
                &&& final(self).written@ == old(self).written@ + added
                &&& final(out)@ == old(out)@ + added
            }),
    {
        let ghost task = self.task();
        let ghost ahead = self.ahead();
        let ghost view = self.windows.in_view();
        let ghost read = self.read();
        let ghost ended = self.windows.ended();
        let ghost now = self.progress();
        let ghost earlier = self.written@;
        let ghost hunt = self.hunt();
        proof {
            assert(read.subrange(
                hunt.standing.passed,
                hunt.standing.passed + end,
            ) =~= view.subrange(0, end as int));
            assert(ahead =~= view);
            assert(earlier.subrange(earlier.len() as int, earlier.len() as int) =~= Seq::<
                u8,
            >::empty());
            assert(earlier + Seq::<u8>::empty() =~= earlier);
            assert(out@ + Seq::<u8>::empty() =~= out@);
        }
        if self.flow.is_none() {
            let window: &[u8] = &self.windows.filled()[0..end];
            proof {
                assert(self.state.progress(window@) =~= now);
                assert(window@ =~= ahead.subrange(0, end as int));
            }
            let flow = search_window(
                window,
                self.path,
                self.search,
                self.reporting,
                &mut self.state,
                out,
                None,
            );
            self.flow = flow;
            proof {
                reveal(searched);
                let first = searched(task, window@, read.len() - ahead.len(), now);
                self.written = Ghost(earlier + first.bytes);
                assert(self.progress() =~= self.state.progress(window@));
                assert((earlier + first.bytes).subrange(
                    earlier.len() as int,
                    (earlier + first.bytes).len() as int,
                ) =~= first.bytes);
                lemma_searched(task, read, ended, ahead, earlier, now, end as int);
            }
        } else {
            proof {
                lemma_stopped(
                    task,
                    read,
                    ended,
                    ahead,
                    ahead.subrange(end as int, ahead.len() as int),
                    earlier,
                    now,
                    self.flow,
                );
            }
        }
        let ghost settled = self.progress();
        // Counted before the stop is honoured, so a stop still reports the window it read.
        self.state.window_base = self.state.window_base + end;
        self.consumed = end;
        proof {
            assert(self.progress() =~= settled);
            assert(self.ahead() =~= ahead.subrange(end as int, ahead.len() as int));
        }
    }

    /// A search that stopped, or that reached the end with nothing ahead, has done what searching the
    /// input at once does.
    proof fn lemma_complete(&self)
        requires
            self.wf(),
            self.flow is Some || self.ended() && self.ahead().len() == 0,
        ensures
            self.finds_in(self.read()),
            forall|more: Seq<u8>|
                (self.ended() ==> more.len() == 0) ==> #[trigger] self.finds_in(
                    self.read() + more,
                ),
    {
        let none = Seq::<u8>::empty();
        assert forall|more: Seq<u8>|
            (self.ended() ==> more.len() == 0) implies #[trigger] self.finds_in(
            self.read() + more,
        ) by {
            assert(account(
                self.task(),
                self.read(),
                self.ahead(),
                self.written@,
                self.progress(),
                self.flow,
                more,
            ));
            if self.flow is None {
                assert(self.ahead() + more =~= none);
                lemma_nothing_searched(
                    self.task(),
                    self.read().len() - self.ahead().len(),
                    self.progress(),
                );
                assert(self.written@ + none =~= self.written@);
            }
        }
        assert(self.finds_in(self.read() + none));
        assert(self.read() + none =~= self.read());
    }

    /// The totals this file contributes, once its closing record is written.
    pub fn finish(self, out: &mut Vec<u8>) -> (result: FileResult)
        requires
            self.wf(),
        ensures
            final(out)@ == old(out)@ + json_end(
                self.path(),
                self.reporting(),
                self.progress().headed,
                self.progress().matches,
                self.progress().lines,
                closing_hash(self.reporting(), self.progress().headed, self.read()),
            ),
            result.match_count == self.progress().matches,
            result.lines_searched == self.progress().lines,
            result.bytes_searched == self.walked(),
            result.flow == self.stopped(),
    {
        let closes = self.state.printed_heading && self.reporting.hash_placement()
            == HashPlacement::ClosingRecord;
        let file_hash = if closes {
            self.windows.digest()
        } else {
            None
        };
        print_json_end(
            out,
            self.path,
            self.reporting,
            self.state.printed_heading,
            self.state.match_count,
            self.state.lines_searched,
            file_hash,
        );
        // An early stop leaves the rest of a stream unread, so the total describes what was
        // searched rather than what the writer still holds.
        self.state.result(self.state.window_base, self.flow)
    }
}

/// A streamed search reports what searching its whole input at once reports, wherever the seams
/// between its windows fall and however early it stopped: the same bytes, closing record and file
/// hash included, the same counts and the same stop. What it never read is `more`.
pub proof fn a_streamed_search_reports_the_same(
    searcher: WindowSearch<'_>,
    path: &str,
    search: &Search<'_>,
    reporting: &Reporting,
    more: Seq<u8>,
)
    requires
        streamable(search.multiline, *reporting),
        searcher.task() == task_of(path, search, reporting, None),
        searcher.path() == encode_utf8(path@),
        searcher.reporting() == *reporting,
        searcher.done(),
        searcher.ended() ==> more.len() == 0,
    ensures
        ({
            let found = found_in(path, search, reporting, searcher.read() + more);
            let now = searcher.progress();
            &&& searcher.written() + json_end(
                searcher.path(),
                searcher.reporting(),
                now.headed,
                now.matches,
                now.lines,
                closing_hash(searcher.reporting(), now.headed, searcher.read()),
            ) == found.bytes
            &&& now.matches == found.matches
            &&& now.lines == found.lines
            &&& searcher.stopped() == found.flow
        }),
{
    let input = searcher.read() + more;
    assert(searcher.finds_in(input));
    reveal(searched);
    if reporting.places_hash() != HashPlacement::Absent {
        assert(input =~= searcher.read());
    }
}

/// One turn of a streamed search: what it was when it asked for `room` bytes and what it had written
/// since the turn before, the bytes that it was given, and what it was then.
pub ghost struct Turn<'a> {
    pub asked: WindowSearch<'a>,
    pub written: Seq<u8>,
    pub room: usize,
    pub data: Seq<u8>,
    pub given: WindowSearch<'a>,
}

/// Whether these are turns of searching `input`, from `from` on to `last`: each advances the search,
/// reads what it asked for, some bytes or none at the end of the input, and supplies them.
pub open spec fn turns_of<'a>(
    input: Seq<u8>,
    from: WindowSearch<'a>,
    turns: Seq<Turn<'a>>,
    last: WindowSearch<'a>,
) -> bool
    decreases turns.len(),
{
    if turns.len() == 0 {
        last == from
    } else {
        let turn = turns[0];
        let at = from.read().len() as int;
        &&& WindowSearch::advances(from, turn.asked, turn.written, Need::Read { room: turn.room })
        &&& reads(turn.room as int, input.len() - at, turn.data.len() as int)
        &&& turn.data == input.subrange(at, at + turn.data.len())
        &&& WindowSearch::supplies(turn.asked, turn.given, turn.data)
        &&& turns_of(input, turn.given, turns.drop_first(), last)
    }
}

/// What these turns wrote.
pub open spec fn written_in<'a>(turns: Seq<Turn<'a>>) -> Seq<u8>
    decreases turns.len(),
{
    if turns.len() == 0 {
        Seq::empty()
    } else {
        turns[0].written + written_in(turns.drop_first())
    }
}

/// A streamed search takes no more turns than its input has bytes, and one for its end. Each asks for
/// at least a byte, and none is taken once the search has stopped, unless the input is read to its
/// end for the file's hash.
pub proof fn a_streamed_search_comes_to_its_end<'a>(
    input: Seq<u8>,
    from: WindowSearch<'a>,
    turns: Seq<Turn<'a>>,
    last: WindowSearch<'a>,
)
    requires
        input.len() < usize::MAX,
        from.wf(),
        from.going(),
        from.read().is_prefix_of(input),
        from.ended() ==> from.read() == input,
        turns_of(input, from, turns, last),
    ensures
        last.wf(),
        last.alike(from),
        last.going(),
        last.read().is_prefix_of(input),
        last.ended() ==> last.read() == input,
        last.written() == from.written() + written_in(turns),
        forall|i: int|
            0 <= i < turns.len() ==> (#[trigger] turns[i]).room > 0 && turns[i].asked.going(),
        turns.len() <= input.len() - from.read().len() + if from.ended() {
            0int
        } else {
            1int
        },
    decreases turns.len(),
{
    if turns.len() > 0 {
        let turn = turns[0];
        let later = turns.drop_first();
        let at = from.read().len() as int;
        assert(turn.given.read() =~= input.subrange(0, at + turn.data.len()));
        assert(turn.given.ended() ==> turn.given.read() =~= input);
        a_streamed_search_comes_to_its_end(input, turn.given, later, last);
        assert forall|i: int| 0 <= i < turns.len() implies (#[trigger] turns[i]).room > 0
            && turns[i].asked.going() by {
            if i > 0 {
                assert(turns[i] == later[i - 1]);
            }
        }
        assert(from.written() + turn.written + written_in(later) =~= from.written() + (turn.written
            + written_in(later)));
    } else {
        assert(from.written() + Seq::<u8>::empty() =~= from.written());
    }
}

/// Streaming a search changes nothing of what it reports: however wide the window and whatever the
/// reads gave, a search of a stream that ran until nothing more was needed has written, its closing
/// record included, counted and stopped at what searching `input` at once does, though it may have
/// left the rest of it unread.
pub proof fn a_streamed_search_is_the_whole_search<'a>(
    input: Seq<u8>,
    from: WindowSearch<'a>,
    turns: Seq<Turn<'a>>,
    last: WindowSearch<'a>,
    rest: Seq<u8>,
    done: WindowSearch<'a>,
    path: &str,
    search: &Search<'_>,
    reporting: &Reporting,
)
    requires
        input.len() < usize::MAX,
        streamable(search.multiline, *reporting),
        from.wf(),
        from.going(),
        from.task() == task_of(path, search, reporting, None),
        from.path() == encode_utf8(path@),
        from.reporting() == *reporting,
        from.read().is_prefix_of(input),
        from.ended() ==> from.read() == input,
        from.written() == Seq::<u8>::empty(),
        turns_of(input, from, turns, last),
        WindowSearch::advances(last, done, rest, Need::Done),
    ensures
        ({
            let found = found_in(path, search, reporting, input);
            let now = done.progress();
            &&& written_in(turns) + rest + json_end(
                done.path(),
                done.reporting(),
                now.headed,
                now.matches,
                now.lines,
                closing_hash(done.reporting(), now.headed, done.read()),
            ) == found.bytes
            &&& now.matches == found.matches
            &&& now.lines == found.lines
            &&& done.stopped() == found.flow
            &&& done.going() ==> done.read() == input
        }),
{
    a_streamed_search_comes_to_its_end(input, from, turns, last);
    let at = done.read().len() as int;
    let more = input.subrange(at, input.len() as int);
    assert(input =~= done.read() + more);
    assert(written_in(turns) =~= last.written());
    a_streamed_search_reports_the_same(done, path, search, reporting, more);
}

} // verus!
