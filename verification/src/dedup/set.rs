//! An append-only hash set of line positions, open-addressed with linear probing.

use vstd::arithmetic::power2::{lemma2_to64, lemma_pow2_unfold, pow2};
use vstd::multiset::Multiset;
use vstd::prelude::*;

verus! {

/// Entry in the flat hash set.
#[derive(Clone, Copy, Debug, PartialEq, Eq, Structural)]
pub struct LineEntry {
    pub hash: u64,
    pub offset: u64,
    pub length: u64,
}

impl LineEntry {
    /// Whether the entry stands for no line: no line starts at the largest offset.
    pub open spec fn vacant(self) -> bool {
        self.offset == u64::MAX
    }

    /// The value of an empty slot.
    pub fn empty() -> (entry: Self)
        ensures
            entry.vacant(),
            entry.hash == 0,
            entry.length == u64::MAX,
    {
        LineEntry { hash: 0, offset: u64::MAX, length: u64::MAX }
    }

    /// Whether the slot holding this entry is empty.
    pub fn is_empty(&self) -> (vacant: bool)
        ensures
            vacant == self.vacant(),
    {
        self.offset == u64::MAX
    }
}

impl Default for LineEntry {
    fn default() -> (entry: Self)
        ensures
            entry.vacant(),
    {
        LineEntry::empty()
    }
}

/// How many slots a new set has.
pub const INITIAL_CAPACITY: usize = 1024;

/// Open-addressed hash set with linear probing. Doubles when the load factor exceeds 60%.
pub struct AppendOnlyFlatHashSet {
    slots: Vec<LineEntry>,
    populated_count: usize,
}

/// The entries in the first `count` slots.
pub open spec fn entries_in(slots: Seq<LineEntry>, count: int) -> Multiset<LineEntry>
    decreases count,
{
    if count <= 0 {
        Multiset::empty()
    } else if slots[count - 1].vacant() {
        entries_in(slots, count - 1)
    } else {
        entries_in(slots, count - 1).insert(slots[count - 1])
    }
}

/// The slot a hash belongs in.
pub open spec fn home_of(hash: u64, size: int) -> int {
    hash as int % size
}

/// The slot `step` slots further on, the first one following the last.
pub open spec fn slot_at(home: int, step: int, size: int) -> int {
    if home + step < size {
        home + step
    } else {
        home + step - size
    }
}

/// How many slots further on `slot` stands.
pub open spec fn distance(home: int, slot: int, size: int) -> int {
    if slot >= home {
        slot - home
    } else {
        slot - home + size
    }
}

/// Whether every entry can be reached from the slot it belongs in without passing an empty one.
pub open spec fn reachable(slots: Seq<LineEntry>) -> bool {
    forall|slot: int, step: int|
        #![trigger slots[slot], slot_at(home_of(slots[slot].hash, slots.len() as int), step, slots.len() as int)]
        0 <= slot < slots.len() && !slots[slot].vacant() && 0 <= step < distance(
            home_of(slots[slot].hash, slots.len() as int),
            slot,
            slots.len() as int,
        ) ==> !slots[slot_at(
            home_of(slots[slot].hash, slots.len() as int),
            step,
            slots.len() as int,
        )].vacant()
}

proof fn lemma_entries_len(slots: Seq<LineEntry>, count: int)
    requires
        0 <= count <= slots.len(),
    ensures
        entries_in(slots, count).len() <= count,
        (forall|slot: int| 0 <= slot < count ==> !(#[trigger] slots[slot]).vacant())
            ==> entries_in(slots, count).len() == count,
    decreases count,
{
    broadcast use vstd::multiset::group_multiset_axioms;

    if count > 0 {
        lemma_entries_len(slots, count - 1);
        assert(!slots[count - 1].vacant() ==> entries_in(slots, count).len() == entries_in(
            slots,
            count - 1,
        ).len() + 1);
    }
}

/// Filling an empty slot adds its entry.
proof fn lemma_entries_update(slots: Seq<LineEntry>, slot: int, entry: LineEntry, count: int)
    requires
        0 <= slot < slots.len(),
        0 <= count <= slots.len(),
        slots[slot].vacant(),
        !entry.vacant(),
    ensures
        entries_in(slots.update(slot, entry), count) == if slot < count {
            entries_in(slots, count).insert(entry)
        } else {
            entries_in(slots, count)
        },
    decreases count,
{
    broadcast use vstd::multiset::group_multiset_axioms;

    if count > 0 {
        lemma_entries_update(slots, slot, entry, count - 1);
        if slot < count - 1 && !slots[count - 1].vacant() {
            let before = entries_in(slots, count - 1);
            assert(before.insert(entry).insert(slots[count - 1]) =~= before.insert(
                slots[count - 1],
            ).insert(entry));
        }
    }
}

proof fn lemma_no_entries(slots: Seq<LineEntry>, count: int)
    requires
        0 <= count <= slots.len(),
        forall|slot: int| 0 <= slot < count ==> (#[trigger] slots[slot]).vacant(),
    ensures
        entries_in(slots, count) == Multiset::<LineEntry>::empty(),
    decreases count,
{
    if count > 0 {
        lemma_no_entries(slots, count - 1);
    }
}

/// `count` empty slots.
fn empty_slots(count: usize) -> (slots: Vec<LineEntry>)
    ensures
        slots@.len() == count,
        forall|slot: int| 0 <= slot < count ==> (#[trigger] slots@[slot]).vacant(),
{
    let mut slots: Vec<LineEntry> = Vec::new();
    while slots.len() < count
        invariant
            slots@.len() <= count,
            forall|slot: int| 0 <= slot < slots@.len() ==> (#[trigger] slots@[slot]).vacant(),
        decreases count - slots@.len(),
    {
        slots.push(LineEntry::empty());
    }
    slots
}

/// Whether this many entries take more than three in five of this many slots.
pub open spec fn overloads(entries: nat, slots: nat) -> bool {
    entries * 100 > slots * 60
}

/// The entries of a list that carry `hash`.
pub open spec fn carrying(all: Multiset<LineEntry>, hash: u64) -> Multiset<LineEntry> {
    all.filter(|entry: LineEntry| entry.hash == hash)
}

impl AppendOnlyFlatHashSet {
    /// Every entry can be found, and a search always comes to an end: at most three slots in five
    /// are taken, so there is always an empty one.
    pub closed spec fn wf(&self) -> bool {
        &&& INITIAL_CAPACITY <= self.slots@.len()
        &&& self.populated_count == self@.len()
        &&& self@.len() * 100 <= self.slots@.len() * 60
        &&& reachable(self.slots@)
    }

    /// How many slots there are.
    pub closed spec fn size(&self) -> nat {
        self.slots@.len()
    }

    /// What inserting an entry does to a set: the entry is in it besides what was, and its slots are
    /// doubled where they would have been overloaded, so that they are not.
    pub open spec fn inserts(before: Self, after: Self, entry: LineEntry) -> bool {
        &&& after.wf()
        &&& after@ == before@.insert(entry)
        &&& after.size() == if overloads(before@.len() + 1, before.size()) {
            2 * before.size()
        } else {
            before.size()
        }
        &&& !overloads(after@.len(), after.size())
    }

    /// Create a new hash set.
    pub fn new() -> (set: Self)
        ensures
            set.wf(),
            set@ == Multiset::<LineEntry>::empty(),
            set.size() == INITIAL_CAPACITY,
    {
        broadcast use vstd::multiset::group_multiset_axioms;

        let slots = empty_slots(INITIAL_CAPACITY);
        proof {
            lemma_no_entries(slots@, slots@.len() as int);
        }
        AppendOnlyFlatHashSet { slots, populated_count: 0 }
    }

    /// How many slots there are.
    pub fn capacity(&self) -> (capacity: usize)
        ensures
            capacity == self.size(),
    {
        self.slots.len()
    }

    /// How many entries there are.
    pub fn populated_count(&self) -> (count: usize)
        requires
            self.wf(),
        ensures
            count == self@.len(),
    {
        self.populated_count
    }

    /// The entries carrying the given hash, found by probing forward from its home slot until an
    /// empty one. The load factor stays under 60%, so an empty slot always ends it.
    pub fn find(&self, hash: u64) -> (found: Vec<LineEntry>)
        requires
            self.wf(),
        ensures
            found@.to_multiset() == carrying(self@, hash),
    {
        let size: usize = self.slots.len();
        let home: usize = (hash % (size as u64)) as usize;
        let mut found: Vec<LineEntry> = Vec::new();
        let mut step: usize = 0;
        proof {
            assert(home == home_of(hash, size as int));
            found@.to_multiset_ensures();
            assert(found@.to_multiset() =~= probed(self.slots@, hash, home as int, 0));
        }
        while step < size
            invariant
                self.wf(),
                size == self.slots@.len(),
                home < size,
                home == home_of(hash, size as int),
                step <= size,
                found@.to_multiset() == probed(self.slots@, hash, home as int, step as int),
                forall|earlier: int|
                    0 <= earlier < step ==> !self.slots@[#[trigger] slot_at(
                        home as int,
                        earlier,
                        size as int,
                    )].vacant(),
            ensures
                step <= size,
                found@.to_multiset() == probed(self.slots@, hash, home as int, step as int),
                forall|earlier: int|
                    0 <= earlier < step ==> !self.slots@[#[trigger] slot_at(
                        home as int,
                        earlier,
                        size as int,
                    )].vacant(),
                step < size ==> self.slots@[slot_at(home as int, step as int, size as int)].vacant(),
            decreases size - step,
        {
            let slot: usize = if home < size - step {
                home + step
            } else {
                home - (size - step)
            };
            assert(slot == slot_at(home as int, step as int, size as int));
            let entry: LineEntry = self.slots[slot];
            if entry.is_empty() {
                break;
            }
            if entry.hash == hash {
                let ghost earlier = found@;
                found.push(entry);
                proof {
                    earlier.to_multiset_ensures();
                }
            }
            step += 1;
        }
        proof {
            lemma_probed_all(self.slots@, hash, step as int);
            lemma_carrying(self.slots@, hash);
        }
        found
    }
}

/// The entries carrying `hash` among the first `count` slots probed from `home`.
pub open spec fn probed(slots: Seq<LineEntry>, hash: u64, home: int, count: int) -> Multiset<
    LineEntry,
>
    decreases count,
{
    if count <= 0 {
        Multiset::empty()
    } else {
        let entry = slots[slot_at(home, count - 1, slots.len() as int)];
        if !entry.vacant() && entry.hash == hash {
            probed(slots, hash, home, count - 1).insert(entry)
        } else {
            probed(slots, hash, home, count - 1)
        }
    }
}

/// The entries carrying `hash` in the slots from `from` up to `to`.
spec fn span(slots: Seq<LineEntry>, hash: u64, from: int, to: int) -> Multiset<LineEntry>
    decreases to - from,
{
    if to <= from {
        Multiset::empty()
    } else if !slots[to - 1].vacant() && slots[to - 1].hash == hash {
        span(slots, hash, from, to - 1).insert(slots[to - 1])
    } else {
        span(slots, hash, from, to - 1)
    }
}

proof fn lemma_span_joins(slots: Seq<LineEntry>, hash: u64, from: int, middle: int, to: int)
    requires
        from <= middle <= to,
    ensures
        span(slots, hash, from, to) == span(slots, hash, from, middle).add(
            span(slots, hash, middle, to),
        ),
    decreases to - middle,
{
    broadcast use vstd::multiset::group_multiset_axioms;

    if middle < to {
        lemma_span_joins(slots, hash, from, middle, to - 1);
    }
    assert(span(slots, hash, from, to) =~= span(slots, hash, from, middle).add(
        span(slots, hash, middle, to),
    ));
}

proof fn lemma_span_empty(slots: Seq<LineEntry>, hash: u64, from: int, to: int)
    requires
        forall|slot: int|
            from <= slot < to ==> (#[trigger] slots[slot]).vacant() || slots[slot].hash != hash,
    ensures
        span(slots, hash, from, to) == Multiset::<LineEntry>::empty(),
    decreases to - from,
{
    if from < to {
        lemma_span_empty(slots, hash, from, to - 1);
    }
}

/// Probing from a slot walks to the last slot and then on from the first.
proof fn lemma_probed_span(slots: Seq<LineEntry>, hash: u64, home: int, count: int)
    requires
        0 <= home < slots.len(),
        0 <= count <= slots.len(),
    ensures
        home + count <= slots.len() ==> probed(slots, hash, home, count) == span(
            slots,
            hash,
            home,
            home + count,
        ),
        home + count > slots.len() ==> probed(slots, hash, home, count) == span(
            slots,
            hash,
            home,
            slots.len() as int,
        ).add(span(slots, hash, 0, home + count - slots.len())),
    decreases count,
{
    broadcast use vstd::multiset::group_multiset_axioms;

    let size = slots.len() as int;
    if count > 0 {
        lemma_probed_span(slots, hash, home, count - 1);
        if home + count > size {
            let at = home + count - 1 - size;
            assert(slot_at(home, count - 1, size) == at);
            assert(span(slots, hash, 0, at + 1) == if !slots[at].vacant() && slots[at].hash
                == hash {
                span(slots, hash, 0, at).insert(slots[at])
            } else {
                span(slots, hash, 0, at)
            });
            assert(probed(slots, hash, home, count - 1) =~= span(slots, hash, home, size).add(
                span(slots, hash, 0, at),
            ));
            assert(probed(slots, hash, home, count) =~= span(slots, hash, home, size).add(
                span(slots, hash, 0, home + count - size),
            ));
        }
    }
}

/// Probing to the first empty slot finds every entry that carries the hash.
proof fn lemma_probed_all(slots: Seq<LineEntry>, hash: u64, step: int)
    requires
        0 < slots.len(),
        reachable(slots),
        0 <= step <= slots.len(),
        step < slots.len() ==> slots[slot_at(
            home_of(hash, slots.len() as int),
            step,
            slots.len() as int,
        )].vacant(),
    ensures
        probed(slots, hash, home_of(hash, slots.len() as int), step) == span(
            slots,
            hash,
            0,
            slots.len() as int,
        ),
{
    broadcast use vstd::multiset::group_multiset_axioms;

    let size = slots.len() as int;
    let home = home_of(hash, size);
    lemma_probed_span(slots, hash, home, step);
    lemma_span_joins(slots, hash, 0, home, size);
    // No entry that carries the hash stands behind the empty slot.
    assert forall|slot: int|
        0 <= slot < size && distance(home, slot, size) >= step implies (
    #[trigger] slots[slot]).vacant() || slots[slot].hash != hash by {
        if !slots[slot].vacant() && slots[slot].hash == hash {
            if step < distance(home, slot, size) {
                assert(!slots[slot_at(home_of(slots[slot].hash, size), step, size)].vacant());
            } else {
                assert(slot_at(home, step, size) == slot);
            }
        }
    }
    if step < size {
        if home + step <= size {
            lemma_span_empty(slots, hash, 0, home);
            lemma_span_joins(slots, hash, home, home + step, size);
            lemma_span_empty(slots, hash, home + step, size);
        } else {
            let reached = home + step - size;
            lemma_span_joins(slots, hash, 0, reached, home);
            lemma_span_empty(slots, hash, reached, home);
        }
    } else {
        let reached = home + step - size;
        assert(reached == home);
    }
    assert(probed(slots, hash, home, step) =~= span(slots, hash, 0, size));
}

/// What all slots hold under a hash is what the entries hold under it.
proof fn lemma_carrying(slots: Seq<LineEntry>, hash: u64)
    ensures
        span(slots, hash, 0, slots.len() as int) == carrying(
            entries_in(slots, slots.len() as int),
            hash,
        ),
{
    lemma_carrying_in(slots, hash, slots.len() as int);
}

proof fn lemma_carrying_in(slots: Seq<LineEntry>, hash: u64, count: int)
    requires
        0 <= count <= slots.len(),
    ensures
        span(slots, hash, 0, count) == carrying(entries_in(slots, count), hash),
    decreases count,
{
    broadcast use vstd::multiset::group_multiset_axioms;

    if count > 0 {
        lemma_carrying_in(slots, hash, count - 1);
    }
    assert(span(slots, hash, 0, count) =~= carrying(entries_in(slots, count), hash));
}

impl View for AppendOnlyFlatHashSet {
    type V = Multiset<LineEntry>;

    closed spec fn view(&self) -> Multiset<LineEntry> {
        entries_in(self.slots@, self.slots@.len() as int)
    }
}

/// Filling the first empty slot on the way keeps every entry reachable.
proof fn lemma_reachable_update(slots: Seq<LineEntry>, entry: LineEntry, step: int)
    requires
        0 < slots.len(),
        reachable(slots),
        !entry.vacant(),
        0 <= step < slots.len(),
        slots[slot_at(home_of(entry.hash, slots.len() as int), step, slots.len() as int)].vacant(),
        forall|earlier: int|
            0 <= earlier < step ==> !slots[#[trigger] slot_at(
                home_of(entry.hash, slots.len() as int),
                earlier,
                slots.len() as int,
            )].vacant(),
    ensures
        reachable(
            slots.update(
                slot_at(home_of(entry.hash, slots.len() as int), step, slots.len() as int),
                entry,
            ),
        ),
{
    let size = slots.len() as int;
    let home = home_of(entry.hash, size);
    let filled = slot_at(home, step, size);
    let next = slots.update(filled, entry);
    assert forall|slot: int, at: int|
        #![trigger next[slot], slot_at(home_of(next[slot].hash, size), at, size)]
        0 <= slot < size && !next[slot].vacant() && 0 <= at < distance(
            home_of(next[slot].hash, size),
            slot,
            size,
        ) implies !next[slot_at(home_of(next[slot].hash, size), at, size)].vacant() by {
        let passed = slot_at(home_of(next[slot].hash, size), at, size);
        if slot == filled {
            assert(distance(home, filled, size) == step);
            assert(!slots[slot_at(home, at, size)].vacant());
        } else {
            assert(slots[slot] == next[slot]);
            assert(!slots[slot_at(home_of(slots[slot].hash, size), at, size)].vacant());
        }
    }
}

/// A table without entries is reachable throughout.
proof fn lemma_empty_reachable(slots: Seq<LineEntry>)
    requires
        forall|slot: int| 0 <= slot < slots.len() ==> (#[trigger] slots[slot]).vacant(),
    ensures
        reachable(slots),
{
}

/// A table that is not full has an empty slot on every way through it.
proof fn lemma_vacancy(slots: Seq<LineEntry>, home: int)
    requires
        0 <= home < slots.len(),
        entries_in(slots, slots.len() as int).len() < slots.len(),
    ensures
        exists|step: int|
            0 <= step < slots.len() && slots[#[trigger] slot_at(
                home,
                step,
                slots.len() as int,
            )].vacant(),
{
    let size = slots.len() as int;
    lemma_entries_len(slots, size);
    let slot = choose|slot: int| 0 <= slot < size && (#[trigger] slots[slot]).vacant();
    let step = distance(home, slot, size);
    assert(slot_at(home, step, size) == slot);
}

impl AppendOnlyFlatHashSet {
    /// Insert without checking the load factor.
    fn insert_no_grow(&mut self, entry: LineEntry)
        requires
            0 < old(self).slots@.len(),
            old(self).populated_count == old(self)@.len(),
            old(self).populated_count < old(self).slots@.len(),
            reachable(old(self).slots@),
            !entry.vacant(),
        ensures
            final(self)@ == old(self)@.insert(entry),
            final(self).slots@.len() == old(self).slots@.len(),
            final(self).populated_count == old(self).populated_count + 1,
            final(self).populated_count == final(self)@.len(),
            reachable(final(self).slots@),
    {
        broadcast use vstd::multiset::group_multiset_axioms;

        let size: usize = self.slots.len();
        let home: usize = (entry.hash % (size as u64)) as usize;
        let ghost slots = self.slots@;
        assert(home == home_of(entry.hash, size as int));
        let mut step: usize = 0;
        let mut slot: usize = home;
        proof {
            lemma_vacancy(slots, home as int);
        }
        while !self.slots[slot].is_empty()
            invariant
                slots == self.slots@,
                self == old(self),
                size == slots.len(),
                home < size,
                step < size,
                slot == slot_at(home as int, step as int, size as int),
                forall|earlier: int|
                    0 <= earlier < step ==> !slots[#[trigger] slot_at(
                        home as int,
                        earlier,
                        size as int,
                    )].vacant(),
                exists|step: int|
                    0 <= step < size && slots[#[trigger] slot_at(
                        home as int,
                        step,
                        size as int,
                    )].vacant(),
            decreases size - step,
        {
            proof {
                let vacancy = choose|step: int|
                    0 <= step < size && slots[#[trigger] slot_at(
                        home as int,
                        step,
                        size as int,
                    )].vacant();
                assert(vacancy > step);
            }
            step += 1;
            slot = if slot + 1 < size {
                slot + 1
            } else {
                0
            };
        }
        proof {
            lemma_entries_update(slots, slot as int, entry, size as int);
            lemma_reachable_update(slots, entry, step as int);
        }
        self.slots[slot] = entry;
        self.populated_count = self.populated_count + 1;
    }

    /// Double the capacity and rehash all entries.
    fn grow(&mut self)
        requires
            old(self).wf(),
            2 * old(self).size() <= usize::MAX,
        ensures
            final(self).wf(),
            final(self)@ == old(self)@,
            final(self).size() == 2 * old(self).size(),
    {
        broadcast use vstd::multiset::group_multiset_axioms;

        let size: usize = self.slots.len();
        let fresh = empty_slots(size * 2);
        proof {
            lemma_no_entries(fresh@, fresh@.len() as int);
            lemma_empty_reachable(fresh@);
        }
        let mut grown = AppendOnlyFlatHashSet { slots: fresh, populated_count: 0 };
        let mut index: usize = 0;
        while index < size
            invariant
                index <= size,
                size == self.slots@.len(),
                self == old(self),
                0 < size,
                grown.slots@.len() == 2 * size,
                grown@ == entries_in(self.slots@, index as int),
                grown.populated_count == grown@.len(),
                grown.populated_count <= index,
                reachable(grown.slots@),
            decreases size - index,
        {
            let entry: LineEntry = self.slots[index];
            if !entry.is_empty() {
                grown.insert_no_grow(entry);
            }
            index += 1;
        }
        self.slots = grown.slots;
        self.populated_count = grown.populated_count;
    }

    /// Insert a new entry. Grows the table first where the entry would bring the load factor over
    /// 60%.
    pub fn insert(&mut self, hash: u64, offset: u64, length: u64)
        requires
            old(self).wf(),
            offset < u64::MAX,
            overloads(old(self)@.len() + 1, old(self).size()) ==> 2 * old(self).size()
                <= usize::MAX,
        ensures
            Self::inserts(*old(self), *final(self), (LineEntry { hash, offset, length })),
    {
        broadcast use vstd::multiset::group_multiset_axioms;

        if (self.populated_count as u128 + 1) * 100 > self.slots.len() as u128 * 60 {
            self.grow();
        }
        self.insert_no_grow(LineEntry { hash, offset, length });
    }
}

/// The entries of a list that carry `hash`, in the order of the list.
pub open spec fn carriers(entries: Seq<LineEntry>, hash: u64) -> Seq<LineEntry>
    decreases entries.len(),
{
    if entries.len() == 0 {
        Seq::empty()
    } else {
        let earlier = carriers(entries.drop_last(), hash);
        if entries.last().hash == hash {
            earlier.push(entries.last())
        } else {
            earlier
        }
    }
}

/// Whether these are the states of a set into which these entries were inserted in turn, the first
/// of them being a new set.
pub open spec fn filled_with(
    states: Seq<AppendOnlyFlatHashSet>,
    entries: Seq<LineEntry>,
) -> bool {
    &&& states.len() == entries.len() + 1
    &&& states[0].wf()
    &&& states[0]@ == Multiset::<LineEntry>::empty()
    &&& states[0].size() == INITIAL_CAPACITY
    &&& forall|i: int, j: int|
        #![trigger states[i], states[j]]
        0 <= i < entries.len() && j == i + 1 ==> AppendOnlyFlatHashSet::inserts(
            states[i],
            states[j],
            entries[i],
        )
}

/// After any insertions into a new set, a search for a hash finds the entries that were inserted
/// with it, each as often as it was, and no other; the set counts all of them; and it has a power of
/// two of slots, no fewer than a new one, of which at most three in five are taken.
pub proof fn a_set_holds_what_was_inserted(
    states: Seq<AppendOnlyFlatHashSet>,
    entries: Seq<LineEntry>,
)
    requires
        filled_with(states, entries),
    ensures
        states.last().wf(),
        states.last()@ == entries.to_multiset(),
        states.last()@.len() == entries.len(),
        forall|hash: u64| #[trigger]
            carrying(states.last()@, hash) == carriers(entries, hash).to_multiset(),
        exists|times: nat| states.last().size() == INITIAL_CAPACITY * #[trigger] pow2(times),
        !overloads(entries.len(), states.last().size()),
    decreases entries.len(),
{
    broadcast use vstd::multiset::group_multiset_axioms;

    entries.to_multiset_ensures();
    if entries.len() == 0 {
        lemma2_to64();
        assert(states.last().size() == INITIAL_CAPACITY * pow2(0));
    } else {
        let fewer = entries.drop_last();
        let earlier = states.drop_last();
        assert forall|i: int, j: int|
            #![trigger earlier[i], earlier[j]]
            0 <= i < fewer.len() && j == i + 1 implies AppendOnlyFlatHashSet::inserts(
            earlier[i],
            earlier[j],
            fewer[i],
        ) by {
            assert(earlier[i] == states[i] && earlier[j] == states[j]);
        }
        a_set_holds_what_was_inserted(earlier, fewer);
        let last = entries.len() - 1;
        assert(AppendOnlyFlatHashSet::inserts(states[last], states[last + 1], entries[last]));
        assert(earlier.last() == states[last]);
        assert(entries =~= fewer.push(entries.last()));
        fewer.to_multiset_ensures();
        let times = choose|times: nat|
            states[last].size() == INITIAL_CAPACITY * #[trigger] pow2(times);
        lemma_pow2_unfold(times + 1);
        assert(INITIAL_CAPACITY * pow2(times + 1) == 2 * (INITIAL_CAPACITY * pow2(times)));
    }
    assert forall|hash: u64| #[trigger]
        carrying(states.last()@, hash) == carriers(entries, hash).to_multiset() by {
        lemma_carriers(entries, hash);
    }
}

proof fn lemma_carriers(entries: Seq<LineEntry>, hash: u64)
    ensures
        carrying(entries.to_multiset(), hash) == carriers(entries, hash).to_multiset(),
    decreases entries.len(),
{
    broadcast use vstd::multiset::group_multiset_axioms;

    entries.to_multiset_ensures();
    carriers(entries, hash).to_multiset_ensures();
    if entries.len() > 0 {
        let fewer = entries.drop_last();
        lemma_carriers(fewer, hash);
        fewer.to_multiset_ensures();
        carriers(fewer, hash).to_multiset_ensures();
        assert(entries =~= fewer.push(entries.last()));
    }
    assert(carrying(entries.to_multiset(), hash) =~= carriers(entries, hash).to_multiset());
}

} // verus!
