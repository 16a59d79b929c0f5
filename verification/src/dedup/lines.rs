//! Keeping the first occurrence of each line.

use vstd::multiset::Multiset;
use vstd::prelude::*;
use vstd::utf8::encode_utf8;

use crate::bytes::{decimal, lemma_append, lit, put, put_decimal, put_str, same_bytes};
use crate::json::{json_text_field_to, line_record, text_field, write_line_record, Terminator};
use crate::lines::{lemma_lines_chain, lines, named_lines, Line, NamedLine, Newlines};
use crate::sz::{folded, hash, hash_of, uncased_equal, uncased_fold};

use super::set::{carrying, overloads, AppendOnlyFlatHashSet, LineEntry};

verus! {

/// What a line is told apart by: its bytes, or their case folding.
pub open spec fn key_of(line: Seq<u8>, ignore_case: bool) -> Seq<u8> {
    if ignore_case {
        folded(line)
    } else {
        line
    }
}

/// Compute the hash of a line, of its case folding where case is ignored.
pub fn compute_hash(line: &[u8], ignore_case: bool, scratch: &mut Vec<u8>) -> (value: u64)
    requires
        ignore_case ==> 3 * line@.len() <= usize::MAX,
    ensures
        value == hash_of(key_of(line@, ignore_case)),
        !ignore_case ==> value == hash_of(line@),
{
    if ignore_case {
        // Case folding can expand characters, by at most a factor of three.
        let room: usize = if line.len() * 3 < 64 {
            64
        } else {
            line.len() * 3
        };
        scratch.clear();
        scratch.resize(room, 0);
        let length: usize = uncased_fold(line, scratch);
        hash(&scratch.as_slice()[0..length])
    } else {
        hash(line)
    }
}

/// Check if two lines are the same, ignoring case if asked to.
pub fn lines_equal(left: &[u8], right: &[u8], ignore_case: bool) -> (same: bool)
    ensures
        same == (key_of(left@, ignore_case) == key_of(right@, ignore_case)),
        !ignore_case ==> same == (left@ == right@),
        ignore_case ==> same == (folded(left@) == folded(right@)),
{
    if ignore_case {
        uncased_equal(left, right)
    } else {
        same_bytes(left, right)
    }
}

/// The bytes an entry points at.
pub open spec fn pointed_at(data: Seq<u8>, entry: LineEntry) -> Seq<u8> {
    data.subrange(entry.offset as int, entry.offset + entry.length)
}

/// Whether every entry points at bytes of `data`.
pub open spec fn inside(entries: Multiset<LineEntry>, data: Seq<u8>) -> bool {
    forall|entry: LineEntry| #[trigger]
        entries.contains(entry) ==> entry.offset + entry.length <= data.len()
}

impl AppendOnlyFlatHashSet {
    /// Whether `line` was already recorded, comparing it against the bytes each same-hash entry
    /// points at in `data`.
    pub fn contains(&self, hash: u64, line: &[u8], data: &[u8], ignore_case: bool) -> (found: bool)
        requires
            self.wf(),
            inside(self@, data@),
        ensures
            found <==> exists|entry: LineEntry| #[trigger]
                self@.contains(entry) && entry.hash == hash && key_of(
                    pointed_at(data@, entry),
                    ignore_case,
                ) == key_of(line@, ignore_case),
    {
        let entries = self.find(hash);
        proof {
            entries@.to_multiset_ensures();
            assert forall|entry: LineEntry| entries@.contains(entry) <==> #[trigger] self@.contains(
                entry,
            ) && entry.hash == hash by {
                broadcast use vstd::multiset::group_multiset_axioms;

                assert(entries@.contains(entry) <==> entries@.to_multiset().count(entry) > 0);
                assert(carrying(self@, hash).count(entry) > 0 <==> self@.contains(entry)
                    && entry.hash == hash);
            }
        }
        let mut index: usize = 0;
        while index < entries.len()
            invariant
                index <= entries@.len(),
                inside(self@, data@),
                forall|entry: LineEntry| entries@.contains(entry) <==> #[trigger] self@.contains(
                    entry,
                ) && entry.hash == hash,
                forall|at: int|
                    0 <= at < index ==> key_of(
                        pointed_at(data@, #[trigger] entries@[at]),
                        ignore_case,
                    ) != key_of(line@, ignore_case),
            decreases entries@.len() - index,
        {
            let entry: LineEntry = entries[index];
            proof {
                assert(entries@.contains(entry)) by {
                    assert(entries@[index as int] == entry);
                }
                assert(self@.contains(entry));
            }
            let start: usize = entry.offset as usize;
            let length: usize = entry.length as usize;
            assert(start + length <= data.len());
            if lines_equal(&data[start..start + length], line, ignore_case) {
                return true;
            }
            index += 1;
        }
        proof {
            if exists|entry: LineEntry| #[trigger]
                self@.contains(entry) && entry.hash == hash && key_of(
                    pointed_at(data@, entry),
                    ignore_case,
                ) == key_of(line@, ignore_case) {
                let entry = choose|entry: LineEntry| #[trigger]
                    self@.contains(entry) && entry.hash == hash && key_of(
                        pointed_at(data@, entry),
                        ignore_case,
                    ) == key_of(line@, ignore_case);
                assert(entries@.contains(entry));
                let at = choose|at: int| 0 <= at < entries@.len() && entries@[at] == entry;
                assert(entries@[at] == entry);
            }
        }
        false
    }
}

/// How many lines were read and how many survived deduplication.
#[derive(Clone, Copy, Debug, PartialEq, Eq, Structural)]
pub struct DedupCounts {
    pub total: usize,
    pub unique: usize,
}

impl Default for DedupCounts {
    fn default() -> (counts: Self)
        ensures
            counts == (DedupCounts { total: 0, unique: 0 }),
    {
        DedupCounts { total: 0, unique: 0 }
    }
}

impl DedupCounts {
    /// Whether any duplicate was dropped, which is what a quiet run reports.
    pub fn dropped_any(self) -> (yes: bool)
        ensures
            yes == (self.unique < self.total),
    {
        self.unique < self.total
    }
}

/// How a surviving line is written out.
#[derive(Clone, Copy, Debug, PartialEq, Eq, Structural)]
pub enum Rendering {
    /// The line plus the requested terminator, normalizing the input's own.
    Terminated(Terminator),
    /// One JSON record per line, closed by a summary record.
    Json,
    /// The line exactly as it appeared, terminator and all.
    Verbatim,
}

/// Everything the writer needs, decided once.
#[derive(Clone, Copy, Debug)]
pub struct OutputConfig<'a> {
    pub rendering: Rendering,
    /// Input name carried into the JSON envelope.
    pub path: &'a str,
}

/// One surviving line, the `index`-th counted from zero, as it is written.
pub open spec fn written_line(
    rendering: Rendering,
    path: Seq<char>,
    line: Seq<u8>,
    span: Seq<u8>,
    index: nat,
) -> Seq<u8> {
    match rendering {
        Rendering::Json => line_record(path, line, index + 1, None),
        Rendering::Verbatim => span,
        Rendering::Terminated(terminator) => line + seq![terminator.byte()],
    }
}

/// Write one surviving line. `index` is zero-based; records report it one-based.
pub fn write_line(
    out: &mut Vec<u8>,
    config: &OutputConfig<'_>,
    line: &[u8],
    span: &[u8],
    index: usize,
)
    requires
        index < usize::MAX,
    ensures
        final(out)@ == old(out)@ + written_line(
            config.rendering,
            config.path@,
            line@,
            span@,
            index as nat,
        ),
{
    match config.rendering {
        Rendering::Json => {
            write_line_record(out, config.path, line, index, None);
        },
        Rendering::Verbatim => {
            put(out, span);
        },
        Rendering::Terminated(terminator) => {
            put(out, line);
            out.push(terminator.as_byte());
            assert(out@ =~= old(out)@ + (line@ + seq![terminator.byte()]));
        },
    }
}

/// The record that closes a JSON stream.
pub open spec fn summary_record(path: Seq<char>, unique: nat, total: nat) -> Seq<u8> {
    lit("{\"type\":\"summary\",\"data\":{\"path\":") + text_field(encode_utf8(path)) + lit(
        ",\"unique_lines\":",
    ) + decimal(unique) + lit(",\"total_lines\":") + decimal(total) + lit("}}\n")
}

/// Write the summary record that closes a JSON stream.
pub fn write_summary_json(out: &mut Vec<u8>, path: &str, counts: DedupCounts)
    ensures
        final(out)@ == old(out)@ + summary_record(
            path@,
            counts.unique as nat,
            counts.total as nat,
        ),
{
    broadcast use crate::bytes::group_append;

    put_str(out, "{\"type\":\"summary\",\"data\":{\"path\":");
    json_text_field_to(out, path.as_bytes());
    put_str(out, ",\"unique_lines\":");
    put_decimal(out, counts.unique as u64);
    put_str(out, ",\"total_lines\":");
    put_decimal(out, counts.total as u64);
    put_str(out, "}}\n");
}

/// The lines that differ from everything seen before them.
pub open spec fn survivors(
    data: Seq<u8>,
    all: Seq<Line>,
    seen: Set<Seq<u8>>,
    ignore_case: bool,
) -> Seq<Line>
    decreases all.len(),
{
    if all.len() == 0 {
        Seq::empty()
    } else {
        let key = key_of(all[0].as_cut(data), ignore_case);
        if seen.contains(key) {
            survivors(data, all.drop_first(), seen, ignore_case)
        } else {
            seq![all[0]] + survivors(data, all.drop_first(), seen.insert(key), ignore_case)
        }
    }
}

/// These surviving lines as they are written, counted on from `index`.
pub open spec fn written(
    data: Seq<u8>,
    kept: Seq<Line>,
    rendering: Rendering,
    path: Seq<char>,
    index: nat,
) -> Seq<u8>
    decreases kept.len(),
{
    if kept.len() == 0 {
        Seq::empty()
    } else {
        written_line(rendering, path, kept[0].as_cut(data), kept[0].whole(data), index) + written(
            data,
            kept.drop_first(),
            rendering,
            path,
            index + 1,
        )
    }
}

/// The newline set of a run.
pub open spec fn newlines_for(utf8: bool) -> Newlines {
    if utf8 {
        Newlines::Unicode
    } else {
        Newlines::Lf
    }
}

/// The lines of `data` that differ from every line before them.
pub open spec fn unique_lines(data: Seq<u8>, ignore_case: bool, utf8: bool) -> Seq<Line> {
    survivors(data, lines(data, 0, newlines_for(utf8)), Set::empty(), ignore_case)
}

/// What deduplicating `data` writes.
pub open spec fn deduplicated(
    data: Seq<u8>,
    ignore_case: bool,
    utf8: bool,
    rendering: Rendering,
    path: Seq<char>,
) -> Seq<u8> {
    let kept = unique_lines(data, ignore_case, utf8);
    written(data, kept, rendering, path, 0) + if rendering == Rendering::Json {
        summary_record(path, kept.len(), lines(data, 0, newlines_for(utf8)).len())
    } else {
        Seq::empty()
    }
}

/// Whether a machine can deduplicate these lines: a table of slots for them can double, and where
/// case is ignored there is room to fold each of them.
pub open spec fn manageable(all: Seq<Line>, ignore_case: bool) -> bool {
    &&& all.len() < usize::MAX / 4
    &&& ignore_case ==> forall|i: int|
        #![trigger all[i]]
        0 <= i < all.len() ==> 3 * (all[i].cut - all[i].start) <= usize::MAX
}

/// Whether this line lies inside `data` and can be hashed.
spec fn fits(data: Seq<u8>, line: Line, ignore_case: bool) -> bool {
    &&& 0 <= line.start <= line.cut <= line.end <= data.len()
    &&& line.start < line.end
    &&& ignore_case ==> 3 * (line.cut - line.start) <= usize::MAX
}

/// Whether each of these lines lies inside `data` and can be hashed.
#[verifier::opaque]
spec fn all_fit(data: Seq<u8>, all: Seq<Line>, ignore_case: bool) -> bool {
    forall|i: int| #![trigger all[i]] 0 <= i < all.len() ==> fits(data, all[i], ignore_case)
}

/// Lines that fit still fit once the first is gone.
proof fn lemma_all_fit_step(data: Seq<u8>, all: Seq<Line>, ignore_case: bool)
    requires
        all_fit(data, all, ignore_case),
        all.len() > 0,
    ensures
        fits(data, all[0], ignore_case),
        all_fit(data, all.drop_first(), ignore_case),
{
    reveal(all_fit);
}

/// Whether the set records exactly the lines seen so far.
#[verifier::opaque]
spec fn records(
    entries: Multiset<LineEntry>,
    seen: Set<Seq<u8>>,
    data: Seq<u8>,
    ignore_case: bool,
) -> bool {
    &&& inside(entries, data)
    &&& forall|entry: LineEntry| #[trigger]
        entries.contains(entry) ==> {
            let key = key_of(pointed_at(data, entry), ignore_case);
            seen.contains(key) && entry.hash == hash_of(key)
        }
    &&& forall|key: Seq<u8>| #[trigger]
        seen.contains(key) ==> exists|entry: LineEntry| #[trigger]
            entries.contains(entry) && key_of(pointed_at(data, entry), ignore_case) == key
}

/// Recording a line.
proof fn lemma_records_insert(
    entries: Multiset<LineEntry>,
    seen: Set<Seq<u8>>,
    data: Seq<u8>,
    ignore_case: bool,
    entry: LineEntry,
)
    requires
        records(entries, seen, data, ignore_case),
        entry.offset + entry.length <= data.len(),
        entry.hash == hash_of(key_of(pointed_at(data, entry), ignore_case)),
    ensures
        records(
            entries.insert(entry),
            seen.insert(key_of(pointed_at(data, entry), ignore_case)),
            data,
            ignore_case,
        ),
{
    broadcast use vstd::multiset::group_multiset_axioms;

    reveal(records);
    let more = entries.insert(entry);
    let added = key_of(pointed_at(data, entry), ignore_case);
    assert(more.contains(entry));
    assert forall|other: LineEntry| #[trigger] more.contains(other) implies other == entry
        || entries.contains(other) by {
        assert(more.count(other) == entries.count(other) || other == entry);
    }
    assert forall|key: Seq<u8>| #[trigger] seen.insert(added).contains(key) implies exists|
        entry: LineEntry,
    | #[trigger]
        more.contains(entry) && key_of(pointed_at(data, entry), ignore_case) == key by {
        if key == added {
            assert(more.contains(entry));
        } else {
            assert(seen.contains(key));
            let earlier = choose|entry: LineEntry| #[trigger]
                entries.contains(entry) && key_of(pointed_at(data, entry), ignore_case) == key;
            assert(more.contains(earlier));
        }
    }
}

/// What was recorded is what was seen.
proof fn lemma_records_seen(
    entries: Multiset<LineEntry>,
    seen: Set<Seq<u8>>,
    data: Seq<u8>,
    ignore_case: bool,
    key: Seq<u8>,
)
    requires
        records(entries, seen, data, ignore_case),
    ensures
        inside(entries, data),
        seen.contains(key) <==> exists|entry: LineEntry| #[trigger]
            entries.contains(entry) && entry.hash == hash_of(key) && key_of(
                pointed_at(data, entry),
                ignore_case,
            ) == key,
{
    reveal(records);
}

/// Whether what is still to be written of the lines ahead completes what deduplicating owes.
#[verifier::opaque]
spec fn owed(
    data: Seq<u8>,
    ahead: Seq<Line>,
    seen: Set<Seq<u8>>,
    ignore_case: bool,
    config: OutputConfig<'_>,
    index: nat,
    written_so_far: Seq<u8>,
    kept: nat,
    whole: Seq<u8>,
) -> bool {
    let rest = survivors(data, ahead, seen, ignore_case);
    &&& kept == index + rest.len()
    &&& whole == written_so_far + written(data, rest, config.rendering, config.path@, index)
}

/// The first of the lines ahead pays what it owes: nothing where it was seen before, itself where it
/// was not.
proof fn lemma_owed_step(
    data: Seq<u8>,
    ahead: Seq<Line>,
    seen: Set<Seq<u8>>,
    ignore_case: bool,
    config: OutputConfig<'_>,
    index: nat,
    before: Seq<u8>,
    kept: nat,
    whole: Seq<u8>,
)
    requires
        ahead.len() > 0,
        owed(data, ahead, seen, ignore_case, config, index, before, kept, whole),
    ensures
        ({
            let key = key_of(ahead[0].as_cut(data), ignore_case);
            let text = written_line(
                config.rendering,
                config.path@,
                ahead[0].as_cut(data),
                ahead[0].whole(data),
                index,
            );
            let later = ahead.drop_first();
            if seen.contains(key) {
                owed(data, later, seen, ignore_case, config, index, before, kept, whole)
            } else {
                owed(
                    data,
                    later,
                    seen.insert(key),
                    ignore_case,
                    config,
                    index + 1,
                    before + text,
                    kept,
                    whole,
                )
            }
        }),
{
    reveal(owed);
    let key = key_of(ahead[0].as_cut(data), ignore_case);
    if !seen.contains(key) {
        let rest = survivors(data, ahead, seen, ignore_case);
        let later = survivors(data, ahead.drop_first(), seen.insert(key), ignore_case);
        assert(rest == seq![ahead[0]] + later);
        assert(rest.drop_first() =~= later);
        lemma_append(
            before,
            written_line(
                config.rendering,
                config.path@,
                ahead[0].as_cut(data),
                ahead[0].whole(data),
                index,
            ),
            written(data, later, config.rendering, config.path@, index + 1),
        );
    }
}

/// A table for fewer lines than a quarter of the address space can double when it has to.
proof fn lemma_room(entries: nat, slots: nat)
    requires
        entries < usize::MAX / 4,
        overloads(entries + 1, slots),
    ensures
        2 * slots <= usize::MAX,
{
}

/// Record the line at `offset` unless one like it was seen before, and say whether it was recorded.
fn record_if_new(
    set: &mut AppendOnlyFlatHashSet,
    data: &[u8],
    line: &[u8],
    offset: usize,
    ignore_case: bool,
    scratch: &mut Vec<u8>,
    Ghost(seen): Ghost<Set<Seq<u8>>>,
) -> (fresh: bool)
    requires
        old(set).wf(),
        old(set)@.len() < usize::MAX / 4,
        records(old(set)@, seen, data@, ignore_case),
        offset < usize::MAX,
        offset + line@.len() <= data@.len(),
        line@ == data@.subrange(offset as int, offset + line@.len()),
        ignore_case ==> 3 * line@.len() <= usize::MAX,
    ensures
        final(set).wf(),
        fresh == !seen.contains(key_of(line@, ignore_case)),
        final(set)@.len() == old(set)@.len() + if fresh {
            1nat
        } else {
            0
        },
        records(
            final(set)@,
            if fresh {
                seen.insert(key_of(line@, ignore_case))
            } else {
                seen
            },
            data@,
            ignore_case,
        ),
{
    let length: usize = line.len();
    let hash: u64 = compute_hash(line, ignore_case, scratch);
    let ghost key = key_of(line@, ignore_case);
    proof {
        lemma_records_seen(set@, seen, data@, ignore_case, key);
    }
    if set.contains(hash, line, data, ignore_case) {
        return false;
    }
    proof {
        let entry = LineEntry { hash, offset: offset as u64, length: length as u64 };
        assert(pointed_at(data@, entry) =~= line@);
        lemma_records_insert(set@, seen, data@, ignore_case, entry);
        if overloads(set@.len() + 1, set.size()) {
            lemma_room(set@.len(), set.size());
        }
    }
    set.insert(hash, offset as u64, length as u64);
    assert(set@.len() == old(set)@.len() + 1) by {
        broadcast use vstd::multiset::group_multiset_axioms;

    }
    true
}

/// Deduplicate `data` into `out`, keeping the first occurrence of each line. With `utf8`, every
/// Unicode newline ends a line.
pub fn dedup_to_writer(
    data: &[u8],
    out: &mut Vec<u8>,
    ignore_case: bool,
    utf8: bool,
    config: &OutputConfig<'_>,
) -> (counts: DedupCounts)
    requires
        manageable(lines(data@, 0, newlines_for(utf8)), ignore_case),
    ensures
        final(out)@ == old(out)@ + deduplicated(
            data@,
            ignore_case,
            utf8,
            config.rendering,
            config.path@,
        ),
        counts.total == lines(data@, 0, newlines_for(utf8)).len(),
        counts.unique == unique_lines(data@, ignore_case, utf8).len(),
        counts.unique <= counts.total,
{
    let newlines = Newlines::from_utf8(utf8);
    let ghost all_lines = lines(data@, 0, newlines);
    let ghost mut seen = Set::<Seq<u8>>::empty();
    let ghost kept = unique_lines(data@, ignore_case, utf8);
    let ghost path = config.path@;
    let ghost rendering = config.rendering;
    let ghost whole = out@ + written(data@, kept, rendering, path, 0);
    let mut set = AppendOnlyFlatHashSet::new();
    let mut scratch: Vec<u8> = Vec::new();
    let mut counts = DedupCounts::default();
    let size: usize = data.len();
    let mut all = named_lines(data, newlines);
    proof {
        broadcast use vstd::multiset::group_multiset_axioms;

        reveal(records);
        reveal(all_fit);
        reveal(owed);
        lemma_lines_chain(data@, 0, newlines);
    }
    loop
        invariant
            all.wf(),
            all.input() == data@,
            data@.len() == size,
            all_lines.len() < usize::MAX / 4,
            set.wf(),
            set@.len() == counts.unique,
            counts.unique <= counts.total,
            counts.total + all.remaining().len() == all_lines.len(),
            all_lines.len() <= data@.len(),
            records(set@, seen, data@, ignore_case),
            all_fit(data@, all.remaining(), ignore_case),
            owed(
                data@,
                all.remaining(),
                seen,
                ignore_case,
                *config,
                counts.unique as nat,
                out@,
                kept.len(),
                whole,
            ),
        ensures
            all.remaining().len() == 0,
        decreases all.remaining().len(),
    {
        let ghost ahead = all.remaining();
        let named: NamedLine<'_> = match all.next() {
            Some(named) => named,
            None => {
                assert(all.remaining() =~= ahead);
                break;
            },
        };
        proof {
            lemma_all_fit_step(data@, ahead, ignore_case);
        }
        let line: &[u8] = named.as_cut;
        counts.total = counts.total + 1;
        proof {
            lemma_owed_step(
                data@,
                ahead,
                seen,
                ignore_case,
                *config,
                counts.unique as nat,
                out@,
                kept.len(),
                whole,
            );
        }
        if record_if_new(
            &mut set,
            data,
            line,
            named.offset,
            ignore_case,
            &mut scratch,
            Ghost(seen),
        ) {
            write_line(out, config, line, named.whole, counts.unique);
            proof {
                seen = seen.insert(key_of(line@, ignore_case));
            }
            counts.unique = counts.unique + 1;
        }
    }
    proof {
        reveal(owed);
        assert(out@ + Seq::<u8>::empty() =~= out@);
    }
    if config.rendering == Rendering::Json {
        write_summary_json(out, config.path, counts);
        proof {
            lemma_append(
                old(out)@,
                written(data@, kept, rendering, path, 0),
                summary_record(path, counts.unique as nat, counts.total as nat),
            );
        }
    } else {
        assert(written(data@, kept, rendering, path, 0) + Seq::<u8>::empty() =~= written(
            data@,
            kept,
            rendering,
            path,
            0,
        ));
    }
    counts
}

} // verus!
