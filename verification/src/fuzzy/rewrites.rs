//! Carrying a span of folded text back to the text it was folded from.

use vstd::prelude::*;

use crate::sorting::{ordered, sort, Ranked};

verus! {

/// One place a stage rewrote, as the two spans that define the map there.
#[derive(Clone, Copy, Debug, PartialEq, Eq, Structural)]
pub struct Site {
    pub folded_offset: usize,
    pub folded_length: usize,
    pub original_offset: usize,
    pub original_length: usize,
}

impl Site {
    pub open spec fn folded_end(self) -> int {
        self.folded_offset + self.folded_length
    }

    pub open spec fn original_end(self) -> int {
        self.original_offset + self.original_length
    }
}

/// Which end of a span an offset is, since a boundary landing inside a rewrite widens outward.
#[derive(Clone, Copy, Debug, PartialEq, Eq, Structural)]
pub enum Edge {
    Start,
    End,
}

/// How many of these sites begin at or before an offset of the folded text, counted from the first.
pub open spec fn begun(sites: Seq<Site>, folded: int) -> int
    decreases sites.len(),
{
    if sites.len() == 0 || sites.last().folded_offset <= folded {
        sites.len() as int
    } else {
        begun(sites.drop_last(), folded)
    }
}

/// Where an offset in the folded text sits in the original.
///
/// Between rewrites the two texts advance in lockstep. Inside one, and on the mark that a deleting
/// rewrite leaves, the offset names no byte of the original, so the rewrite is claimed whole: a
/// start falls back to its first byte and an end runs past its last.
pub open spec fn carried_back(sites: Seq<Site>, folded: int, edge: Edge) -> int {
    let above = begun(sites, folded);
    if above == 0 {
        folded
    } else {
        let site = sites[above - 1];
        if folded < site.folded_end() || (folded == site.folded_end() && site.folded_length == 0) {
            match edge {
                Edge::Start => site.original_offset as int,
                Edge::End => site.original_end(),
            }
        } else {
            site.original_end() + (folded - site.folded_end())
        }
    }
}

/// Whether sites stand in the order of the folded text.
pub open spec fn sites_ascend(sites: Seq<Site>) -> bool {
    forall|i: int, j: int|
        #![trigger sites[i], sites[j]]
        0 <= i < j < sites.len() ==> sites[i].folded_offset <= sites[j].folded_offset
}

/// Whether these sites belong to one rewrite of one text: they do not overlap, and between them the
/// two texts advance in lockstep.
pub open spec fn consistent(sites: Seq<Site>) -> bool {
    &&& sites.len() > 0 ==> sites[0].folded_offset == sites[0].original_offset
    &&& forall|i: int, j: int|
        #![trigger sites[i], sites[j]]
        0 <= i && j == i + 1 && j < sites.len() ==> {
            &&& sites[i].original_end() <= sites[j].original_offset
            &&& sites[j].folded_offset - sites[i].folded_end() == sites[j].original_offset
                - sites[i].original_end()
        }
}

proof fn lemma_consistent_order(sites: Seq<Site>, i: int, j: int)
    requires
        consistent(sites),
        0 <= i < j < sites.len(),
    ensures
        sites[i].original_end() <= sites[j].original_offset,
        sites[i].folded_end() <= sites[j].folded_offset,
    decreases j - i,
{
    assert(sites[j - 1].original_end() <= sites[j].original_offset);
    if i < j - 1 {
        lemma_consistent_order(sites, i, j - 1);
    }
}

proof fn lemma_consistent_ascends(sites: Seq<Site>)
    requires
        consistent(sites),
    ensures
        sites_ascend(sites),
{
    assert forall|i: int, j: int|
        #![trigger sites[i], sites[j]]
        0 <= i < j < sites.len() implies sites[i].folded_offset <= sites[j].folded_offset by {
        lemma_consistent_order(sites, i, j);
    }
}

proof fn lemma_begun(sites: Seq<Site>, folded: int)
    requires
        sites_ascend(sites),
    ensures
        0 <= begun(sites, folded) <= sites.len(),
        forall|i: int|
            0 <= i < begun(sites, folded) ==> (#[trigger] sites[i]).folded_offset <= folded,
        forall|i: int|
            begun(sites, folded) <= i < sites.len() ==> (#[trigger] sites[i]).folded_offset
                > folded,
    decreases sites.len(),
{
    if sites.len() > 0 {
        let last = sites.len() - 1;
        assert(sites.last() == sites[last]);
        if sites.last().folded_offset <= folded {
            assert forall|i: int| 0 <= i < sites.len() implies (#[trigger] sites[i]).folded_offset
                <= folded by {
                if i < last {
                    assert(sites[i].folded_offset <= sites[last].folded_offset);
                }
            }
        } else {
            let fewer = sites.drop_last();
            assert forall|i: int, j: int|
                #![trigger fewer[i], fewer[j]]
                0 <= i < j < fewer.len() implies fewer[i].folded_offset
                <= fewer[j].folded_offset by {
                assert(fewer[i] == sites[i] && fewer[j] == sites[j]);
            }
            lemma_begun(fewer, folded);
            assert forall|i: int| 0 <= i < begun(sites, folded) implies (
            #[trigger] sites[i]).folded_offset <= folded by {
                assert(fewer[i] == sites[i]);
            }
            assert forall|i: int| begun(sites, folded) <= i < sites.len() implies (
            #[trigger] sites[i]).folded_offset > folded by {
                if i < last {
                    assert(fewer[i] == sites[i]);
                }
            }
        }
    }
}

/// Whatever splits the sites into those that have begun and those that have not counts those that
/// have.
proof fn lemma_begun_is(sites: Seq<Site>, folded: int, count: int)
    requires
        sites_ascend(sites),
        0 <= count <= sites.len(),
        forall|i: int| 0 <= i < count ==> (#[trigger] sites[i]).folded_offset <= folded,
        forall|i: int| count <= i < sites.len() ==> (#[trigger] sites[i]).folded_offset > folded,
    ensures
        begun(sites, folded) == count,
{
    lemma_begun(sites, folded);
    let other = begun(sites, folded);
    if other < count {
        assert(sites[other].folded_offset > folded);
    }
    if count < other {
        assert(sites[count].folded_offset > folded);
    }
}

/// A span never turns inside out on its way back: a start at or before an end stays at or before it.
pub proof fn a_span_stays_a_span(sites: Seq<Site>, start: int, end: int)
    requires
        consistent(sites),
        0 <= start <= end,
    ensures
        0 <= carried_back(sites, start, Edge::Start) <= carried_back(sites, end, Edge::End),
{
    lemma_consistent_ascends(sites);
    lemma_begun(sites, start);
    lemma_begun(sites, end);
    let one = begun(sites, start);
    let two = begun(sites, end);
    if one > two {
        assert(sites[two].folded_offset > end);
        assert(sites[two].folded_offset <= start);
    }
    if one < two {
        // The start stays in front of the site behind it, and the end at or behind the last one.
        if one > 0 {
            assert(sites[one].folded_offset > start);
            lemma_consistent_order(sites, one - 1, one);
            assert(sites[one - 1].original_end() <= sites[one].original_offset);
            assert(sites[one].folded_offset - sites[one - 1].folded_end()
                == sites[one].original_offset - sites[one - 1].original_end());
            assert(carried_back(sites, start, Edge::Start) <= sites[one].original_offset);
        } else {
            assert(sites[0].folded_offset > start);
        }
        if one < two - 1 {
            lemma_consistent_order(sites, one, two - 1);
        }
    }
}

/// What an offset goes back to: in front of the first rewrite it stays where it is, inside a rewrite
/// a start falls on its first byte and an end behind its last, and behind a rewrite it keeps its
/// distance from the rewrite's end.
pub proof fn an_offset_goes_back_by_its_place(sites: Seq<Site>, folded: int, edge: Edge)
    requires
        consistent(sites),
        0 <= folded,
    ensures
        sites.len() == 0 || folded < sites[0].folded_offset ==> carried_back(sites, folded, edge)
            == folded,
        forall|i: int|
            #![trigger sites[i]]
            0 <= i < sites.len() && sites[i].folded_offset <= folded < sites[i].folded_end()
                ==> carried_back(sites, folded, edge) == match edge {
                Edge::Start => sites[i].original_offset as int,
                Edge::End => sites[i].original_end(),
            },
        forall|i: int|
            #![trigger sites[i]]
            0 <= i < sites.len() && sites[i].folded_end() <= folded && sites[i].folded_length > 0
                && (i + 1 < sites.len() ==> folded < sites[i + 1].folded_offset) ==> carried_back(
                sites,
                folded,
                edge,
            ) == sites[i].original_end() + (folded - sites[i].folded_end()),
{
    lemma_consistent_ascends(sites);
    lemma_begun(sites, folded);
    let above = begun(sites, folded);
    assert forall|i: int|
        #![trigger sites[i]]
        0 <= i < sites.len() && sites[i].folded_offset <= folded < sites[i].folded_end() implies
        carried_back(sites, folded, edge) == match edge {
        Edge::Start => sites[i].original_offset as int,
        Edge::End => sites[i].original_end(),
    } by {
        if i < above - 1 {
            lemma_consistent_order(sites, i, above - 1);
        }
    }
    assert forall|i: int|
        #![trigger sites[i]]
        0 <= i < sites.len() && sites[i].folded_end() <= folded && sites[i].folded_length > 0 && (
        i + 1 < sites.len() ==> folded < sites[i + 1].folded_offset) implies carried_back(
        sites,
        folded,
        edge,
    ) == sites[i].original_end() + (folded - sites[i].folded_end()) by {
        if i + 1 < above {
            assert(sites[i + 1].folded_offset <= folded);
        }
    }
}

/// A span that lies in the folded text goes back to one that lies in the original.
pub proof fn a_span_stays_in_the_text(sites: Seq<Site>, length: int, folded: int, edge: Edge)
    requires
        consistent(sites),
        sites.len() > 0 ==> sites.last().original_end() <= length,
        0 <= folded <= length + if sites.len() > 0 {
            sites.last().folded_end() - sites.last().original_end()
        } else {
            0
        },
    ensures
        0 <= carried_back(sites, folded, edge) <= length,
{
    lemma_consistent_ascends(sites);
    lemma_begun(sites, folded);
    let above = begun(sites, folded);
    if sites.len() > 0 {
        assert(sites.last() == sites[sites.len() - 1]);
        if above == 0 {
            assert(sites[0].folded_offset > folded);
            if sites.len() > 1 {
                lemma_consistent_order(sites, 0, sites.len() - 1);
            }
        } else if above < sites.len() {
            assert(sites[above].folded_offset > folded);
            lemma_consistent_order(sites, above - 1, above);
            assert(sites[above].folded_offset - sites[above - 1].folded_end()
                == sites[above].original_offset - sites[above - 1].original_end());
            if above < sites.len() - 1 {
                lemma_consistent_order(sites, above, sites.len() - 1);
            }
        }
    }
}

/// The folded text up to the end of the first `count` sites.
pub open spec fn folded_front(
    original: Seq<u8>,
    sites: Seq<Site>,
    targets: Seq<Seq<u8>>,
    count: int,
) -> Seq<u8>
    decreases count,
{
    if count <= 0 {
        Seq::empty()
    } else {
        let from = if count == 1 {
            0
        } else {
            sites[count - 2].original_end()
        };
        folded_front(original, sites, targets, count - 1) + original.subrange(
            from,
            sites[count - 1].original_offset as int,
        ) + targets[count - 1]
    }
}

/// The folded text: the original with each site replaced by its target.
pub open spec fn folded_text(
    original: Seq<u8>,
    sites: Seq<Site>,
    targets: Seq<Seq<u8>>,
) -> Seq<u8> {
    folded_front(original, sites, targets, sites.len() as int) + original.subrange(
        if sites.len() == 0 {
            0
        } else {
            sites.last().original_end()
        },
        original.len() as int,
    )
}

proof fn lemma_folded_front(
    original: Seq<u8>,
    sites: Seq<Site>,
    targets: Seq<Seq<u8>>,
    count: int,
)
    requires
        consistent(sites),
        sites.len() > 0 ==> sites.last().original_end() <= original.len(),
        targets.len() == sites.len(),
        forall|i: int|
            0 <= i < sites.len() ==> (#[trigger] targets[i]).len() == sites[i].folded_length,
        0 <= count <= sites.len(),
    ensures
        folded_front(original, sites, targets, count).len() == if count == 0 {
            0
        } else {
            sites[count - 1].folded_end()
        },
        // What lies between two sites is what lies between them in the original.
        forall|at: int, site: int|
            #![trigger folded_front(original, sites, targets, count)[at], sites[site]]
            0 <= site < count && between(sites, site, at) ==> folded_front(
                original,
                sites,
                targets,
                count,
            )[at] == original[sites[site].original_offset - (sites[site].folded_offset - at)],
    decreases count,
{
    if count > 0 {
        lemma_folded_front(original, sites, targets, count - 1);
        let last = sites[count - 1];
        if count < sites.len() {
            lemma_consistent_order(sites, count - 1, sites.len() - 1);
        }
        if count > 1 {
            lemma_consistent_order(sites, count - 2, count - 1);
            assert(sites[count - 1].folded_offset - sites[count - 2].folded_end()
                == sites[count - 1].original_offset - sites[count - 2].original_end());
        }
        let front = folded_front(original, sites, targets, count - 1);
        let from = if count == 1 {
            0
        } else {
            sites[count - 2].original_end()
        };
        let gap = original.subrange(from, last.original_offset as int);
        let whole = folded_front(original, sites, targets, count);
        assert(targets[count - 1].len() == last.folded_length);
        assert(whole == front + gap + targets[count - 1]);
        assert forall|at: int, site: int|
            #![trigger whole[at], sites[site]]
            0 <= site < count && between(sites, site, at) implies whole[at]
            == original[sites[site].original_offset - (sites[site].folded_offset - at)] by {
            if site < count - 1 {
                if site < count - 2 {
                    lemma_consistent_order(sites, site, count - 2);
                }
                assert(at < front.len());
                assert(whole[at] == front[at]);
            } else {
                assert(whole[at] == gap[at - front.len()]);
            }
        }
    }
}

/// Whether an offset of the folded text lies in front of a site and behind the one before it.
pub open spec fn between(sites: Seq<Site>, site: int, at: int) -> bool {
    &&& at < sites[site].folded_offset
    &&& if site == 0 {
        0 <= at
    } else {
        sites[site - 1].folded_end() <= at
    }
}

/// Outside the rewrites, an offset of the folded text goes back to the very byte it holds.
pub proof fn lockstep_bytes_agree(
    original: Seq<u8>,
    sites: Seq<Site>,
    targets: Seq<Seq<u8>>,
    at: int,
)
    requires
        consistent(sites),
        sites.len() > 0 ==> sites.last().original_end() <= original.len(),
        targets.len() == sites.len(),
        forall|i: int|
            0 <= i < sites.len() ==> (#[trigger] targets[i]).len() == sites[i].folded_length,
        0 <= at < folded_text(original, sites, targets).len(),
        forall|i: int|
            0 <= i < sites.len() ==> !((#[trigger] sites[i]).folded_offset <= at
                < sites[i].folded_end()),
    ensures
        0 <= carried_back(sites, at, Edge::End) < original.len(),
        folded_text(original, sites, targets)[at] == original[carried_back(sites, at, Edge::End)],
{
    let count = sites.len() as int;
    lemma_consistent_ascends(sites);
    lemma_begun(sites, at);
    lemma_folded_front(original, sites, targets, count);
    let above = begun(sites, at);
    let front = folded_front(original, sites, targets, count);
    if above > 0 {
        assert(sites[above - 1].folded_offset <= at);
    }
    if above < count {
        assert(sites[above].folded_offset > at);
        assert(between(sites, above, at));
        if above < count - 1 {
            lemma_consistent_order(sites, above, count - 1);
        }
        if above > 0 {
            lemma_consistent_order(sites, above - 1, above);
            assert(sites[above].folded_offset - sites[above - 1].folded_end()
                == sites[above].original_offset - sites[above - 1].original_end());
        }
        assert(at < front.len());
        assert(folded_text(original, sites, targets)[at] == front[at]);
        assert(sites[above].original_offset - (sites[above].folded_offset - at) == carried_back(
            sites,
            at,
            Edge::End,
        ));
        assert(sites.last() == sites[count - 1]);
    } else if count > 0 {
        assert(sites.last() == sites[count - 1]);
        assert(at >= front.len());
    }
}

/// One stage's sites, grouped by line.
pub struct StageMap {
    pub sites: Vec<Site>,
    /// `sites[starts[line]..starts[line + 1]]` are one line's, in ascending offset order.
    pub starts: Vec<usize>,
}

impl StageMap {
    /// The sites of one line.
    pub open spec fn line(&self, line: int) -> Seq<Site> {
        self.sites@.subrange(self.starts@[line] as int, self.starts@[line + 1] as int)
    }

    /// Whether a line of this map can be looked at.
    pub open spec fn has_line(&self, line: int) -> bool {
        &&& 0 <= line
        &&& line + 1 < self.starts@.len()
        &&& self.starts@[line] <= self.starts@[line + 1] <= self.sites@.len()
        &&& sites_ascend(self.line(line))
    }

    /// Whether an offset in this stage's output can be carried back: the map has the line, its sites
    /// are consistent and can be counted, and so can what the offset goes back to.
    pub open spec fn carries(&self, line: int, folded: int, edge: Edge) -> bool {
        &&& self.has_line(line)
        &&& consistent(self.line(line))
        &&& forall|i: int|
            0 <= i < self.line(line).len() ==> (#[trigger] self.line(line)[i]).folded_end()
                <= usize::MAX && self.line(line)[i].original_end() <= usize::MAX
        &&& carried_back(self.line(line), folded, edge) <= usize::MAX
    }

    /// Where an offset in this stage's output sits in its input.
    pub fn backward(&self, line: usize, folded: usize, edge: Edge) -> (original: usize)
        requires
            self.has_line(line as int),
            // What an offset goes back to, and the ends of the sites, can be counted.
            carried_back(self.line(line as int), folded as int, edge) <= usize::MAX,
            forall|i: int|
                0 <= i < self.line(line as int).len() ==> (#[trigger] self.line(
                    line as int,
                )[i]).folded_end() <= usize::MAX && self.line(line as int)[i].original_end()
                    <= usize::MAX,
        ensures
            original == carried_back(self.line(line as int), folded as int, edge),
    {
        let ghost sites = self.line(line as int);
        assert(line < self.starts.len() - 1);
        let first: usize = self.starts[line];
        let mut low: usize = first;
        let mut high: usize = self.starts[line + 1];
        while low < high
            invariant
                first == self.starts@[line as int],
                first <= low <= high <= self.starts@[line + 1],
                self.has_line(line as int),
                sites == self.line(line as int),
                forall|i: int|
                    0 <= i < low - first ==> (#[trigger] sites[i]).folded_offset <= folded,
                forall|i: int|
                    high - first <= i < sites.len() ==> (#[trigger] sites[i]).folded_offset
                        > folded,
            decreases high - low,
        {
            let middle: usize = low + (high - low) / 2;
            assert(sites[middle - first] == self.sites@[middle as int]);
            if self.sites[middle].folded_offset <= folded {
                assert forall|i: int| 0 <= i < middle + 1 - first implies (
                #[trigger] sites[i]).folded_offset <= folded by {
                    if i < middle - first {
                        assert(sites[i].folded_offset <= sites[middle - first].folded_offset);
                    }
                }
                low = middle + 1;
            } else {
                assert forall|i: int| middle - first <= i < sites.len() implies (
                #[trigger] sites[i]).folded_offset > folded by {
                    if i > middle - first {
                        assert(sites[middle - first].folded_offset <= sites[i].folded_offset);
                    }
                }
                high = middle;
            }
        }
        proof {
            lemma_begun_is(sites, folded as int, low - first);
        }
        if low == first {
            return folded;
        }
        let site = self.sites[low - 1];
        assert(sites[low - 1 - first] == site);
        let folded_end: usize = site.folded_offset + site.folded_length;
        let original_end: usize = site.original_offset + site.original_length;
        if folded < folded_end || (folded == folded_end && site.folded_length == 0) {
            match edge {
                Edge::Start => site.original_offset,
                Edge::End => original_end,
            }
        } else {
            original_end + (folded - folded_end)
        }
    }

    /// Where an offset in this stage's output sits in its input, or `None` where this map cannot
    /// carry it back.
    pub fn checked_backward(&self, line: usize, folded: usize, edge: Edge) -> (original: Option<
        usize,
    >)
        ensures
            original is Some <==> self.carries(line as int, folded as int, edge),
            original matches Some(original) ==> original == carried_back(
                self.line(line as int),
                folded as int,
                edge,
            ),
    {
        if self.starts.len() < 2 || line > self.starts.len() - 2 {
            return None;
        }
        let first: usize = self.starts[line];
        let end: usize = self.starts[line + 1];
        if first > end || end > self.sites.len() {
            return None;
        }
        let ghost sites = self.line(line as int);
        let mut at: usize = first;
        while at < end
            invariant
                line + 1 < self.starts@.len(),
                first == self.starts@[line as int],
                end == self.starts@[line + 1],
                first <= at <= end <= self.sites@.len(),
                sites == self.line(line as int),
                consistent(sites.take(at - first)),
                forall|i: int|
                    0 <= i < at - first ==> (#[trigger] sites[i]).folded_end() <= usize::MAX
                        && sites[i].original_end() <= usize::MAX,
            decreases end - at,
        {
            let site = self.sites[at];
            let ghost seen = at - first;
            assert(sites[seen] == site);
            if site.folded_length > usize::MAX - site.folded_offset || site.original_length
                > usize::MAX - site.original_offset {
                assert(sites[seen].folded_end() > usize::MAX || sites[seen].original_end()
                    > usize::MAX);
                return None;
            }
            if at == first {
                if site.folded_offset != site.original_offset {
                    assert(sites[0].folded_offset != sites[0].original_offset);
                    return None;
                }
            } else {
                let before = self.sites[at - 1];
                assert(sites[seen - 1] == before);
                let folded_end: usize = before.folded_offset + before.folded_length;
                let original_end: usize = before.original_offset + before.original_length;
                // The gap is the same on both sides, so one of them tells the other's sign.
                if original_end > site.original_offset || folded_end > site.folded_offset
                    || site.folded_offset - folded_end != site.original_offset - original_end {
                    assert(!(sites[seen - 1].original_end() <= sites[seen].original_offset
                        && sites[seen].folded_offset - sites[seen - 1].folded_end()
                        == sites[seen].original_offset - sites[seen - 1].original_end()));
                    return None;
                }
            }
            at += 1;
            assert forall|i: int, j: int|
                #![trigger sites.take(at - first)[i], sites.take(at - first)[j]]
                0 <= i && j == i + 1 && j < at - first implies {
                &&& sites.take(at - first)[i].original_end() <= sites.take(
                    at - first,
                )[j].original_offset
                &&& sites.take(at - first)[j].folded_offset - sites.take(
                    at - first,
                )[i].folded_end() == sites.take(at - first)[j].original_offset - sites.take(
                    at - first,
                )[i].original_end()
            } by {
                if j < seen {
                    assert(sites.take(seen)[i] == sites[i] && sites.take(seen)[j] == sites[j]);
                }
            }
            assert(seen > 0 ==> sites.take(seen)[0] == sites[0]);
        }
        proof {
            assert(sites.take(end - first) =~= sites);
            lemma_consistent_ascends(sites);
            lemma_begun(sites, folded as int);
        }
        let ghost above = begun(sites, folded as int);
        if first < end {
            let last = self.sites[end - 1];
            assert(sites.last() == last);
            let folded_end: usize = last.folded_offset + last.folded_length;
            let original_end: usize = last.original_offset + last.original_length;
            // Only behind its last site can a text be longer than can be counted.
            if folded >= folded_end && folded - folded_end > usize::MAX - original_end {
                assert(above == sites.len());
                return None;
            }
            proof {
                if above == sites.len() {
                    assert(sites[above - 1] == last);
                } else if above > 0 {
                    lemma_consistent_order(sites, above - 1, above);
                    assert(sites[above].folded_offset > folded);
                    assert(sites[above].folded_offset - sites[above - 1].folded_end()
                        == sites[above].original_offset - sites[above - 1].original_end());
                }
            }
        }
        Some(self.backward(line, folded, edge))
    }
}

/// One match of a needle, as an automaton reports it.
#[derive(Clone, Copy, Debug, PartialEq, Eq, Structural)]
pub struct Found {
    /// Which line the needle was found in.
    pub haystack_index: usize,
    /// Which needle it was.
    pub needle_index: usize,
    pub byte_offset: usize,
    /// How many bytes matched, which case folding can make another number than the needle has.
    pub byte_length: usize,
}

impl Found {
    pub open spec fn end(self) -> int {
        self.byte_offset + self.byte_length
    }
}

impl Ranked for Found {
    open spec fn first(self, other: Self) -> bool {
        self.haystack_index < other.haystack_index || self.haystack_index == other.haystack_index
            && self.byte_offset < other.byte_offset
    }

    fn goes_first(&self, other: &Self) -> (yes: bool) {
        self.haystack_index < other.haystack_index || (self.haystack_index == other.haystack_index
            && self.byte_offset < other.byte_offset)
    }

    proof fn lemma_not_both(one: Self, two: Self) {
    }

    proof fn lemma_chain(one: Self, two: Self, three: Self) {
    }
}

/// How many bytes all these matches are rewritten to.
pub open spec fn produced(found: Seq<Found>, lengths: Seq<usize>) -> nat
    decreases found.len(),
{
    if found.len() == 0 {
        0
    } else {
        produced(found.drop_last(), lengths) + lengths[found.last().needle_index as int] as nat
    }
}

/// Whether these matches are the places that one rewrite of these lines touches, line by line and
/// from left to right: no two overlap, and every one is in a line and of a needle that exists.
pub open spec fn is_cover(found: Seq<Found>, lengths: Seq<usize>, lines: int) -> bool {
    &&& forall|i: int|
        0 <= i < found.len() ==> (#[trigger] found[i]).haystack_index < lines
            && found[i].needle_index < lengths.len()
    &&& forall|i: int, j: int|
        #![trigger found[i], found[j]]
        0 <= i < j < found.len() ==> found[i].haystack_index < found[j].haystack_index
            || found[i].haystack_index == found[j].haystack_index && found[i].end()
            <= found[j].byte_offset
}

/// Whether everything about these matches can be counted.
pub open spec fn countable(found: Seq<Found>, lengths: Seq<usize>) -> bool {
    forall|i: int|
        0 <= i < found.len() ==> (#[trigger] found[i]).end() + produced(found, lengths)
            <= usize::MAX
}

/// How many of these matches are in the lines before `line`.
pub open spec fn earlier(found: Seq<Found>, line: int) -> int
    decreases found.len(),
{
    if found.len() == 0 {
        0
    } else {
        earlier(found.drop_last(), line) + if found.last().haystack_index < line {
            1int
        } else {
            0int
        }
    }
}

/// Whether a map describes the rewrite that touches these places: a site for each of them, in their
/// order, each line's sites consistent with one another.
pub open spec fn describes(
    map: StageMap,
    found: Seq<Found>,
    lengths: Seq<usize>,
    lines: int,
) -> bool {
    &&& map.sites@.len() == found.len()
    &&& map.starts@.len() == lines + 1
    &&& forall|i: int|
        0 <= i < found.len() ==> (#[trigger] map.sites@[i]).original_offset
            == found[i].byte_offset && map.sites@[i].original_length == found[i].byte_length
            && map.sites@[i].folded_length == lengths[found[i].needle_index as int]
    &&& forall|line: int|
        0 <= line <= lines ==> #[trigger] map.starts@[line] == earlier(found, line)
    &&& forall|i: int|
        0 <= i < found.len() ==> #[trigger] placed(map.sites@, found, i)
}

/// Whether the site at `at` stands where the one before it in its line leaves off.
pub open spec fn placed(sites: Seq<Site>, found: Seq<Found>, at: int) -> bool {
    if at == 0 || found[at - 1].haystack_index != found[at].haystack_index {
        sites[at].folded_offset == sites[at].original_offset
    } else {
        sites[at].folded_offset - sites[at - 1].folded_end() == sites[at].original_offset - sites[at
            - 1].original_end()
    }
}

proof fn lemma_produced_front(found: Seq<Found>, lengths: Seq<usize>, count: int)
    requires
        0 <= count <= found.len(),
    ensures
        produced(found.take(count), lengths) <= produced(found, lengths),
    decreases found.len() - count,
{
    if count < found.len() {
        lemma_produced_front(found, lengths, count + 1);
        assert(found.take(count + 1).drop_last() =~= found.take(count));
    } else {
        assert(found.take(count) =~= found);
    }
}

proof fn lemma_earlier(found: Seq<Found>, line: int)
    requires
        forall|i: int, j: int|
            #![trigger found[i], found[j]]
            0 <= i < j < found.len() ==> found[i].haystack_index <= found[j].haystack_index,
    ensures
        0 <= earlier(found, line) <= found.len(),
        forall|i: int|
            0 <= i < earlier(found, line) ==> (#[trigger] found[i]).haystack_index < line,
        forall|i: int|
            earlier(found, line) <= i < found.len() ==> (#[trigger] found[i]).haystack_index
                >= line,
    decreases found.len(),
{
    if found.len() > 0 {
        let fewer = found.drop_last();
        let last = found.len() - 1;
        assert(found.last() == found[last]);
        assert forall|i: int, j: int|
            #![trigger fewer[i], fewer[j]]
            0 <= i < j < fewer.len() implies fewer[i].haystack_index
            <= fewer[j].haystack_index by {
            assert(fewer[i] == found[i] && fewer[j] == found[j]);
        }
        lemma_earlier(fewer, line);
        let count = earlier(fewer, line);
        if found.last().haystack_index < line {
            if count < last {
                assert(fewer[count].haystack_index >= line);
                assert(found[count].haystack_index <= found[last].haystack_index);
            }
            assert(count == last);
            assert forall|i: int| 0 <= i < earlier(found, line) implies (
            #[trigger] found[i]).haystack_index < line by {
                if i < last {
                    assert(fewer[i] == found[i]);
                }
            }
        } else {
            assert forall|i: int| 0 <= i < earlier(found, line) implies (
            #[trigger] found[i]).haystack_index < line by {
                assert(fewer[i] == found[i]);
            }
            assert forall|i: int| earlier(found, line) <= i < found.len() implies (
            #[trigger] found[i]).haystack_index >= line by {
                if i < last {
                    assert(fewer[i] == found[i]);
                }
            }
        }
    }
}

/// Whatever splits the matches into those before a line and the rest counts those before it.
proof fn lemma_earlier_is(found: Seq<Found>, line: int, count: int)
    requires
        forall|i: int, j: int|
            #![trigger found[i], found[j]]
            0 <= i < j < found.len() ==> found[i].haystack_index <= found[j].haystack_index,
        0 <= count <= found.len(),
        forall|i: int| 0 <= i < count ==> (#[trigger] found[i]).haystack_index < line,
        forall|i: int| count <= i < found.len() ==> (#[trigger] found[i]).haystack_index >= line,
    ensures
        earlier(found, line) == count,
{
    lemma_earlier(found, line);
    let other = earlier(found, line);
    if other < count {
        assert(found[other].haystack_index >= line);
    }
    if count < other {
        assert(found[count].haystack_index < line);
    }
}

/// The sites of each line, from the places a rewrite touches: their consumed length is the match's,
/// and their produced length the replacement's.
pub fn sites_of(found: &[Found], lengths: &[usize], lines: usize) -> (map: StageMap)
    requires
        is_cover(found@, lengths@, lines as int),
        countable(found@, lengths@),
        lines < usize::MAX,
    ensures
        describes(map, found@, lengths@, lines as int),
{
    let mut sites: Vec<Site> = Vec::new();
    let mut starts: Vec<usize> = Vec::new();
    starts.push(0);
    let mut line: usize = 0;
    // Where the sites of the current line leave off in the folded text and in the original.
    let mut folded_end: usize = 0;
    let mut original_end: usize = 0;
    let mut index: usize = 0;
    proof {
        assert forall|i: int, j: int|
            #![trigger found@[i], found@[j]]
            0 <= i < j < found@.len() implies found@[i].haystack_index
            <= found@[j].haystack_index by {}
        lemma_earlier_is(found@, 0, 0);
        assert(found@.take(0) =~= Seq::empty());
    }
    while index < found.len()
        invariant
            index <= found@.len(),
            is_cover(found@, lengths@, lines as int),
            countable(found@, lengths@),
            lines < usize::MAX,
            line <= lines,
            sites@.len() == index,
            starts@.len() == line + 1,
            index > 0 ==> line == found@[index - 1].haystack_index,
            index == 0 ==> line == 0 && folded_end == 0 && original_end == 0,
            index > 0 ==> folded_end == sites@[index - 1].folded_end() && original_end
                == sites@[index - 1].original_end(),
            folded_end <= original_end + produced(found@.take(index as int), lengths@),
            forall|i: int|
                0 <= i < index ==> (#[trigger] sites@[i]).original_offset == found@[i].byte_offset
                    && sites@[i].original_length == found@[i].byte_length
                    && sites@[i].folded_length == lengths@[found@[i].needle_index as int],
            forall|i: int| 0 <= i < index ==> #[trigger] placed(sites@, found@, i),
            forall|at: int| 0 <= at <= line ==> #[trigger] starts@[at] == earlier(found@, at),
        decreases found@.len() - index,
    {
        let one = found[index];
        let ghost before = sites@;
        let ghost had = line;
        if line < one.haystack_index {
            folded_end = 0;
            original_end = 0;
        }
        while line < one.haystack_index
            invariant
                index < found@.len(),
                one == found@[index as int],
                is_cover(found@, lengths@, lines as int),
                had <= line <= one.haystack_index < lines < usize::MAX,
                index > 0 ==> had == found@[index - 1].haystack_index,
                sites@.len() == index,
                starts@.len() == line + 1,
                forall|at: int| 0 <= at <= line ==> #[trigger] starts@[at] == earlier(found@, at),
            decreases one.haystack_index - line,
        {
            starts.push(sites.len());
            proof {
                assert forall|i: int, j: int|
                    #![trigger found@[i], found@[j]]
                    0 <= i < j < found@.len() implies found@[i].haystack_index
                    <= found@[j].haystack_index by {}
                lemma_earlier_is(found@, line + 1, index as int);
            }
            line += 1;
        }
        proof {
            let now = found@.take(index + 1);
            assert(now.drop_last() =~= found@.take(index as int));
            assert(now.last() == one);
            lemma_produced_front(found@, lengths@, index + 1);
            assert(found@[index as int].end() + produced(found@, lengths@) <= usize::MAX);
            if index > 0 && found@[index - 1].haystack_index == one.haystack_index {
                assert(found@[index - 1].end() <= one.byte_offset);
            }
        }
        let length: usize = lengths[one.needle_index];
        let folded_offset: usize = folded_end + (one.byte_offset - original_end);
        let site = Site {
            folded_offset,
            folded_length: length,
            original_offset: one.byte_offset,
            original_length: one.byte_length,
        };
        sites.push(site);
        folded_end = folded_offset + length;
        original_end = one.byte_offset + one.byte_length;
        proof {
            assert forall|i: int| 0 <= i < index + 1 implies #[trigger] placed(
                sites@,
                found@,
                i,
            ) by {
                if i < index {
                    assert(placed(before, found@, i));
                    assert(sites@[i] == before[i]);
                    if i > 0 {
                        assert(sites@[i - 1] == before[i - 1]);
                    }
                } else if i > 0 {
                    assert(sites@[i - 1] == before[i - 1]);
                }
            }
        }
        index += 1;
    }
    while line < lines
        invariant
            is_cover(found@, lengths@, lines as int),
            lines < usize::MAX,
            line <= lines,
            sites@.len() == found@.len(),
            starts@.len() == line + 1,
            found@.len() > 0 ==> line >= found@.last().haystack_index,
            forall|at: int| 0 <= at <= line ==> #[trigger] starts@[at] == earlier(found@, at),
        decreases lines - line,
    {
        starts.push(sites.len());
        proof {
            assert forall|i: int, j: int|
                #![trigger found@[i], found@[j]]
                0 <= i < j < found@.len() implies found@[i].haystack_index
                <= found@[j].haystack_index by {}
            assert forall|i: int| 0 <= i < found@.len() implies (
            #[trigger] found@[i]).haystack_index < line + 1 by {
                if i < found@.len() - 1 {
                    assert(found@[i].haystack_index <= found@[found@.len() - 1].haystack_index);
                }
            }
            lemma_earlier_is(found@, line + 1, found@.len() as int);
        }
        line += 1;
    }
    StageMap { sites, starts }
}

/// A map of a rewrite has every line, and each line's sites are consistent.
pub proof fn a_described_line_is_consistent(
    map: StageMap,
    found: Seq<Found>,
    lengths: Seq<usize>,
    lines: int,
    line: int,
)
    requires
        is_cover(found, lengths, lines),
        describes(map, found, lengths, lines),
        0 <= line < lines,
    ensures
        map.has_line(line),
        consistent(map.line(line)),
{
    assert forall|i: int, j: int|
        #![trigger found[i], found[j]]
        0 <= i < j < found.len() implies found[i].haystack_index <= found[j].haystack_index by {}
    lemma_earlier(found, line);
    lemma_earlier(found, line + 1);
    let first = earlier(found, line);
    let end = earlier(found, line + 1);
    assert(map.starts@[line] == first);
    assert(map.starts@[line + 1] == end);
    if end < first {
        assert(found[end].haystack_index >= line + 1);
        assert(found[end].haystack_index < line);
    }
    let sites = map.line(line);
    assert forall|i: int| first <= i < end implies (#[trigger] found[i]).haystack_index == line by {
        assert(found[i].haystack_index < line + 1);
        assert(found[i].haystack_index >= line);
    }
    if sites.len() > 0 {
        assert(sites[0] == map.sites@[first]);
        assert(placed(map.sites@, found, first));
        assert(found[first].haystack_index == line);
        if first > 0 {
            assert(found[first - 1].haystack_index < line);
        }
    }
    assert forall|i: int, j: int|
        #![trigger sites[i], sites[j]]
        0 <= i && j == i + 1 && j < sites.len() implies {
        &&& sites[i].original_end() <= sites[j].original_offset
        &&& sites[j].folded_offset - sites[i].folded_end() == sites[j].original_offset
            - sites[i].original_end()
    } by {
        assert(sites[i] == map.sites@[first + i]);
        assert(sites[j] == map.sites@[first + j]);
        assert(placed(map.sites@, found, first + j));
        assert(found[first + i].haystack_index == line);
        assert(found[first + j].haystack_index == line);
    }
    lemma_consistent_ascends(sites);
}

/// Put matches in the order that [`sites_of`] takes them in: an automaton reports them by their
/// ends, and interleaves the lines.
pub fn in_reading_order(found: Vec<Found>) -> (sorted: Vec<Found>)
    ensures
        ordered(sorted@, true),
        sorted@.to_multiset() == found@.to_multiset(),
{
    sort(found)
}

/// Whether matches in reading order are the places that one rewrite touches, and can be counted.
pub fn covers(found: &[Found], lengths: &[usize], lines: usize) -> (yes: bool)
    ensures
        yes ==> is_cover(found@, lengths@, lines as int) && countable(found@, lengths@),
        is_cover(found@, lengths@, lines as int) && countable(found@, lengths@) ==> yes,
{
    let mut total: usize = 0;
    let mut furthest: usize = 0;
    let mut index: usize = 0;
    assert(found@.take(0) =~= Seq::empty());
    while index < found.len()
        invariant
            index <= found@.len(),
            is_cover(found@.take(index as int), lengths@, lines as int),
            total == produced(found@.take(index as int), lengths@),
            forall|i: int| 0 <= i < index ==> (#[trigger] found@[i]).end() <= furthest,
            index > 0 ==> exists|i: int|
                0 <= i < index && (#[trigger] found@[i]).end() == furthest,
            index == 0 ==> furthest == 0,
            total + furthest <= usize::MAX,
        decreases found@.len() - index,
    {
        let one = found[index];
        let ghost seen = found@.take(index as int);
        let ghost now = found@.take(index + 1);
        proof {
            assert(now.drop_last() =~= seen);
            assert(now.last() == one);
            assert(found@[index as int] == one);
            lemma_produced_front(found@, lengths@, index + 1);
        }
        if one.haystack_index >= lines || one.needle_index >= lengths.len() {
            return false;
        }
        if index > 0 {
            let before = found[index - 1];
            let follows = before.haystack_index < one.haystack_index || (before.haystack_index
                == one.haystack_index && before.byte_length <= one.byte_offset
                && before.byte_offset <= one.byte_offset - before.byte_length);
            if !follows {
                assert(found@[index - 1] == before);
                return false;
            }
        }
        proof {
            assert forall|i: int, j: int|
                #![trigger now[i], now[j]]
                0 <= i < j < now.len() implies now[i].haystack_index < now[j].haystack_index
                || now[i].haystack_index == now[j].haystack_index && now[i].end()
                <= now[j].byte_offset by {
                assert(now[i] == seen[i]);
                if j < index {
                    assert(now[j] == seen[j]);
                } else {
                    assert(now[j] == one);
                    assert(seen[index - 1] == found@[index - 1]);
                    if i < index - 1 {
                        assert(seen[i].haystack_index < seen[index - 1].haystack_index
                            || seen[i].end() <= seen[index - 1].byte_offset);
                    }
                }
            }
            assert forall|i: int| 0 <= i < now.len() implies (#[trigger] now[i]).haystack_index
                < lines && now[i].needle_index < lengths@.len() by {
                if i < index {
                    assert(now[i] == seen[i]);
                }
            }
        }
        let end: usize = match one.byte_offset.checked_add(one.byte_length) {
            Some(end) => end,
            None => {
                return false;
            },
        };
        if end > furthest {
            furthest = end;
        }
        let length: usize = lengths[one.needle_index];
        total = match total.checked_add(length) {
            Some(total) => total,
            None => {
                return false;
            },
        };
        if total > usize::MAX - furthest {
            proof {
                let i = choose|i: int| 0 <= i < index + 1 && (#[trigger] found@[i]).end()
                    == furthest;
                assert(found@[i].end() + produced(found@, lengths@) > usize::MAX);
            }
            return false;
        }
        index += 1;
    }
    assert(found@.take(index as int) =~= found@);
    true
}

/// One located span, in the original bytes of the line it was found in.
#[derive(Clone, Copy, Debug, PartialEq, Eq, Structural)]
pub struct Located {
    pub line_index: usize,
    pub byte_offset: usize,
    pub byte_length: usize,
}

impl Located {
    /// Whether this is a match carried back through these stages.
    pub open spec fn is_of(self, stages: Seq<StageMap>, found: Found) -> bool {
        let line = found.haystack_index as int;
        let start = carried_through(stages, line, found.byte_offset as int, Edge::Start);
        let end = carried_through(stages, line, found.end(), Edge::End);
        &&& self.line_index == found.haystack_index
        &&& self.byte_offset == start
        &&& self.byte_length == end - start
    }

    /// A match found in the same bytes that will be printed, so its offsets already answer.
    pub fn verbatim(found: Found) -> (located: Self)
        ensures
            located.line_index == found.haystack_index,
            located.byte_offset == found.byte_offset,
            located.byte_length == found.byte_length,
    {
        Located {
            line_index: found.haystack_index,
            byte_offset: found.byte_offset,
            byte_length: found.byte_length,
        }
    }
}

/// The whole chain's map, from the bytes an automaton walked back to the caller's own.
pub struct Rewrites {
    pub stages: Vec<StageMap>,
}

/// Where an offset sits once it is carried back through all these stages, the last applied first.
pub open spec fn carried_through(
    stages: Seq<StageMap>,
    line: int,
    folded: int,
    edge: Edge,
) -> int
    decreases stages.len(),
{
    if stages.len() == 0 {
        folded
    } else {
        carried_through(
            stages.drop_last(),
            line,
            carried_back(stages.last().line(line), folded, edge),
            edge,
        )
    }
}

/// Whether an offset can be carried back through all these stages.
pub open spec fn carries(stages: Seq<StageMap>, line: int, folded: int, edge: Edge) -> bool
    decreases stages.len(),
{
    stages.len() > 0 ==> {
        let stage = stages.last();
        &&& stage.carries(line, folded, edge)
        &&& carries(
            stages.drop_last(),
            line,
            carried_back(stage.line(line), folded, edge),
            edge,
        )
    }
}

/// A span never turns inside out on its way back through a chain of stages.
pub proof fn a_span_stays_a_span_through_a_chain(
    stages: Seq<StageMap>,
    line: int,
    start: int,
    end: int,
)
    requires
        carries(stages, line, start, Edge::Start),
        carries(stages, line, end, Edge::End),
        0 <= start <= end,
    ensures
        0 <= carried_through(stages, line, start, Edge::Start) <= carried_through(
            stages,
            line,
            end,
            Edge::End,
        ),
    decreases stages.len(),
{
    if stages.len() > 0 {
        let sites = stages.last().line(line);
        a_span_stays_a_span(sites, start, end);
        a_span_stays_a_span_through_a_chain(
            stages.drop_last(),
            line,
            carried_back(sites, start, Edge::Start),
            carried_back(sites, end, Edge::End),
        );
    }
}

impl Rewrites {
    /// Carry one offset back through every stage, last applied first.
    pub fn backward(&self, line: usize, folded: usize, edge: Edge) -> (original: usize)
        requires
            carries(self.stages@, line as int, folded as int, edge),
        ensures
            original == carried_through(self.stages@, line as int, folded as int, edge),
    {
        let mut offset: usize = folded;
        let mut left: usize = self.stages.len();
        assert(self.stages@.take(left as int) =~= self.stages@);
        while left > 0
            invariant
                left <= self.stages@.len(),
                carries(self.stages@.take(left as int), line as int, offset as int, edge),
                carried_through(self.stages@, line as int, folded as int, edge)
                    == carried_through(
                    self.stages@.take(left as int),
                    line as int,
                    offset as int,
                    edge,
                ),
            decreases left,
        {
            proof {
                assert(self.stages@.take(left as int).drop_last() =~= self.stages@.take(left - 1));
                assert(self.stages@.take(left as int).last() == self.stages@[left - 1]);
            }
            left -= 1;
            offset = self.stages[left].backward(line, offset, edge);
        }
        offset
    }

    /// Whether both edges of a match can be carried back.
    pub open spec fn locates(&self, found: Found) -> bool {
        let line = found.haystack_index as int;
        &&& found.end() <= usize::MAX
        &&& carries(self.stages@, line, found.byte_offset as int, Edge::Start)
        &&& carries(self.stages@, line, found.end(), Edge::End)
    }

    /// Carry a whole match back, so the caller receives a span it can slice directly.
    pub fn located(&self, found: Found) -> (located: Located)
        requires
            self.locates(found),
        ensures
            located.is_of(self.stages@, found),
    {
        let line: usize = found.haystack_index;
        let start: usize = self.backward(line, found.byte_offset, Edge::Start);
        let end: usize = self.backward(line, found.byte_offset + found.byte_length, Edge::End);
        proof {
            a_span_stays_a_span_through_a_chain(
                self.stages@,
                line as int,
                found.byte_offset as int,
                found.end(),
            );
        }
        Located { line_index: line, byte_offset: start, byte_length: end - start }
    }

    /// Carry one offset back through every stage, or `None` where a stage cannot carry it.
    pub fn checked_backward(&self, line: usize, folded: usize, edge: Edge) -> (original: Option<
        usize,
    >)
        ensures
            original is Some <==> carries(self.stages@, line as int, folded as int, edge),
            original matches Some(original) ==> original == carried_through(
                self.stages@,
                line as int,
                folded as int,
                edge,
            ),
    {
        let mut offset: usize = folded;
        let mut left: usize = self.stages.len();
        assert(self.stages@.take(left as int) =~= self.stages@);
        while left > 0
            invariant
                left <= self.stages@.len(),
                carries(self.stages@, line as int, folded as int, edge) == carries(
                    self.stages@.take(left as int),
                    line as int,
                    offset as int,
                    edge,
                ),
                carried_through(self.stages@, line as int, folded as int, edge)
                    == carried_through(
                    self.stages@.take(left as int),
                    line as int,
                    offset as int,
                    edge,
                ),
            decreases left,
        {
            proof {
                assert(self.stages@.take(left as int).drop_last() =~= self.stages@.take(left - 1));
                assert(self.stages@.take(left as int).last() == self.stages@[left - 1]);
            }
            left -= 1;
            match self.stages[left].checked_backward(line, offset, edge) {
                Some(original) => {
                    offset = original;
                },
                None => {
                    return None;
                },
            }
        }
        Some(offset)
    }

    /// Carry a whole match back, or `None` where its end cannot be counted or a stage cannot carry
    /// one of its edges.
    pub fn checked_located(&self, found: Found) -> (located: Option<Located>)
        ensures
            located is Some <==> self.locates(found),
            located matches Some(located) ==> located.is_of(self.stages@, found),
    {
        if found.byte_length > usize::MAX - found.byte_offset {
            return None;
        }
        let line: usize = found.haystack_index;
        let end: usize = found.byte_offset + found.byte_length;
        if self.checked_backward(line, found.byte_offset, Edge::Start).is_none()
            || self.checked_backward(line, end, Edge::End).is_none() {
            return None;
        }
        Some(self.located(found))
    }
}

} // verus!
