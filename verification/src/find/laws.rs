//! What a search is for: which bytes it may report, and which it may not pass over.

use vstd::prelude::*;

use crate::matching::match_in;
use crate::sz::{index_of, lemma_index_of, occurs_at};

use super::matcher::{lemma_match_from, match_from, matches_from, Rule};

verus! {

/// Whether an ASCII letter, an ASCII digit or an underscore stands at `at`.
pub open spec fn identifier_at(data: Seq<u8>, at: int) -> bool {
    &&& 0 <= at < data.len()
    &&& ('a' as u8 <= data[at] <= 'z' as u8 || 'A' as u8 <= data[at] <= 'Z' as u8 || '0' as u8
        <= data[at] <= '9' as u8 || data[at] == '_' as u8)
}

/// Whether the pattern stands at `at`, byte for byte, and is a word of its own where one is asked
/// for.
#[verifier::opaque]
pub open spec fn stands_at(data: Seq<u8>, rule: Rule, at: int) -> bool {
    &&& 0 <= at
    &&& at + rule.pattern.len() <= data.len()
    &&& data.subrange(at, at + rule.pattern.len()) == rule.pattern
    &&& rule.whole_word ==> !identifier_at(data, at - 1) && !identifier_at(
        data,
        at + rule.pattern.len(),
    )
}

/// Under the byte rules a search with regard to case finds the leftmost place at or behind `from`
/// where the pattern stands, byte for byte, and where a whole word is asked for no ASCII letter,
/// digit or underscore stands in front of it or behind it. It finds nothing exactly where there is
/// no such place.
pub proof fn the_leftmost_place_is_found(data: Seq<u8>, rule: Rule, from: int)
    requires
        0 <= from <= data.len(),
        rule.pattern.len() > 0,
        !rule.ignore_case,
        !rule.unicode,
    ensures
        match match_from(data, rule, from) {
            Some((offset, length)) => {
                &&& from <= offset
                &&& length == rule.pattern.len()
                &&& stands_at(data, rule, offset)
                &&& forall|at: int| from <= at < offset ==> !stands_at(data, rule, at)
            },
            None => forall|at: int| from <= at ==> !stands_at(data, rule, at),
        },
    decreases data.len() - from,
{
    reveal(stands_at);
    if from < data.len() {
        let rest = data.subrange(from, data.len() as int);
        lemma_index_of(rest, rule.pattern, 0);
        assert forall|at: int| from <= at && stands_at(data, rule, at) implies occurs_at(
            rest,
            rule.pattern,
            at - from,
        ) by {
            assert(rest.subrange(at - from, at - from + rule.pattern.len()) =~= data.subrange(
                at,
                at + rule.pattern.len(),
            ));
        }
        match index_of(rest, rule.pattern, 0) {
            Some(offset) => {
                assert(match_in(rest, rule.pattern, rule.ignore_case) == Some(
                    (offset, rule.pattern.len() as int),
                ));
                assert(rest.subrange(offset, offset + rule.pattern.len()) =~= data.subrange(
                    from + offset,
                    from + offset + rule.pattern.len(),
                ));
                the_leftmost_place_is_found(data, rule, from + offset + 1);
                assert forall|at: int| from <= at < from + offset implies !stands_at(
                    data,
                    rule,
                    at,
                ) by {
                    assert(!occurs_at(rest, rule.pattern, at - from));
                }
            },
            None => {},
        }
    }
}

/// Whether one of these matches covers the byte at `at`.
#[verifier::opaque]
pub open spec fn covered(found: Seq<(int, int)>, at: int) -> bool {
    exists|i: int| 0 <= i < found.len() && (#[trigger] found[i]).0 <= at < found[i].0 + found[i].1
}

/// Under the byte rules the matches of a search with regard to case are places where the pattern
/// stands, one behind the other, and every place where it stands is one of them or overlaps one.
pub proof fn no_place_is_passed_over(data: Seq<u8>, rule: Rule, from: int)
    requires
        0 <= from <= data.len(),
        rule.pattern.len() > 0,
        !rule.ignore_case,
        !rule.unicode,
    ensures
        ({
            let found = matches_from(data, rule, from);
            &&& forall|i: int|
                #![trigger found[i]]
                0 <= i < found.len() ==> from <= found[i].0 && found[i].1 == rule.pattern.len()
                    && stands_at(data, rule, found[i].0)
            &&& forall|i: int, j: int|
                #![trigger found[i], found[j]]
                0 <= i < j < found.len() ==> found[i].0 + rule.pattern.len() <= found[j].0
            &&& forall|at: int|
                from <= at && #[trigger] stands_at(data, rule, at) ==> covered(found, at)
        }),
    decreases data.len() - from,
{
    let found = matches_from(data, rule, from);
    lemma_match_from(data, rule, from);
    the_leftmost_place_is_found(data, rule, from);
    match match_from(data, rule, from) {
        Some((offset, length)) => {
            let later = matches_from(data, rule, offset + length);
            no_place_is_passed_over(data, rule, offset + length);
            assert(found == seq![(offset, length)] + later);
            assert forall|i: int| #![trigger found[i]] 0 <= i < found.len() implies from <= found[i].0
                && found[i].1 == rule.pattern.len() && stands_at(data, rule, found[i].0) by {
                if i > 0 {
                    assert(found[i] == later[i - 1]);
                }
            }
            assert forall|i: int, j: int|
                #![trigger found[i], found[j]]
                0 <= i < j < found.len() implies found[i].0 + rule.pattern.len()
                <= found[j].0 by {
                assert(found[j] == later[j - 1]);
                if i > 0 {
                    assert(found[i] == later[i - 1]);
                }
            }
            assert forall|at: int| from <= at && #[trigger] stands_at(data, rule, at) implies covered(
                found,
                at,
            ) by {
                reveal(covered);
                if at < offset + length {
                    assert(found[0].0 <= at);
                } else {
                    let i = choose|i: int|
                        0 <= i < later.len() && (#[trigger] later[i]).0 <= at < later[i].0
                            + later[i].1;
                    assert(found[i + 1] == later[i]);
                }
            }
        },
        None => {},
    }
}

/// Under the byte rules a whole-word match, with or without regard to case, is neither preceded nor
/// followed by an ASCII letter, an ASCII digit or an underscore.
pub proof fn whole_words_stand_alone(data: Seq<u8>, rule: Rule, from: int)
    requires
        0 <= from <= data.len(),
        rule.whole_word,
        !rule.unicode,
    ensures
        forall|i: int|
            #![trigger matches_from(data, rule, from)[i]]
            0 <= i < matches_from(data, rule, from).len() ==> {
                let (offset, length) = matches_from(data, rule, from)[i];
                &&& !identifier_at(data, offset - 1)
                &&& !identifier_at(data, offset + length)
            },
    decreases data.len() - from,
{
    lemma_match_from(data, rule, from);
    lemma_alone(data, rule, from);
    let found = matches_from(data, rule, from);
    match match_from(data, rule, from) {
        Some((offset, length)) => {
            let later = matches_from(data, rule, offset + length);
            whole_words_stand_alone(data, rule, offset + length);
            assert(found == seq![(offset, length)] + later);
            assert forall|i: int|
                #![trigger found[i]]
                0 <= i < found.len() implies !identifier_at(data, found[i].0 - 1)
                && !identifier_at(data, found[i].0 + found[i].1) by {
                if i > 0 {
                    assert(found[i] == later[i - 1]);
                }
            }
        },
        None => {},
    }
}

/// A whole-word match stands alone under the byte rules.
pub proof fn lemma_alone(data: Seq<u8>, rule: Rule, from: int)
    requires
        0 <= from <= data.len(),
        rule.whole_word,
        !rule.unicode,
    ensures
        match_from(data, rule, from) matches Some((offset, length)) ==> !identifier_at(
            data,
            offset - 1,
        ) && !identifier_at(data, offset + length),
    decreases data.len() - from,
{
    if from < data.len() {
        match match_in(data.subrange(from, data.len() as int), rule.pattern, rule.ignore_case) {
            Some((offset, length)) => {
                if 0 <= offset && 0 < length && from + offset + length <= data.len() {
                    lemma_alone(data, rule, from + offset + 1);
                }
            },
            None => {},
        }
    }
}

} // verus!
