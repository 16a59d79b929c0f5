//! Finding a literal pattern, with or without regard to case.

use vstd::prelude::*;

use crate::sz::{find, index_of, lemma_index_of, uncased_match, uncased_search};

verus! {

/// The next match in `rest`, as an offset and the length the match occupies — which case folding
/// can make differ from the pattern's own length.
pub open spec fn match_in(rest: Seq<u8>, pattern: Seq<u8>, ignore_case: bool) -> Option<(int, int)> {
    if ignore_case {
        match uncased_match(rest, pattern) {
            Some((offset, length)) => Some((offset as int, length as int)),
            None => None,
        }
    } else {
        match index_of(rest, pattern, 0) {
            Some(offset) => Some((offset, pattern.len() as int)),
            None => None,
        }
    }
}

/// The next match in `rest`, as an offset and the length the match occupies.
///
/// Case-insensitive matching uses StringZilla's full-Unicode search, with no folded copy of the
/// input.
pub fn next_match(rest: &[u8], pattern: &[u8], ignore_case: bool) -> (found: Option<
    (usize, usize),
>)
    ensures
        match found {
            Some((offset, length)) => match_in(rest@, pattern@, ignore_case) == Some(
                (offset as int, length as int),
            ) && offset + length <= rest@.len() && (pattern@.len() > 0 ==> length > 0),
            None => match_in(rest@, pattern@, ignore_case) is None,
        },
{
    if ignore_case {
        uncased_search(rest, pattern)
    } else {
        proof {
            lemma_index_of(rest@, pattern@, 0);
        }
        match find(rest, pattern) {
            Some(offset) => Some((offset, pattern.len())),
            None => None,
        }
    }
}

} // verus!
