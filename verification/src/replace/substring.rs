//! Replacing a literal pattern, leftmost first and never overlapping.

use vstd::prelude::*;

use crate::bytes::{lemma_append, put};
use crate::matching::{match_in, next_match};
use crate::sz::{lemma_index_of, occurs_at};

verus! {

/// How many leftmost, non-overlapping matches `rest` holds.
pub open spec fn match_count(rest: Seq<u8>, pattern: Seq<u8>, ignore_case: bool) -> nat
    decreases rest.len(),
{
    match match_in(rest, pattern, ignore_case) {
        Some((offset, length)) => if 0 <= offset && 0 < length && offset + length <= rest.len() {
            1 + match_count(
                rest.subrange(offset + length, rest.len() as int),
                pattern,
                ignore_case,
            )
        } else {
            0
        },
        None => 0,
    }
}

/// How many times `pattern` occurs, counting the same leftmost, non-overlapping matches that
/// [`replace_to`] would rewrite.
pub fn count_matches(data: &[u8], pattern: &[u8], ignore_case: bool) -> (count: usize)
    ensures
        count == if pattern@.len() == 0 {
            0
        } else {
            match_count(data@, pattern@, ignore_case)
        },
{
    if pattern.len() == 0 {
        return 0;
    }
    let mut position: usize = 0;
    let mut count: usize = 0;
    assert(data@.subrange(0, data@.len() as int) =~= data@);
    loop
        invariant
            position <= data@.len(),
            pattern@.len() > 0,
            count <= position,
            match_count(data@, pattern@, ignore_case) == count + match_count(
                data@.subrange(position as int, data@.len() as int),
                pattern@,
                ignore_case,
            ),
        decreases data@.len() - position,
    {
        let rest: &[u8] = &data[position..data.len()];
        match next_match(rest, pattern, ignore_case) {
            None => {
                return count;
            },
            Some((offset, length)) => {
                proof {
                    assert(rest@.subrange(offset + length, rest@.len() as int) =~= data@.subrange(
                        position + offset + length,
                        data@.len() as int,
                    ));
                }
                count += 1;
                position = position + offset + length;
            },
        }
    }
}

/// `rest` with up to `limit` matches of `pattern` replaced.
pub open spec fn replaced(
    rest: Seq<u8>,
    pattern: Seq<u8>,
    replacement: Seq<u8>,
    ignore_case: bool,
    limit: nat,
) -> Seq<u8>
    decreases rest.len(),
{
    match match_in(rest, pattern, ignore_case) {
        Some((offset, length)) => if limit > 0 && 0 <= offset && 0 < length && offset + length
            <= rest.len() {
            rest.subrange(0, offset) + replacement + replaced(
                rest.subrange(offset + length, rest.len() as int),
                pattern,
                replacement,
                ignore_case,
                (limit - 1) as nat,
            )
        } else {
            rest
        },
        None => rest,
    }
}

/// The smaller of two counts.
pub open spec fn at_most(count: nat, limit: nat) -> nat {
    if count < limit {
        count
    } else {
        limit
    }
}

/// Append `data` to `out` with up to `limit` occurrences of `pattern` replaced by `replacement`.
/// Returns how many were.
///
/// Matching is leftmost-first and non-overlapping, and advances by the matched length rather than
/// the pattern's, so a folded match of a different width keeps the cursor in step. An empty
/// pattern has no replacement to make.
pub fn replace_to(
    data: &[u8],
    pattern: &[u8],
    replacement: &[u8],
    ignore_case: bool,
    limit: usize,
    out: &mut Vec<u8>,
) -> (count: usize)
    ensures
        pattern@.len() == 0 ==> final(out)@ == old(out)@ + data@ && count == 0,
        pattern@.len() > 0 ==> final(out)@ == old(out)@ + replaced(
            data@,
            pattern@,
            replacement@,
            ignore_case,
            limit as nat,
        ) && count == at_most(match_count(data@, pattern@, ignore_case), limit as nat),
{
    if pattern.len() == 0 {
        put(out, data);
        return 0;
    }
    let mut position: usize = 0;
    let mut count: usize = 0;
    assert(data@.subrange(0, data@.len() as int) =~= data@);
    loop
        invariant
            position <= data@.len(),
            pattern@.len() > 0,
            count <= limit,
            match_count(data@, pattern@, ignore_case) == count + match_count(
                data@.subrange(position as int, data@.len() as int),
                pattern@,
                ignore_case,
            ),
            old(out)@ + replaced(data@, pattern@, replacement@, ignore_case, limit as nat) == out@
                + replaced(
                data@.subrange(position as int, data@.len() as int),
                pattern@,
                replacement@,
                ignore_case,
                (limit - count) as nat,
            ),
        decreases data@.len() - position,
    {
        let rest: &[u8] = &data[position..data.len()];
        let found = if count < limit {
            next_match(rest, pattern, ignore_case)
        } else {
            None
        };
        match found {
            None => {
                put(out, rest);
                return count;
            },
            Some((offset, length)) => {
                let ghost before = out@;
                put(out, &rest[0..offset]);
                put(out, replacement);
                proof {
                    let behind = data@.subrange(
                        position + offset + length,
                        data@.len() as int,
                    );
                    assert(rest@.subrange(offset + length, rest@.len() as int) =~= behind);
                    let head = rest@.subrange(0, offset as int);
                    let tail = replaced(
                        behind,
                        pattern@,
                        replacement@,
                        ignore_case,
                        (limit - count - 1) as nat,
                    );
                    lemma_append(before, head + replacement@, tail);
                    lemma_append(before, head, replacement@);
                }
                count += 1;
                position = position + offset + length;
            },
        }
    }
}

/// Replacing a pattern with itself changes nothing.
pub proof fn replacing_with_itself_changes_nothing(
    rest: Seq<u8>,
    pattern: Seq<u8>,
    limit: nat,
)
    ensures
        replaced(rest, pattern, pattern, false, limit) == rest,
    decreases rest.len(),
{
    lemma_index_of(rest, pattern, 0);
    match match_in(rest, pattern, false) {
        Some((offset, length)) => {
            if limit > 0 && 0 < length && offset + length <= rest.len() {
                let behind = rest.subrange(offset + length, rest.len() as int);
                replacing_with_itself_changes_nothing(behind, pattern, (limit - 1) as nat);
                assert(occurs_at(rest, pattern, offset));
                assert(rest.subrange(0, offset) + pattern + behind =~= rest) by {
                    assert(rest.subrange(offset, offset + length) == pattern);
                    assert forall|at: int| 0 <= at < pattern.len() implies pattern[at]
                        == rest[offset + at] by {
                        assert(rest.subrange(offset, offset + length)[at] == rest[offset + at]);
                    }
                }
            }
        },
        None => {},
    }
}

/// Where nothing matches, nothing is replaced; and a limit of nothing replaces nothing.
pub proof fn nothing_matched_is_nothing_replaced(
    rest: Seq<u8>,
    pattern: Seq<u8>,
    replacement: Seq<u8>,
    ignore_case: bool,
    limit: nat,
)
    requires
        limit == 0 || match_count(rest, pattern, ignore_case) == 0,
    ensures
        replaced(rest, pattern, replacement, ignore_case, limit) == rest,
{
}

} // verus!
