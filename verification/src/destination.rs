//! Where a run's output lands.

use vstd::prelude::*;

verus! {

/// Where a run's output lands. A discarding run still produces its output, so the count that
/// answers a quiet run stays honest.
#[derive(Debug)]
pub enum Destination<'a> {
    /// Produced and thrown away, for a quiet run or a dry one.
    Discard,
    /// The caller's standard output.
    Stdout,
    /// A named file that need not exist.
    Creating(&'a str),
    /// The input itself, swapped in atomically.
    Replacing(&'a str),
}

} // verus!
