//! Which lines a search selects.

use vstd::prelude::*;

use crate::lines::Newlines;

use super::matcher::{match_from, MatchInfo, Matcher, Rule};

verus! {

/// Whether anything reads how many lines a run walked over, which only a whole-buffer search pays
/// a pass over its input to know.
#[derive(Clone, Copy, Debug, PartialEq, Eq, Structural)]
pub enum LineCounting {
    Ignored,
    Reported,
}

/// Whether a line is in the result, and the first match a column points at when one exists.
#[derive(Clone, Copy, Debug, PartialEq, Eq, Structural)]
pub enum Selection {
    Rejected,
    /// Absent in an inverted search, which selects the lines that hold no match.
    Selected(Option<MatchInfo>),
}

/// What every search reads: the pattern, the line split, the selection rules, and whether the lines
/// walked over are counted.
#[derive(Clone, Copy, Debug)]
pub struct Search<'a> {
    pub matcher: Matcher<'a>,
    pub newlines: Newlines,
    pub multiline: bool,
    pub invert_match: bool,
    pub max_matches: Option<usize>,
    pub line_counting: LineCounting,
}

/// The match a line is selected for, in a search that may be inverted: nothing where the line is
/// rejected, and no match where it was selected for holding none.
pub open spec fn selected(line: Seq<u8>, rule: Rule, invert: bool) -> Option<Option<(int, int)>> {
    match match_from(line, rule, 0) {
        Some(found) => if invert {
            None
        } else {
            Some(Some(found))
        },
        None => if invert {
            Some(None)
        } else {
            None
        },
    }
}

/// Whether a cap on matches is reached.
pub open spec fn reached(matches: nat, max: Option<usize>) -> bool {
    max matches Some(max) && matches >= max
}

impl<'a> Search<'a> {
    /// A pattern with nothing in it matches nothing worth reporting, so no search has one.
    pub open spec fn wf(&self) -> bool {
        self.matcher.pattern@.len() > 0
    }

    /// Select the line, resolving its first match once for the column and the highlight.
    pub fn select(&self, line: &[u8]) -> (selection: Selection)
        requires
            self.wf(),
        ensures
            match selection {
                Selection::Rejected => selected(line@, self.matcher@, self.invert_match) is None,
                Selection::Selected(None) => selected(line@, self.matcher@, self.invert_match)
                    == Some(None::<(int, int)>),
                Selection::Selected(Some(found)) => selected(
                    line@,
                    self.matcher@,
                    self.invert_match,
                ) == Some(Some((found.offset as int, found.length as int))) && found.inside(line@)
                    && found.length > 0,
            },
    {
        let mut matches = self.matcher.matches(line);
        match matches.next() {
            Some(found) => if self.invert_match {
                Selection::Rejected
            } else {
                Selection::Selected(Some(found))
            },
            None => if self.invert_match {
                Selection::Selected(None)
            } else {
                Selection::Rejected
            },
        }
    }
}

} // verus!
