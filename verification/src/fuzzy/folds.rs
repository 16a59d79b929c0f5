//! Script and phonetic folds, read from a `transform<TAB>source<TAB>target` table that is grouped
//! by transform.

use vstd::prelude::*;

use crate::text::chars_of;

use super::tables::{
    columns, columns_of, known_names, names_of, rows, rows_of, same_chars, spelled, text_of, texts,
};

verus! {

/// One named transform, as the parallel needle and replacement lists a rewrite takes.
pub struct Fold {
    pub sources: Vec<String>,
    pub targets: Vec<String>,
}

/// What a row rewrites to what, where it belongs to the named transform. A row without three
/// columns belongs to none, and an empty source rewrites nothing.
pub open spec fn rule(row: Seq<char>, name: Seq<char>) -> Option<(Seq<char>, Seq<char>)> {
    let parts = columns(row);
    if parts.len() >= 3 && parts[0] == name && parts[1].len() > 0 {
        Some((parts[1], parts[2]))
    } else {
        None
    }
}

/// The sources of the named transform, in the order of these rows.
pub open spec fn sources(all: Seq<Seq<char>>, name: Seq<char>) -> Seq<Seq<char>>
    decreases all.len(),
{
    if all.len() == 0 {
        Seq::empty()
    } else {
        match rule(all.last(), name) {
            Some((source, target)) => sources(all.drop_last(), name).push(source),
            None => sources(all.drop_last(), name),
        }
    }
}

/// The targets of the named transform, in the order of these rows.
pub open spec fn targets(all: Seq<Seq<char>>, name: Seq<char>) -> Seq<Seq<char>>
    decreases all.len(),
{
    if all.len() == 0 {
        Seq::empty()
    } else {
        match rule(all.last(), name) {
            Some((source, target)) => targets(all.drop_last(), name).push(target),
            None => targets(all.drop_last(), name),
        }
    }
}

/// Every source has its target.
pub proof fn sources_and_targets_pair(all: Seq<Seq<char>>, name: Seq<char>)
    ensures
        sources(all, name).len() == targets(all, name).len(),
        forall|i: int|
            0 <= i < sources(all, name).len() ==> (#[trigger] sources(all, name)[i]).len() > 0,
    decreases all.len(),
{
    if all.len() > 0 {
        sources_and_targets_pair(all.drop_last(), name);
    }
}

impl Fold {
    /// Read one transform out of a table, by its name.
    pub fn load(table: &str, name: &str) -> (fold: Self)
        ensures
            texts(fold.sources@) == sources(rows(table@), name@),
            texts(fold.targets@) == targets(rows(table@), name@),
    {
        let chars: Vec<char> = chars_of(table);
        let wanted: Vec<char> = chars_of(name);
        let all: Vec<&[char]> = rows_of(chars.as_slice());
        let ghost cut = rows(table@);
        let mut froms: Vec<String> = Vec::new();
        let mut tos: Vec<String> = Vec::new();
        let mut index: usize = 0;
        assert(cut.take(0) =~= Seq::empty());
        assert(texts(froms@) =~= Seq::empty());
        assert(texts(tos@) =~= Seq::empty());
        while index < all.len()
            invariant
                index <= all@.len(),
                cut == rows(table@),
                spelled(all@) == cut,
                wanted@ == name@,
                texts(froms@) == sources(cut.take(index as int), name@),
                texts(tos@) == targets(cut.take(index as int), name@),
            decreases all@.len() - index,
        {
            let ghost before = (texts(froms@), texts(tos@));
            let row: &[char] = all[index];
            let parts: Vec<&[char]> = columns_of(row);
            proof {
                assert(cut[index as int] == row@);
                assert(cut.take(index + 1).drop_last() =~= cut.take(index as int));
                assert(parts@.len() == columns(row@).len());
                assert forall|i: int| 0 <= i < parts@.len() implies (#[trigger] parts@[i])@
                    == columns(row@)[i] by {
                    assert(spelled(parts@)[i] == parts@[i]@);
                }
            }
            if parts.len() >= 3 && same_chars(parts[0], wanted.as_slice()) && parts[1].len() > 0 {
                froms.push(text_of(parts[1]));
                tos.push(text_of(parts[2]));
                proof {
                    assert(texts(froms@) =~= before.0.push(parts@[1]@));
                    assert(texts(tos@) =~= before.1.push(parts@[2]@));
                }
            }
            index += 1;
        }
        assert(cut.take(index as int) =~= cut);
        Fold { sources: froms, targets: tos }
    }

    /// Every transform a table carries.
    pub fn known(table: &str) -> (names: Vec<String>)
        ensures
            texts(names@) == names_of(rows(table@)),
    {
        known_names(table)
    }

    pub fn is_empty(&self) -> (empty: bool)
        ensures
            empty == (self.sources@.len() == 0),
    {
        self.sources.len() == 0
    }
}

} // verus!
