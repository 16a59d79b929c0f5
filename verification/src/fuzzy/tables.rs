//! Reading the tab-separated tables: one row per line, one column per tab.

use vstd::prelude::*;

use crate::text::{char_position, chars_of, find_char, push_chars, split_on};

verus! {

/// A line without the carriage return that a line feed followed.
pub open spec fn without_return(line: Seq<char>) -> Seq<char> {
    if line.len() > 0 && line.last() == '\r' {
        line.drop_last()
    } else {
        line
    }
}

/// The rows of a table from `from` on: its lines, which end in a line feed or in a carriage return
/// and a line feed. The last ending is optional.
pub open spec fn rows_from(text: Seq<char>, from: int) -> Seq<Seq<char>>
    decreases text.len() - from,
{
    let at = char_position(text, '\n', from);
    if from < 0 || from >= text.len() || at < from {
        Seq::empty()
    } else if at >= text.len() {
        seq![text.subrange(from, text.len() as int)]
    } else {
        seq![without_return(text.subrange(from, at))] + rows_from(text, at + 1)
    }
}

/// The rows of a table.
pub open spec fn rows(table: Seq<char>) -> Seq<Seq<char>> {
    rows_from(table, 0)
}

/// The columns of a row, which always has one.
pub open spec fn columns(row: Seq<char>) -> Seq<Seq<char>> {
    split_on(row, '\t', 0)
}

/// What these slices hold.
pub open spec fn spelled(slices: Seq<&[char]>) -> Seq<Seq<char>> {
    slices.map_values(|slice: &[char]| slice@)
}

/// Cut a table into its rows.
pub fn rows_of<'a>(text: &'a [char]) -> (all: Vec<&'a [char]>)
    ensures
        spelled(all@) == rows(text@),
{
    let mut all: Vec<&'a [char]> = Vec::new();
    let mut from: usize = 0;
    assert(spelled(all@) =~= Seq::empty());
    assert(spelled(all@) + rows_from(text@, 0) =~= rows(text@));
    while from < text.len()
        invariant
            from <= text@.len(),
            spelled(all@) + rows_from(text@, from as int) == rows(text@),
        decreases text@.len() - from,
    {
        let ghost before = spelled(all@);
        let at: usize = find_char(text, '\n', from);
        if at == text.len() {
            let row: &[char] = &text[from..at];
            all.push(row);
            proof {
                assert(spelled(all@) =~= before.push(row@));
                assert(rows_from(text@, from as int) =~= seq![row@]);
                assert(rows_from(text@, at as int) =~= Seq::empty());
                assert(spelled(all@) + rows_from(text@, at as int) =~= before + rows_from(
                    text@,
                    from as int,
                ));
            }
            from = at;
        } else {
            let end: usize = if at > from && text[at - 1] == '\r' {
                at - 1
            } else {
                at
            };
            let row: &[char] = &text[from..end];
            all.push(row);
            proof {
                let line = text@.subrange(from as int, at as int);
                assert(row@ =~= without_return(line));
                assert(spelled(all@) =~= before.push(row@));
                assert(spelled(all@) + rows_from(text@, at + 1) =~= before + rows_from(
                    text@,
                    from as int,
                ));
            }
            from = at + 1;
        }
    }
    assert(rows_from(text@, from as int) =~= Seq::empty());
    assert(spelled(all@) + Seq::<Seq<char>>::empty() =~= spelled(all@));
    all
}

/// Cut a row into its columns.
pub fn columns_of<'a>(row: &'a [char]) -> (all: Vec<&'a [char]>)
    ensures
        spelled(all@) == columns(row@),
        all@.len() > 0,
{
    let mut all: Vec<&'a [char]> = Vec::new();
    let mut from: usize = 0;
    assert(spelled(all@) + split_on(row@, '\t', 0) =~= columns(row@));
    loop
        invariant
            from <= row@.len(),
            spelled(all@) + split_on(row@, '\t', from as int) == columns(row@),
        decreases row@.len() - from,
    {
        let ghost before = spelled(all@);
        let at: usize = find_char(row, '\t', from);
        let column: &[char] = &row[from..at];
        all.push(column);
        proof {
            assert(spelled(all@) =~= before.push(column@));
        }
        if at == row.len() {
            assert(split_on(row@, '\t', from as int) =~= seq![column@]);
            assert(spelled(all@) =~= before + split_on(row@, '\t', from as int));
            return all;
        }
        assert(spelled(all@) + split_on(row@, '\t', at + 1) =~= before + split_on(
            row@,
            '\t',
            from as int,
        ));
        from = at + 1;
    }
}

/// Whether two texts are the same.
pub fn same_chars(left: &[char], right: &[char]) -> (same: bool)
    ensures
        same == (left@ == right@),
{
    if left.len() != right.len() {
        return false;
    }
    let mut index: usize = 0;
    while index < left.len()
        invariant
            index <= left@.len(),
            left@.len() == right@.len(),
            forall|i: int| 0 <= i < index ==> left@[i] == right@[i],
        decreases left@.len() - index,
    {
        if left[index] != right[index] {
            return false;
        }
        index += 1;
    }
    assert(left@ =~= right@);
    true
}

/// `chars` as a text.
pub fn text_of(chars: &[char]) -> (text: String)
    ensures
        text@ == chars@,
{
    let mut text = String::new();
    push_chars(&mut text, chars);
    assert(text@ =~= chars@);
    text
}

/// What these texts hold.
pub open spec fn texts(all: Seq<String>) -> Seq<Seq<char>> {
    all.map_values(|text: String| text@)
}

/// The first column of each of these rows, each once where it repeats from row to row.
pub open spec fn names_of(all: Seq<Seq<char>>) -> Seq<Seq<char>>
    decreases all.len(),
{
    if all.len() == 0 {
        Seq::empty()
    } else {
        let earlier = names_of(all.drop_last());
        let name = columns(all.last())[0];
        if earlier.len() > 0 && earlier.last() == name {
            earlier
        } else {
            earlier.push(name)
        }
    }
}

/// Every name a table carries in its first column, in the order its groups come.
pub fn known_names(table: &str) -> (names: Vec<String>)
    ensures
        texts(names@) == names_of(rows(table@)),
{
    let chars: Vec<char> = chars_of(table);
    let all: Vec<&[char]> = rows_of(chars.as_slice());
    let ghost cut = rows(table@);
    let mut names: Vec<String> = Vec::new();
    let mut last: &[char] = &[];
    let mut index: usize = 0;
    assert(cut.take(0) =~= Seq::empty());
    assert(texts(names@) =~= Seq::empty());
    while index < all.len()
        invariant
            index <= all@.len(),
            cut == rows(table@),
            spelled(all@) == cut,
            texts(names@) == names_of(cut.take(index as int)),
            names@.len() > 0 ==> texts(names@).last() == last@,
        decreases all@.len() - index,
    {
        let ghost before = texts(names@);
        let row: &[char] = all[index];
        let parts: Vec<&[char]> = columns_of(row);
        let name: &[char] = parts[0];
        proof {
            assert(cut[index as int] == row@);
            assert(cut.take(index + 1).drop_last() =~= cut.take(index as int));
            assert(spelled(parts@)[0] == name@);
        }
        if names.len() == 0 || !same_chars(last, name) {
            names.push(text_of(name));
            last = name;
            assert(texts(names@) =~= before.push(name@));
        }
        index += 1;
    }
    assert(cut.take(index as int) =~= cut);
    names
}

proof fn lemma_position_shifted(front: Seq<char>, text: Seq<char>, from: int)
    requires
        0 <= from <= text.len(),
    ensures
        char_position(front + text, '\n', front.len() + from) == front.len() + char_position(
            text,
            '\n',
            from,
        ),
    decreases text.len() - from,
{
    if from < text.len() {
        assert((front + text)[front.len() + from] == text[from]);
        if text[from] != '\n' {
            lemma_position_shifted(front, text, from + 1);
        }
    }
}

proof fn lemma_rows_shifted(front: Seq<char>, text: Seq<char>, from: int)
    requires
        0 <= from <= text.len(),
    ensures
        rows_from(front + text, front.len() + from) == rows_from(text, from),
    decreases text.len() - from,
{
    let whole = front + text;
    lemma_position_shifted(front, text, from);
    let at = char_position(text, '\n', from);
    if from < text.len() {
        if from <= at < text.len() {
            lemma_rows_shifted(front, text, at + 1);
            assert(whole.subrange(front.len() + from, front.len() + at) =~= text.subrange(from, at));
        } else {
            assert(whole.subrange(front.len() + from, whole.len() as int) =~= text.subrange(
                from,
                text.len() as int,
            ));
        }
    }
}

proof fn lemma_first_feed(row: Seq<char>, text: Seq<char>, from: int)
    requires
        0 <= from <= row.len() < text.len(),
        row == text.take(row.len() as int),
        !row.contains('\n'),
        text[row.len() as int] == '\n',
    ensures
        char_position(text, '\n', from) == row.len(),
    decreases row.len() - from,
{
    if from < row.len() {
        assert(row[from] == text[from]);
        assert(row.contains(row[from]));
        lemma_first_feed(row, text, from + 1);
    }
}

/// A row ends at a line feed, or at a carriage return and a line feed, and the rest of the table
/// follows it.
pub proof fn line_ends_part_the_rows(row: Seq<char>, rest: Seq<char>)
    requires
        !row.contains('\n'),
        row.len() > 0 ==> row.last() != '\r',
    ensures
        rows(row + seq!['\n'] + rest) == seq![row] + rows(rest),
        rows(row + seq!['\r', '\n'] + rest) == seq![row] + rows(rest),
{
    let plain = row + seq!['\n'] + rest;
    assert(plain.take(row.len() as int) =~= row);
    lemma_first_feed(row, plain, 0);
    assert(plain.subrange(0, row.len() as int) =~= row);
    lemma_rows_shifted(row + seq!['\n'], rest, 0);
    let returned = row.push('\r');
    let other = row + seq!['\r', '\n'] + rest;
    assert(other.take(returned.len() as int) =~= returned);
    assert(!returned.contains('\n')) by {
        if returned.contains('\n') {
            let at = returned.index_of('\n');
            assert(row[at] == '\n');
        }
    }
    lemma_first_feed(returned, other, 0);
    assert(other.subrange(0, returned.len() as int) =~= returned);
    assert(returned.drop_last() =~= row);
    lemma_rows_shifted(row + seq!['\r', '\n'], rest, 0);
}

/// Every name that begins a row is listed, and nothing else is.
pub proof fn names_are_those_that_begin_rows(all: Seq<Seq<char>>, name: Seq<char>)
    ensures
        names_of(all).contains(name) <==> exists|i: int|
            0 <= i < all.len() && columns(#[trigger] all[i])[0] == name,
    decreases all.len(),
{
    if all.len() > 0 {
        let front = all.drop_last();
        names_are_those_that_begin_rows(front, name);
        let earlier = names_of(front);
        let last = columns(all.last())[0];
        assert(all[all.len() - 1] == all.last());
        if names_of(all).contains(name) {
            let at = names_of(all).index_of(name);
            if at < earlier.len() {
                assert(earlier[at] == name);
                let i = choose|i: int|
                    0 <= i < front.len() && columns(#[trigger] front[i])[0] == name;
                assert(all[i] == front[i]);
            }
        }
        if exists|i: int| 0 <= i < all.len() && columns(#[trigger] all[i])[0] == name {
            let i = choose|i: int| 0 <= i < all.len() && columns(#[trigger] all[i])[0] == name;
            if i < front.len() {
                assert(front[i] == all[i]);
                let at = earlier.index_of(name);
                assert(names_of(all)[at] == name);
            } else {
                assert(names_of(all).last() == last);
                assert(names_of(all)[names_of(all).len() - 1] == last);
            }
        }
    }
}

} // verus!
