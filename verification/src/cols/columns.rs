//! Which columns a run selects: one (`2`), a list (`1,3,5`), a range (`2-5`), or a mix.

use vstd::prelude::*;
use vstd::string::StringExecFns;
use vstd::utf8::encode_utf8;

use crate::args::{strip, stripped};
use crate::numbers::{parse_usize, read_count};
use crate::text::{chars_of, find_char, lemma_no_char, push_chars, split_on};

verus! {

/// The index that one column number stands for, or why it stands for none. Every message names
/// what it read, so a missing number has one of its own.
pub open spec fn column_of(token: Seq<char>) -> Result<int, Seq<char>> {
    let text = stripped(token);
    if text.len() == 0 {
        Err("a column number is missing; write both ends of a range, as in `2-5`"@)
    } else {
        match read_count(encode_utf8(text), usize::MAX as int) {
            Err(_) => Err("`"@ + text + "` is not a column number"@),
            Ok(column) => if column == 0 {
                Err("column numbers start at 1"@)
            } else {
                Ok(column - 1)
            },
        }
    }
}

/// The whole numbers from `start` on, below `end`.
pub open spec fn run_of(start: int, end: int) -> Seq<int> {
    Seq::new(
        (if start < end {
            end - start
        } else {
            0
        }) as nat,
        |i: int| start + i,
    )
}

/// The indices that one part of a selection stands for: a column, or a range of them.
pub open spec fn part_columns(part: Seq<char>) -> Result<Seq<int>, Seq<char>> {
    let text = stripped(part);
    if text.contains('-') {
        let ends = split_on(text, '-', 0);
        if ends.len() != 2 {
            Err("`"@ + text + "` is not a range; a range has two ends"@)
        } else {
            match (column_of(ends[0]), column_of(ends[1])) {
                (Err(message), _) => Err(message),
                (_, Err(message)) => Err(message),
                (Ok(start), Ok(end)) => if start > end {
                    Err("`"@ + text + "` runs backwards; a range reads low to high"@)
                } else {
                    Ok(run_of(start, end + 1))
                },
            }
        }
    } else {
        match column_of(text) {
            Err(message) => Err(message),
            Ok(column) => Ok(seq![column]),
        }
    }
}

/// The indices that these parts stand for, in order, or what is wrong with the first bad one.
pub open spec fn all_columns(parts: Seq<Seq<char>>, so_far: Seq<int>) -> Result<
    Seq<int>,
    Seq<char>,
>
    decreases parts.len(),
{
    if parts.len() == 0 {
        Ok(so_far)
    } else {
        match part_columns(parts[0]) {
            Err(message) => Err(message),
            Ok(columns) => all_columns(parts.drop_first(), so_far + columns),
        }
    }
}

/// The zero-based indices that a selection stands for, in order, or what is wrong with it.
pub open spec fn selected_columns(spec_text: Seq<char>) -> Result<Seq<int>, Seq<char>> {
    if stripped(spec_text).len() == 0 {
        Err("no columns given; pass a column, a list, or a range"@)
    } else {
        all_columns(split_on(spec_text, ',', 0), Seq::empty())
    }
}

/// Read one 1-based column number into the 0-based index the split uses.
pub fn parse_column(token: &[char]) -> (parsed: Result<usize, String>)
    ensures
        match (column_of(token@), parsed) {
            (Ok(column), Ok(parsed)) => parsed == column && parsed < usize::MAX,
            (Err(message), Err(said)) => said@ == message,
            _ => false,
        },
{
    let text: &[char] = strip(token);
    if text.len() == 0 {
        return Err(
            String::from_str(
                "a column number is missing; write both ends of a range, as in `2-5`",
            ),
        );
    }
    let mut digits = String::new();
    push_chars(&mut digits, text);
    assert(digits@ =~= text@);
    match parse_usize(digits.as_str().as_bytes()) {
        Ok(column) => if column == 0 {
            Err(String::from_str("column numbers start at 1"))
        } else {
            Ok(column - 1)
        },
        Err(_) => {
            let mut message = String::from_str("`");
            push_chars(&mut message, text);
            message.append("` is not a column number");
            Err(message)
        },
    }
}

/// The indices of `columns` as whole numbers.
pub open spec fn indices_of(columns: Seq<usize>) -> Seq<int> {
    columns.map_values(|column: usize| column as int)
}

/// Add the indices of one part to `columns`.
fn parse_part(part: &[char], columns: &mut Vec<usize>) -> (parsed: Result<(), String>)
    requires
        forall|i: int| 0 <= i < old(columns)@.len() ==> #[trigger] old(columns)@[i] < usize::MAX,
    ensures
        match (part_columns(part@), parsed) {
            (Ok(more), Ok(_)) => indices_of(final(columns)@) == indices_of(old(columns)@) + more,
            (Err(message), Err(said)) => said@ == message,
            _ => false,
        },
        forall|i: int|
            0 <= i < final(columns)@.len() ==> #[trigger] final(columns)@[i] < usize::MAX,
{
    let text: &[char] = strip(part);
    let dash: usize = find_char(text, '-', 0);
    proof {
        lemma_no_char(text@, '-', 0);
        assert(text@.subrange(0, text@.len() as int) =~= text@);
    }
    if dash == text.len() {
        return match parse_column(text) {
            Ok(column) => {
                columns.push(column);
                assert(indices_of(columns@) =~= indices_of(old(columns)@) + seq![column as int]);
                Ok(())
            },
            Err(message) => Err(message),
        };
    }
    let second: usize = find_char(text, '-', dash + 1);
    let ghost ends = split_on(text@, '-', 0);
    let ghost rest = split_on(text@, '-', dash + 1);
    assert(ends =~= seq![text@.subrange(0, dash as int)] + rest);
    if second < text.len() {
        proof {
            lemma_split_len(text@, '-', second + 1);
        }
        let mut message = String::from_str("`");
        push_chars(&mut message, text);
        message.append("` is not a range; a range has two ends");
        return Err(message);
    }
    assert(ends.len() == 2);
    let first: &[char] = &text[0..dash];
    let last: &[char] = &text[dash + 1..text.len()];
    assert(ends[0] =~= first@);
    assert(ends[1] =~= last@);
    let start: usize = match parse_column(first) {
        Ok(start) => start,
        Err(message) => {
            return Err(message);
        },
    };
    let end: usize = match parse_column(last) {
        Ok(end) => end,
        Err(message) => {
            return Err(message);
        },
    };
    if start > end {
        let mut message = String::from_str("`");
        push_chars(&mut message, text);
        message.append("` runs backwards; a range reads low to high");
        return Err(message);
    }
    let mut column: usize = start;
    assert(run_of(start as int, start as int) =~= Seq::<int>::empty());
    while column <= end
        invariant
            start <= column <= end + 1,
            end < usize::MAX,
            indices_of(columns@) == indices_of(old(columns)@) + run_of(start as int, column as int),
            forall|i: int| 0 <= i < columns@.len() ==> #[trigger] columns@[i] < usize::MAX,
        decreases end + 1 - column,
    {
        let ghost before = columns@;
        columns.push(column);
        proof {
            assert(run_of(start as int, column + 1) =~= run_of(start as int, column as int).push(
                column as int,
            ));
            assert(indices_of(columns@) =~= indices_of(before).push(column as int));
            assert(indices_of(columns@) =~= indices_of(old(columns)@) + run_of(
                start as int,
                column + 1,
            ));
        }
        column += 1;
    }
    Ok(())
}

proof fn lemma_split_len(text: Seq<char>, separator: char, from: int)
    ensures
        split_on(text, separator, from).len() > 0,
{
}

/// Parse a column specification into a list of zero-based column indices.
pub fn parse_columns(spec_text: &str) -> (parsed: Result<Vec<usize>, String>)
    ensures
        match (selected_columns(spec_text@), parsed) {
            (Ok(columns), Ok(parsed)) => indices_of(parsed@) == columns && (forall|i: int|
                0 <= i < parsed@.len() ==> #[trigger] parsed@[i] < usize::MAX),
            (Err(message), Err(said)) => said@ == message,
            _ => false,
        },
{
    let chars: Vec<char> = chars_of(spec_text);
    let text: &[char] = chars.as_slice();
    if strip(text).len() == 0 {
        return Err(String::from_str("no columns given; pass a column, a list, or a range"));
    }
    let mut columns: Vec<usize> = Vec::new();
    let mut from: usize = 0;
    let ghost whole = selected_columns(spec_text@);
    assert(indices_of(columns@) =~= Seq::<int>::empty());
    loop
        invariant_except_break
            from <= text@.len(),
            whole == all_columns(split_on(text@, ',', from as int), indices_of(columns@)),
        invariant
            forall|i: int| 0 <= i < columns@.len() ==> #[trigger] columns@[i] < usize::MAX,
            whole == selected_columns(spec_text@),
        ensures
            whole == Ok::<Seq<int>, Seq<char>>(indices_of(columns@)),
        decreases text@.len() + 1 - from,
    {
        let ghost parts = split_on(text@, ',', from as int);
        let at: usize = find_char(text, ',', from);
        let part: &[char] = &text[from..at];
        assert(parts[0] =~= part@);
        if let Err(message) = parse_part(part, &mut columns) {
            return Err(message);
        }
        if at == text.len() {
            assert(parts.drop_first() =~= Seq::<Seq<char>>::empty());
            assert(all_columns(parts.drop_first(), indices_of(columns@)) == Ok::<
                Seq<int>,
                Seq<char>,
            >(indices_of(columns@)));
            break;
        }
        assert(parts.drop_first() =~= split_on(text@, ',', at + 1));
        from = at + 1;
    }
    Ok(columns)
}

} // verus!
