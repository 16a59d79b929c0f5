//! Known typo pairs, read from a `language<TAB>misspelling<TAB>correction` table.

use vstd::prelude::*;

use crate::text::chars_of;

use super::tables::{
    columns, columns_of, known_names, names_of, rows, rows_of, same_chars, spelled, text_of, texts,
};

verus! {

/// Whether `left` stands before `right` in the order of their characters.
pub open spec fn precedes(left: Seq<char>, right: Seq<char>) -> bool
    decreases left.len(),
{
    if right.len() == 0 {
        false
    } else if left.len() == 0 {
        true
    } else if left[0] != right[0] {
        left[0] < right[0]
    } else {
        precedes(left.drop_first(), right.drop_first())
    }
}

/// Of two different texts one stands before the other, and never both.
pub proof fn lemma_precedes_total(left: Seq<char>, right: Seq<char>)
    ensures
        left != right ==> (precedes(left, right) || precedes(right, left)),
        !(precedes(left, right) && precedes(right, left)),
        !precedes(left, left),
    decreases left.len(),
{
    if left.len() == 0 {
        if right.len() == 0 {
            assert(left =~= right);
        }
    } else {
        lemma_precedes_total(left.drop_first(), left.drop_first());
        if right.len() > 0 && left[0] == right[0] {
            lemma_precedes_total(left.drop_first(), right.drop_first());
            if left.drop_first() == right.drop_first() {
                assert(left =~= seq![left[0]] + left.drop_first());
                assert(right =~= seq![right[0]] + right.drop_first());
            }
        }
    }
}

/// What stands before a text stands before whatever that text stands before.
pub proof fn lemma_precedes_chain(one: Seq<char>, two: Seq<char>, three: Seq<char>)
    requires
        precedes(one, two),
        precedes(two, three),
    ensures
        precedes(one, three),
    decreases one.len(),
{
    if one.len() > 0 && one[0] == two[0] && two[0] == three[0] {
        lemma_precedes_chain(one.drop_first(), two.drop_first(), three.drop_first());
    }
}

/// Whether `left` stands before `right` in the order of their characters.
pub fn comes_before(left: &[char], right: &[char]) -> (before: bool)
    ensures
        before == precedes(left@, right@),
{
    let mut index: usize = 0;
    assert(left@.subrange(0, left@.len() as int) =~= left@);
    assert(right@.subrange(0, right@.len() as int) =~= right@);
    while index < left.len() && index < right.len()
        invariant
            index <= left@.len(),
            index <= right@.len(),
            precedes(left@, right@) == precedes(
                left@.subrange(index as int, left@.len() as int),
                right@.subrange(index as int, right@.len() as int),
            ),
        decreases left@.len() - index,
    {
        proof {
            let one = left@.subrange(index as int, left@.len() as int);
            let two = right@.subrange(index as int, right@.len() as int);
            assert(one[0] == left@[index as int] && two[0] == right@[index as int]);
            assert(one.drop_first() =~= left@.subrange(index + 1, left@.len() as int));
            assert(two.drop_first() =~= right@.subrange(index + 1, right@.len() as int));
        }
        if left[index] != right[index] {
            return left[index] < right[index];
        }
        index += 1;
    }
    index < right.len()
}

/// Whether a row records `text` as a misspelling of `query`.
pub open spec fn records(row: Seq<char>, query: Seq<char>, text: Seq<char>) -> bool {
    let parts = columns(row);
    parts.len() >= 3 && parts[2] == query && parts[1] == text
}

/// Whether one of these rows records `text` as a misspelling of `query`.
pub open spec fn recorded(all: Seq<Seq<char>>, query: Seq<char>, text: Seq<char>) -> bool {
    exists|i: int| 0 <= i < all.len() && records(#[trigger] all[i], query, text)
}

/// Whether these texts stand in order, none of them twice.
pub open spec fn in_order(all: Seq<Seq<char>>) -> bool {
    forall|i: int, j: int|
        #![trigger all[i], all[j]]
        0 <= i < j < all.len() ==> precedes(all[i], all[j])
}

/// What these vectors hold.
pub open spec fn words_in(all: Seq<Vec<char>>) -> Seq<Seq<char>> {
    all.map_values(|word: Vec<char>| word@)
}

/// Put `word` where it belongs, unless it is there.
fn put_in_order(all: &mut Vec<Vec<char>>, word: &[char])
    requires
        in_order(words_in(old(all)@)),
    ensures
        in_order(words_in(final(all)@)),
        forall|text: Seq<char>| #[trigger]
            words_in(final(all)@).contains(text) <==> words_in(old(all)@).contains(text) || text
                == word@,
{
    let ghost before = words_in(all@);
    let mut at: usize = 0;
    while at < all.len() && comes_before(all[at].as_slice(), word)
        invariant
            at <= all@.len(),
            before == words_in(all@),
            forall|i: int| 0 <= i < at ==> precedes(#[trigger] before[i], word@),
        decreases all@.len() - at,
    {
        assert(before[at as int] == all@[at as int]@);
        at += 1;
    }
    if at < all.len() && same_chars(all[at].as_slice(), word) {
        assert(before[at as int] == word@);
        return;
    }
    let own: Vec<char> = vstd::slice::slice_to_vec(word);
    all.insert(at, own);
    proof {
        let now = words_in(all@);
        assert(now =~= before.insert(at as int, word@));
        if at < before.len() {
            assert(before[at as int] == old(all)@[at as int]@);
            lemma_precedes_total(before[at as int], word@);
            assert(precedes(word@, before[at as int]));
        }
        assert forall|i: int, j: int|
            #![trigger now[i], now[j]]
            0 <= i < j < now.len() implies precedes(now[i], now[j]) by {
            if i < at && j > at {
                assert(now[i] == before[i] && now[j] == before[j - 1]);
            } else if i < at && j < at {
                assert(now[i] == before[i] && now[j] == before[j]);
            } else if i == at {
                assert(now[j] == before[j - 1]);
                if j - 1 > at {
                    lemma_precedes_chain(word@, before[at as int], before[j - 1]);
                }
            } else if j == at {
                assert(now[i] == before[i]);
            } else {
                assert(now[i] == before[i - 1] && now[j] == before[j - 1]);
            }
        }
        assert forall|text: Seq<char>| #[trigger] now.contains(text) <==> before.contains(text)
            || text == word@ by {
            if now.contains(text) {
                let i = choose|i: int| 0 <= i < now.len() && now[i] == text;
                if i < at {
                    assert(before[i] == text);
                } else if i > at {
                    assert(before[i - 1] == text);
                }
            }
            if before.contains(text) {
                let i = choose|i: int| 0 <= i < before.len() && before[i] == text;
                if i < at {
                    assert(now[i] == text);
                } else {
                    assert(now[i + 1] == text);
                }
            }
            if text == word@ {
                assert(now[at as int] == text);
            }
        }
    }
}

/// The misspellings a query is the correction for, which become extra variants of it: each once,
/// in order.
///
/// Matching is on the correction rather than on the misspelling: the user types what they meant,
/// and the corpus is what holds the error.
pub fn variants_of(table: &str, query: &str) -> (found: Vec<String>)
    ensures
        in_order(texts(found@)),
        forall|text: Seq<char>| #[trigger]
            texts(found@).contains(text) <==> recorded(rows(table@), query@, text),
{
    let chars: Vec<char> = chars_of(table);
    let wanted: Vec<char> = chars_of(query);
    let all: Vec<&[char]> = rows_of(chars.as_slice());
    let ghost cut = rows(table@);
    let mut words: Vec<Vec<char>> = Vec::new();
    let mut index: usize = 0;
    while index < all.len()
        invariant
            index <= all@.len(),
            cut == rows(table@),
            spelled(all@) == cut,
            wanted@ == query@,
            in_order(words_in(words@)),
            forall|text: Seq<char>| #[trigger]
                words_in(words@).contains(text) <==> recorded(cut.take(index as int), query@, text),
        decreases all@.len() - index,
    {
        let ghost before = words_in(words@);
        let row: &[char] = all[index];
        let parts: Vec<&[char]> = columns_of(row);
        let ghost seen = cut.take(index as int);
        let ghost now = cut.take(index + 1);
        proof {
            assert(cut[index as int] == row@);
            assert(parts@.len() == columns(row@).len());
            assert forall|i: int| 0 <= i < parts@.len() implies (#[trigger] parts@[i])@ == columns(
                row@,
            )[i] by {
                assert(spelled(parts@)[i] == parts@[i]@);
            }
            assert forall|text: Seq<char>| #[trigger] recorded(now, query@, text) <==> recorded(
                seen,
                query@,
                text,
            ) || records(row@, query@, text) by {
                if recorded(now, query@, text) {
                    let i = choose|i: int|
                        0 <= i < now.len() && records(#[trigger] now[i], query@, text);
                    if i < index {
                        assert(seen[i] == now[i]);
                    }
                }
                if recorded(seen, query@, text) {
                    let i = choose|i: int|
                        0 <= i < seen.len() && records(#[trigger] seen[i], query@, text);
                    assert(now[i] == seen[i]);
                }
                if records(row@, query@, text) {
                    assert(now[index as int] == row@);
                }
            }
        }
        if parts.len() >= 3 && same_chars(parts[2], wanted.as_slice()) {
            put_in_order(&mut words, parts[1]);
        }
        index += 1;
    }
    assert(cut.take(index as int) =~= cut);
    let mut found: Vec<String> = Vec::new();
    let mut at: usize = 0;
    assert(texts(found@) =~= words_in(words@).take(0));
    while at < words.len()
        invariant
            at <= words@.len(),
            texts(found@) == words_in(words@).take(at as int),
        decreases words@.len() - at,
    {
        let ghost before = texts(found@);
        found.push(text_of(words[at].as_slice()));
        assert(texts(found@) =~= before.push(words@[at as int]@));
        assert(words_in(words@).take(at + 1) =~= words_in(words@).take(at as int).push(
            words_in(words@)[at as int],
        ));
        at += 1;
    }
    assert(words_in(words@).take(at as int) =~= words_in(words@));
    found
}

/// Every language a table carries.
pub fn known_languages(table: &str) -> (names: Vec<String>)
    ensures
        texts(names@) == names_of(rows(table@)),
{
    known_names(table)
}

} // verus!
