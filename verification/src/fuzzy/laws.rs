//! What a fuzzy search is for: which script a query is in, what one edit reaches, and which lines
//! come first.

use vstd::prelude::*;

use crate::sorting::may_lead;
use crate::text::{char_position, split_on};

use super::edits::{beside, better, is_edit, replaces, swapped, Derivation};
use super::effort::{Alphabet, Dictionary};
use super::folds::rule;
use super::keyboards::{best_layout, covered, layout_keys, row_added};
use super::misspellings::{precedes, records};
use super::report::{best_of, Survivor};
use super::script::{leading, script_of, script_of_all, spelling_scripts, tally, Script};
use super::tables::columns;
use super::vocabulary::{
    at_distance, edited, from_pattern, in_reach, one_edit, query_of, reachable, within, Reach,
    Route,
};

verus! {

/// Which letters belong to which script; digits, punctuation and spacing belong to none.
pub proof fn letters_tell_their_script(letter: char)
    ensures
        'a' <= letter <= 'z' || 'A' <= letter <= 'Z' || 'À' <= letter <= 'ɏ' <==> script_of(letter)
            == Some(Script::Latin),
        'Ѐ' <= letter <= 'ԯ' <==> script_of(letter) == Some(Script::Cyrillic),
        '\u{370}' <= letter <= 'Ͽ' || 'ἀ' <= letter <= '\u{1FFF}' <==> script_of(letter) == Some(
            Script::Greek,
        ),
        '\u{530}' <= letter <= '\u{58F}' <==> script_of(letter) == Some(Script::Armenian),
        '\u{590}' <= letter <= '\u{5FF}' <==> script_of(letter) == Some(Script::Hebrew),
        '\u{600}' <= letter <= '\u{6FF}' || '\u{750}' <= letter <= '\u{77F}' <==> script_of(letter)
            == Some(Script::Arabic),
        '\u{3040}' <= letter <= '\u{30FF}' || '\u{31F0}' <= letter <= '\u{31FF}' <==> script_of(
            letter,
        ) == Some(Script::Kana),
        '\u{1100}' <= letter <= '\u{11FF}' || '\u{AC00}' <= letter <= '\u{D7AF}' || '\u{3130}'
            <= letter <= '\u{318F}' <==> script_of(letter) == Some(Script::Hangul),
        '\u{3400}' <= letter <= '\u{4DBF}' || '\u{4E00}' <= letter <= '\u{9FFF}' || '\u{F900}'
            <= letter <= '\u{FAFF}' <==> script_of(letter) == Some(Script::Han),
        ' ' <= letter <= '@' || '[' <= letter <= '`' || '{' <= letter <= '~' ==> script_of(letter)
            is None,
{
}

/// A query is in Han where it holds any, else in kana where it holds any, and else in the script that
/// most of its letters are in: no other has more, and none before it in the order that breaks ties
/// has as many.
pub proof fn most_letters_decide_the_script(all: Seq<Seq<char>>, other: Script)
    requires
        other != Script::Han,
        other != Script::Kana,
    ensures
        tally(all, Script::Han) > 0 <==> script_of_all(all) == Script::Han,
        tally(all, Script::Han) == 0 && tally(all, Script::Kana) > 0 <==> script_of_all(all)
            == Script::Kana,
        tally(all, Script::Han) == 0 && tally(all, Script::Kana) == 0 ==> tally(all, other)
            <= tally(all, script_of_all(all)),
        tally(all, Script::Han) == 0 && tally(all, Script::Kana) == 0 && tally(all, other) == tally(
            all,
            Script::Latin,
        ) && script_of_all(all) == other ==> other == Script::Latin,
{
    let seven = spelling_scripts();
    let six = seven.drop_last();
    let five = six.drop_last();
    let four = five.drop_last();
    let three = four.drop_last();
    let two = three.drop_last();
    assert(seven.last() == Script::Hangul);
    assert(six.last() == Script::Arabic);
    assert(five.last() == Script::Hebrew);
    assert(four.last() == Script::Armenian);
    assert(three.last() == Script::Greek);
    assert(two.last() == Script::Cyrillic);
    assert(two.drop_last()[0] == Script::Latin);
    reveal_with_fuel(leading, 8);
}

/// The keys that a script is typed on, and the transform that carries it to Latin.
pub proof fn each_script_has_its_keys(script: Script)
    ensures
        script.typed_on() == match script {
            Script::Cyrillic => "ru"@,
            Script::Greek => "gr"@,
            Script::Armenian => "am"@,
            Script::Hebrew => "il"@,
            Script::Arabic => "ara"@,
            Script::Kana => "jp"@,
            _ => "us"@,
        },
        script.carried_by() is Some <==> script == Script::Cyrillic || script == Script::Greek
            || script == Script::Han,
        script == Script::Cyrillic ==> script.carried_by() == Some("Cyrillic-Latin"@),
        script == Script::Greek ==> script.carried_by() == Some("Greek-Latin"@),
        script == Script::Han ==> script.carried_by() == Some("Han-Latin"@),
{
}

/// Whether `variant` is `source` without one character, with two neighbours swapped, with one
/// character in place of another, or with one more, the new character being a key near the one it
/// replaces or is put beside, or any key of the layout.
pub open spec fn one_slip(
    alphabet: Alphabet,
    keys: Map<char, Seq<char>>,
    source: Seq<char>,
    variant: Seq<char>,
) -> bool {
    exists|at: int|
        0 <= at <= source.len() && #[trigger] slipped_at(alphabet, keys, source, variant, at)
}

/// Whether the slip is at `at`.
#[verifier::opaque]
pub open spec fn slipped_at(
    alphabet: Alphabet,
    keys: Map<char, Seq<char>>,
    source: Seq<char>,
    variant: Seq<char>,
    at: int,
) -> bool {
    let front = source.take(at);
    let back = source.skip(at);
    ||| at < source.len() && variant =~= front + back.skip(1)
    ||| at + 1 < source.len() && variant =~= front + seq![back[1], back[0]] + back.skip(2)
    ||| at < source.len() && variant.len() == source.len() && variant[at] != source[at]
        && variant =~= front + seq![variant[at]] + back.skip(1) && typed_near(
        alphabet,
        keys,
        source[at],
        variant[at],
    )
    ||| variant.len() == source.len() + 1 && variant =~= front + seq![variant[at]] + back
        && typed_near(
        alphabet,
        keys,
        if at < source.len() {
            source[at]
        } else {
            source.last()
        },
        variant[at],
    )
}

/// Whether a character may be typed for another: a neighbour of its key, or any key of the layout.
pub open spec fn typed_near(
    alphabet: Alphabet,
    keys: Map<char, Seq<char>>,
    meant: char,
    typed: char,
) -> bool {
    match alphabet {
        Alphabet::Keyboard => keys.contains_key(meant) && keys[meant].contains(typed),
        Alphabet::Script => keys.contains_key(typed),
    }
}

proof fn lemma_edit_slips(
    alphabet: Alphabet,
    keys: Map<char, Seq<char>>,
    source: Seq<char>,
    variant: Seq<char>,
    derivation: Derivation,
)
    requires
        is_edit(alphabet, keys, source, variant, derivation),
    ensures
        one_slip(alphabet, keys, source, variant),
{
    reveal(slipped_at);
    match derivation {
        Derivation::Deletion => {
            let at = choose|at: int|
                0 <= at < source.len() && variant == #[trigger] source.remove(at);
            assert(variant =~= source.take(at) + source.skip(at).skip(1));
            assert(slipped_at(alphabet, keys, source, variant, at));
        },
        Derivation::Transposition => {
            let at = choose|at: int|
                0 <= at < source.len() - 1 && variant == #[trigger] swapped(source, at);
            let back = source.skip(at);
            assert(variant =~= source.take(at) + seq![back[1], back[0]] + back.skip(2));
            assert(slipped_at(alphabet, keys, source, variant, at));
        },
        Derivation::Substitution => {
            let (at, replacement) = choose|at: int, replacement: char|
                0 <= at < source.len() && replacement != source[at]
                    && replaces(alphabet, keys, source[at], replacement)
                    && variant == #[trigger] source.update(at, replacement);
            assert(variant[at] == replacement);
            assert(variant =~= source.take(at) + seq![variant[at]] + source.skip(at).skip(1));
            assert(slipped_at(alphabet, keys, source, variant, at));
        },
        Derivation::Insertion => {
            let (at, inserted) = choose|at: int, inserted: char|
                0 <= at <= source.len() && replaces(
                    alphabet,
                    keys,
                    beside(source, at),
                    inserted,
                ) && variant == #[trigger] source.insert(at, inserted);
            assert(variant[at] == inserted);
            assert(variant =~= source.take(at) + seq![variant[at]] + source.skip(at));
            assert(slipped_at(alphabet, keys, source, variant, at));
        },
        _ => {},
    }
}

proof fn lemma_slip_edits(
    alphabet: Alphabet,
    keys: Map<char, Seq<char>>,
    source: Seq<char>,
    variant: Seq<char>,
    at: int,
)
    requires
        0 <= at <= source.len(),
        slipped_at(alphabet, keys, source, variant, at),
    ensures
        exists|derivation: Derivation| #[trigger]
            is_edit(alphabet, keys, source, variant, derivation),
{
    reveal(slipped_at);
    let front = source.take(at);
    let back = source.skip(at);
    if at < source.len() && variant =~= front + back.skip(1) {
        assert(variant =~= source.remove(at));
        assert(is_edit(alphabet, keys, source, variant, Derivation::Deletion));
    } else if at + 1 < source.len() && variant =~= front + seq![back[1], back[0]] + back.skip(
        2,
    ) {
        assert(variant =~= swapped(source, at));
        assert(is_edit(alphabet, keys, source, variant, Derivation::Transposition));
    } else if at < source.len() && variant.len() == source.len() && variant =~= front + seq![
        variant[at],
    ] + back.skip(1) {
        assert(variant =~= source.update(at, variant[at]));
        assert(is_edit(alphabet, keys, source, variant, Derivation::Substitution));
    } else {
        assert(variant =~= source.insert(at, variant[at]));
        assert(is_edit(alphabet, keys, source, variant, Derivation::Insertion));
    }
}

/// One edit is one slip, and every slip is an edit of some kind.
pub proof fn an_edit_is_one_slip(
    alphabet: Alphabet,
    keys: Map<char, Seq<char>>,
    source: Seq<char>,
    variant: Seq<char>,
)
    ensures
        (exists|derivation: Derivation| #[trigger]
            is_edit(alphabet, keys, source, variant, derivation)) <==> one_slip(
            alphabet,
            keys,
            source,
            variant,
        ),
{
    if exists|derivation: Derivation| #[trigger]
        is_edit(alphabet, keys, source, variant, derivation) {
        let derivation = choose|derivation: Derivation| #[trigger]
            is_edit(alphabet, keys, source, variant, derivation);
        lemma_edit_slips(alphabet, keys, source, variant, derivation);
    }
    if one_slip(alphabet, keys, source, variant) {
        let at = choose|at: int|
            0 <= at <= source.len() && #[trigger] slipped_at(alphabet, keys, source, variant, at);
        lemma_slip_edits(alphabet, keys, source, variant, at);
    }
}

proof fn lemma_edited_once(reach: Reach, pattern: Seq<char>, route: Route)
    requires
        route.distance == 1,
        route.text.len() > 0,
        route.text != pattern,
        is_edit(reach.alphabet, reach.keys, pattern, route.text, route.derivation),
    ensures
        edited(reach, pattern, route),
{
    let source = pattern;
    assert(at_distance(reach, pattern, 0, source));
    assert(one_edit(reach, source, route.text, route.derivation));
    assert((route.distance - 1) as nat == 0);
    assert(!within(reach, pattern, 0, route.text));
}

/// A search that allows no edit and consults no table looks for its queries alone, and one that allows
/// one edit looks besides for what one slip makes of them, nothing excepted but nothing itself.
pub proof fn one_edit_reaches_one_slip(
    alphabet: Alphabet,
    keys: Map<char, Seq<char>>,
    table: Seq<char>,
    pattern: Seq<char>,
    text: Seq<char>,
)
    requires
        pattern.len() > 0,
    ensures
        in_reach(
            query_of(0, alphabet, keys, Dictionary::Ignored, table),
            seq![pattern],
            text,
        ) <==> text == pattern,
        in_reach(
            query_of(1, alphabet, keys, Dictionary::Ignored, table),
            seq![pattern],
            text,
        ) <==> text == pattern || text.len() > 0 && one_slip(alphabet, keys, pattern, text),
{
    let none = query_of(0, alphabet, keys, Dictionary::Ignored, table);
    let single = query_of(1, alphabet, keys, Dictionary::Ignored, table);
    let patterns = seq![pattern];
    let reach = Reach { alphabet, keys };
    let same = Route { text: pattern, derivation: Derivation::Exact, distance: 0 };
    assert(from_pattern(none, patterns[0], same));
    assert(from_pattern(single, patterns[0], same));
    assert(reachable(none, patterns, same));
    assert(reachable(single, patterns, same));
    an_edit_is_one_slip(alphabet, keys, pattern, text);
    reveal_with_fuel(at_distance, 2);
    reveal_with_fuel(within, 2);
    if in_reach(none, patterns, text) {
        let route = choose|route: Route| #[trigger]
            reachable(none, patterns, route) && route.text == text;
        let i = choose|i: int|
            0 <= i < patterns.len() && from_pattern(none, #[trigger] patterns[i], route);
        assert(patterns[i] == pattern);
        assert(edited(reach, pattern, route));
    }
    if in_reach(single, patterns, text) {
        let route = choose|route: Route| #[trigger]
            reachable(single, patterns, route) && route.text == text;
        let i = choose|i: int|
            0 <= i < patterns.len() && from_pattern(single, #[trigger] patterns[i], route);
        assert(patterns[i] == pattern);
        assert(edited(reach, pattern, route));
        if route.distance > 0 {
            assert(route.distance == 1);
            let source = choose|source: Seq<char>|
                at_distance(reach, pattern, 0, source) && #[trigger] one_edit(
                    reach,
                    source,
                    route.text,
                    route.derivation,
                );
            assert(source == pattern);
            assert(is_edit(alphabet, keys, pattern, text, route.derivation));
        }
    }
    if text != pattern && text.len() > 0 && one_slip(alphabet, keys, pattern, text) {
        let derivation = choose|derivation: Derivation| #[trigger]
            is_edit(alphabet, keys, pattern, text, derivation);
        let route = Route { text, derivation, distance: 1 };
        lemma_edited_once(reach, pattern, route);
        assert(from_pattern(single, patterns[0], route));
        assert(reachable(single, patterns, route));
    }
}

/// The likelier a slip, the more a match by it is worth: the query itself most, then a misspelling on
/// record, a swap, a substitution, an insertion and a deletion; and every one is worth something.
pub proof fn likelier_slips_are_worth_more(distance: nat)
    ensures
        better(Derivation::Exact, distance, Derivation::Recorded, distance),
        better(Derivation::Recorded, distance, Derivation::Transposition, distance),
        better(Derivation::Transposition, distance, Derivation::Substitution, distance),
        better(Derivation::Substitution, distance, Derivation::Insertion, distance),
        better(Derivation::Insertion, distance, Derivation::Deletion, distance),
        Derivation::Exact.worth() == 100,
        Derivation::Recorded.worth() == 95,
        Derivation::Transposition.worth() == 90,
        Derivation::Substitution.worth() == 80,
        Derivation::Insertion.worth() == 70,
        Derivation::Deletion.worth() == 60,
        forall|derivation: Derivation| #[trigger]
            derivation.worth() >= 60 && better(derivation, distance, derivation, distance + 1),
{
    reveal(better);
    assert forall|derivation: Derivation| #[trigger]
        derivation.worth() >= 60 && better(derivation, distance, derivation, distance + 1) by {
        let worth = derivation.worth();
        assert(worth * (distance + 1 + 1) == worth * (distance + 1) + worth) by (nonlinear_arith);
    }
    assert(100 * (distance + 1) > 95 * (distance + 1)) by (nonlinear_arith);
    assert(95 * (distance + 1) > 90 * (distance + 1)) by (nonlinear_arith);
    assert(90 * (distance + 1) > 80 * (distance + 1)) by (nonlinear_arith);
    assert(80 * (distance + 1) > 70 * (distance + 1)) by (nonlinear_arith);
    assert(70 * (distance + 1) > 60 * (distance + 1)) by (nonlinear_arith);
}

/// Of a ranking the best are kept, the best first: no line that is kept ranks below one behind it or
/// below one that is not kept, and lines that rank alike keep the order of the input.
pub proof fn the_best_lines_come_first<'a>(
    kept: Seq<Survivor<'a>>,
    all: Seq<Survivor<'a>>,
    ranking: Seq<Survivor<'a>>,
    top: int,
)
    requires
        best_of(kept, all, ranking, top),
        0 <= top,
    ensures
        kept.len() == if top < all.len() {
            top
        } else {
            all.len() as int
        },
        forall|i: int, j: int|
            #![trigger ranking[i], ranking[j]]
            0 <= i < j < ranking.len() ==> ranking[i].rank > ranking[j].rank || ranking[i].rank
                == ranking[j].rank && ranking[i].index <= ranking[j].index,
        forall|i: int| 0 <= i < kept.len() ==> #[trigger] kept[i] == ranking[i],
        ranking.to_multiset() == all.to_multiset(),
{
    assert forall|i: int, j: int|
        #![trigger ranking[i], ranking[j]]
        0 <= i < j < ranking.len() implies ranking[i].rank > ranking[j].rank || ranking[i].rank
        == ranking[j].rank && ranking[i].index <= ranking[j].index by {
        assert(may_lead(ranking[i], ranking[j], true));
    }
}

proof fn lemma_char_position(text: Seq<char>, character: char, from: int, at: int)
    requires
        0 <= from <= at <= text.len(),
        at < text.len() ==> text[at] == character,
        forall|i: int| from <= i < at ==> text[i] != character,
    ensures
        char_position(text, character, from) == at,
    decreases at - from,
{
    if from < at {
        lemma_char_position(text, character, from + 1, at);
    }
}

/// Three columns of a table are what its tabs part.
pub proof fn tabs_part_the_columns(one: Seq<char>, two: Seq<char>, three: Seq<char>)
    requires
        !one.contains('\t'),
        !two.contains('\t'),
        !three.contains('\t'),
    ensures
        columns(one + seq!['\t'] + two + seq!['\t'] + three) == seq![one, two, three],
{
    let row = one + seq!['\t'] + two + seq!['\t'] + three;
    let first = one.len() as int;
    let second = first + 1 + two.len();
    let size = row.len() as int;
    assert forall|i: int| 0 <= i < first implies row[i] != '\t' by {
        assert(one.contains(row[i]));
    }
    assert forall|i: int| first + 1 <= i < second implies row[i] != '\t' by {
        assert(two.contains(row[i]));
    }
    assert forall|i: int| second + 1 <= i < size implies row[i] != '\t' by {
        assert(three.contains(row[i]));
    }
    lemma_char_position(row, '\t', 0, first);
    lemma_char_position(row, '\t', first + 1, second);
    lemma_char_position(row, '\t', second + 1, size);
    reveal_with_fuel(split_on, 4);
    assert(row.subrange(0, first) =~= one);
    assert(row.subrange(first + 1, second) =~= two);
    assert(row.subrange(second + 1, size) =~= three);
    assert(columns(row) =~= seq![one, two, three]);
}

/// How a row of each table reads: a misspelling stands in front of the word it is one of, a key in
/// front of its neighbours, and what a transform rewrites in front of what it rewrites it to, each
/// behind the name of the list, the layout or the transform.
pub proof fn a_row_reads_from_left_to_right(
    name: Seq<char>,
    left: Seq<char>,
    right: Seq<char>,
    other: Seq<char>,
    keys: Map<char, Seq<char>>,
)
    requires
        !name.contains('\t'),
        !left.contains('\t'),
        !right.contains('\t'),
        left.len() > 0,
    ensures
        ({
            let row = name + seq!['\t'] + left + seq!['\t'] + right;
            &&& forall|query: Seq<char>, text: Seq<char>| #[trigger]
                records(row, query, text) <==> query == right && text == left
            &&& rule(row, name) == Some((left, right))
            &&& other != name ==> rule(row, other) is None
            &&& row_added(row, name, keys) == keys.insert(left[0], right)
            &&& other != name ==> row_added(row, other, keys) == keys
        }),
{
    tabs_part_the_columns(name, left, right);
}

/// A match that took more edits is worth its share: what is worth more for each edit wins, and of two
/// that are worth the same, the one with fewer edits does. Nothing wins against itself.
pub proof fn fewer_edits_win_a_tie(
    one: Derivation,
    one_distance: nat,
    two: Derivation,
    two_distance: nat,
)
    ensures
        ({
            let left = one.worth() * (two_distance + 1);
            let right = two.worth() * (one_distance + 1);
            &&& left > right ==> better(one, one_distance, two, two_distance)
            &&& left < right ==> better(two, two_distance, one, one_distance)
            &&& left == right && one_distance < two_distance ==> better(
                one,
                one_distance,
                two,
                two_distance,
            )
            &&& !(better(one, one_distance, two, two_distance) && better(
                two,
                two_distance,
                one,
                one_distance,
            ))
        }),
{
    reveal(better);
}

/// A word is put in front of another by the first character in which they differ, and in front of
/// every longer word that it begins.
pub proof fn words_are_ordered_by_their_first_difference(
    common: Seq<char>,
    one: char,
    other: char,
    tail: Seq<char>,
    other_tail: Seq<char>,
)
    ensures
        one != other ==> (precedes(common + seq![one] + tail, common + seq![other] + other_tail)
            <==> one < other),
        precedes(common, common + seq![one] + tail),
        !precedes(common + seq![one] + tail, common),
        !precedes(common, common),
    decreases common.len(),
{
    let left = common + seq![one] + tail;
    let right = common + seq![other] + other_tail;
    if common.len() > 0 {
        let rest = common.drop_first();
        words_are_ordered_by_their_first_difference(rest, one, other, tail, other_tail);
        assert(left.drop_first() =~= rest + seq![one] + tail);
        assert(right.drop_first() =~= rest + seq![other] + other_tail);
        assert(left[0] == common[0] && right[0] == common[0]);
    } else {
        assert(left[0] == one && right[0] == other);
    }
}

/// The layout that is taken covers as many of the letters as any of those to choose from, and the
/// baseline stays where none covers more.
pub proof fn the_layout_that_covers_most_is_taken(
    all: Seq<Seq<char>>,
    names: Seq<Seq<char>>,
    letters: Seq<char>,
    baseline: Seq<char>,
)
    ensures
        ({
            let best = best_layout(all, names, letters, baseline);
            let most = covered(layout_keys(all, best), letters);
            &&& best == baseline || names.contains(best)
            &&& covered(layout_keys(all, baseline), letters) <= most
            &&& forall|i: int|
                0 <= i < names.len() ==> covered(
                    layout_keys(all, #[trigger] names[i]),
                    letters,
                ) <= most
            &&& most == covered(layout_keys(all, baseline), letters) ==> best == baseline
        }),
    decreases names.len(),
{
    if names.len() > 0 {
        let front = names.drop_last();
        the_layout_that_covers_most_is_taken(all, front, letters, baseline);
        let before = best_layout(all, front, letters, baseline);
        assert(names.last() == names[names.len() - 1]);
        if front.contains(before) {
            let i = front.index_of(before);
            assert(names[i] == before);
        }
        let most = covered(layout_keys(all, best_layout(all, names, letters, baseline)), letters);
        assert forall|i: int| 0 <= i < names.len() implies covered(
            layout_keys(all, #[trigger] names[i]),
            letters,
        ) <= most by {
            if i < front.len() {
                assert(front[i] == names[i]);
            }
        }
    }
}

} // verus!
