//! What a query may have become: the strings one edit away from it, and what each is worth.

use vstd::prelude::*;

use super::effort::Alphabet;
use super::keyboards::{alphabet_of, is_alphabet, neighbours_of, Keyboard};

verus! {

/// How a variant was derived from its query, which is what sets its weight.
///
/// A transposition is the likeliest real typo and a deletion the least informative, so they do not
/// share a score even at equal edit distance.
#[derive(Clone, Copy, PartialEq, Eq, Structural, Debug)]
pub enum Derivation {
    Exact,
    /// A misspelling somebody wrote down.
    Recorded,
    Transposition,
    Substitution,
    Deletion,
    Insertion,
}

impl Derivation {
    /// What a derivation is worth before any edit, in hundredths.
    pub open spec fn worth(self) -> int {
        match self {
            Derivation::Exact => 100,
            Derivation::Recorded => 95,
            Derivation::Transposition => 90,
            Derivation::Substitution => 80,
            Derivation::Insertion => 70,
            Derivation::Deletion => 60,
        }
    }

    /// What a derivation is worth before any edit, in hundredths. It is never nothing, so whatever
    /// weighs what it finds by this finds nothing that weighs nothing.
    pub fn percent(self) -> (percent: u8)
        ensures
            percent == self.worth(),
            percent > 0,
    {
        match self {
            Derivation::Exact => 100,
            Derivation::Recorded => 95,
            Derivation::Transposition => 90,
            Derivation::Substitution => 80,
            Derivation::Insertion => 70,
            Derivation::Deletion => 60,
        }
    }
}

/// Whether one route to a variant is a better explanation than another. A route weighs what its
/// derivation is worth divided by one more than its edits; of two that weigh the same, the one with
/// fewer edits is the better.
#[verifier::opaque]
pub open spec fn better(
    one: Derivation,
    one_distance: nat,
    two: Derivation,
    two_distance: nat,
) -> bool {
    let left = one.worth() * (two_distance + 1);
    let right = two.worth() * (one_distance + 1);
    left > right || left == right && one_distance < two_distance
}

/// Whether one route to a variant is a better explanation than another.
pub fn is_better(
    one: Derivation,
    one_distance: usize,
    two: Derivation,
    two_distance: usize,
) -> (yes: bool)
    ensures
        yes == better(one, one_distance as nat, two, two_distance as nat),
{
    proof {
        reveal(better);
    }
    let one_worth: u128 = one.percent() as u128;
    let two_worth: u128 = two.percent() as u128;
    let one_edits: u128 = one_distance as u128 + 1;
    let two_edits: u128 = two_distance as u128 + 1;
    proof {
        assert(one_worth * two_edits <= 100 * 0x1_0000_0000_0000_0000) by (nonlinear_arith)
            requires
                one_worth <= 100,
                two_edits <= 0x1_0000_0000_0000_0000,
        ;
        assert(two_worth * one_edits <= 100 * 0x1_0000_0000_0000_0000) by (nonlinear_arith)
            requires
                two_worth <= 100,
                one_edits <= 0x1_0000_0000_0000_0000,
        ;
    }
    let left: u128 = one_worth * two_edits;
    let right: u128 = two_worth * one_edits;
    left > right || (left == right && one_distance < two_distance)
}

/// Of two routes, at most one is better, and one is unless they are the same.
pub proof fn lemma_better_total(
    one: Derivation,
    one_distance: nat,
    two: Derivation,
    two_distance: nat,
)
    ensures
        !(better(one, one_distance, two, two_distance) && better(
            two,
            two_distance,
            one,
            one_distance,
        )),
        better(one, one_distance, two, two_distance) || better(
            two,
            two_distance,
            one,
            one_distance,
        ) || (one == two && one_distance == two_distance),
{
    reveal(better);
    if one_distance == two_distance && one.worth() * (two_distance + 1) == two.worth() * (
    one_distance + 1) {
        let edits = one_distance + 1;
        assert(one.worth() == two.worth()) by (nonlinear_arith)
            requires
                one.worth() * edits == two.worth() * edits,
                edits > 0,
        ;
    }
}

/// What is no better than a route is no better than what that route is no better than.
pub proof fn lemma_better_chain(
    one: Derivation,
    one_distance: nat,
    two: Derivation,
    two_distance: nat,
    three: Derivation,
    three_distance: nat,
)
    requires
        !better(two, two_distance, one, one_distance),
        !better(three, three_distance, two, two_distance),
    ensures
        !better(three, three_distance, one, one_distance),
{
    reveal(better);
    let (a, b, c) = (one.worth(), two.worth(), three.worth());
    let (x, y, z) = (one_distance + 1, two_distance + 1, three_distance + 1);
    // a / x >= b / y and b / y >= c / z, so a / x >= c / z.
    assert(b * x <= a * y);
    assert(c * y <= b * z);
    assert(c * x <= a * z) by (nonlinear_arith)
        requires
            b * x <= a * y,
            c * y <= b * z,
            x > 0,
            y > 0,
            z > 0,
            a > 0,
            b > 0,
            c > 0,
    ;
    if c * x == a * z {
        assert(b * x == a * y && c * y == b * z) by (nonlinear_arith)
            requires
                b * x <= a * y,
                c * y <= b * z,
                c * x == a * z,
                x > 0,
                y > 0,
                z > 0,
                a > 0,
                b > 0,
                c > 0,
        ;
    }
}

/// Whether `replacement` may stand where `anchor` is typed.
pub open spec fn replaces(
    alphabet: Alphabet,
    keys: Map<char, Seq<char>>,
    anchor: char,
    replacement: char,
) -> bool {
    match alphabet {
        Alphabet::Keyboard => neighbours_of(keys, anchor).contains(replacement),
        Alphabet::Script => keys.contains_key(replacement),
    }
}

/// `source` with two neighbouring characters swapped.
pub open spec fn swapped(source: Seq<char>, at: int) -> Seq<char> {
    source.update(at, source[at + 1]).update(at + 1, source[at])
}

/// The character that an insertion at `at` sits beside: the one it pushes back, or the last one
/// where it pushes none.
pub open spec fn beside(source: Seq<char>, at: int) -> char {
    if at < source.len() {
        source[at]
    } else {
        source.last()
    }
}

/// Whether one edit of this kind turns `source` into `variant`.
pub open spec fn is_edit(
    alphabet: Alphabet,
    keys: Map<char, Seq<char>>,
    source: Seq<char>,
    variant: Seq<char>,
    derivation: Derivation,
) -> bool {
    match derivation {
        Derivation::Deletion => exists|at: int|
            0 <= at < source.len() && variant == #[trigger] source.remove(at),
        Derivation::Transposition => exists|at: int|
            0 <= at < source.len() - 1 && variant == #[trigger] swapped(source, at),
        Derivation::Substitution => exists|at: int, replacement: char|
            0 <= at < source.len() && replacement != source[at] && replaces(
                alphabet,
                keys,
                source[at],
                replacement,
            ) && variant == #[trigger] source.update(at, replacement),
        Derivation::Insertion => exists|at: int, inserted: char|
            0 <= at <= source.len() && replaces(alphabet, keys, beside(source, at), inserted)
                && variant == #[trigger] source.insert(at, inserted),
        Derivation::Exact | Derivation::Recorded => false,
    }
}

/// Whether these are the edits of `source` of one kind that touch it before `end`.
spec fn touched_before(
    alphabet: Alphabet,
    keys: Map<char, Seq<char>>,
    source: Seq<char>,
    variant: Seq<char>,
    derivation: Derivation,
    end: int,
) -> bool {
    match derivation {
        Derivation::Deletion => exists|at: int|
            0 <= at < end && at < source.len() && variant == #[trigger] source.remove(at),
        Derivation::Transposition => exists|at: int|
            0 <= at < end && at < source.len() - 1 && variant == #[trigger] swapped(source, at),
        Derivation::Substitution => exists|at: int, replacement: char|
            0 <= at < end && at < source.len() && replacement != source[at] && replaces(
                alphabet,
                keys,
                source[at],
                replacement,
            ) && variant == #[trigger] source.update(at, replacement),
        Derivation::Insertion => exists|at: int, inserted: char|
            0 <= at < end && at <= source.len() && replaces(
                alphabet,
                keys,
                beside(source, at),
                inserted,
            ) && variant == #[trigger] source.insert(at, inserted),
        Derivation::Exact | Derivation::Recorded => false,
    }
}

/// One variant, and how it was reached.
pub struct Edit {
    pub variant: Vec<char>,
    pub derivation: Derivation,
}

/// Whether one of these edits makes this variant this way.
pub open spec fn makes(edits: Seq<Edit>, variant: Seq<char>, derivation: Derivation) -> bool {
    exists|i: int|
        0 <= i < edits.len() && (#[trigger] edits[i]).variant@ == variant && edits[i].derivation
            == derivation
}

/// These edits as values.
pub open spec fn described(edits: Seq<Edit>) -> Seq<(Seq<char>, Derivation)> {
    edits.map_values(|edit: Edit| (edit.variant@, edit.derivation))
}

/// The deletions of `source`, by position.
pub open spec fn deletions(source: Seq<char>) -> Seq<(Seq<char>, Derivation)> {
    Seq::new(source.len(), |at: int| (source.remove(at), Derivation::Deletion))
}

/// The transpositions of `source`, by position.
pub open spec fn transpositions(source: Seq<char>) -> Seq<(Seq<char>, Derivation)> {
    Seq::new(
        if source.len() == 0 {
            0
        } else {
            (source.len() - 1) as nat
        },
        |at: int| (swapped(source, at), Derivation::Transposition),
    )
}

/// The characters that may stand where `anchor` is typed, in the order they are tried: the layout's
/// own order of neighbours, or ascending.
pub open spec fn candidates(
    alphabet: Alphabet,
    keys: Map<char, Seq<char>>,
    anchor: char,
) -> Seq<char> {
    match alphabet {
        Alphabet::Keyboard => neighbours_of(keys, anchor),
        Alphabet::Script => alphabet_of(keys),
    }
}

/// What putting each of these characters at `at` makes of `source`: in place of the character there,
/// unless it is the same one, or in front of it.
pub open spec fn edits_at(
    source: Seq<char>,
    at: int,
    inserted: bool,
    characters: Seq<char>,
) -> Seq<(Seq<char>, Derivation)>
    decreases characters.len(),
{
    if characters.len() == 0 {
        Seq::empty()
    } else {
        let earlier = edits_at(source, at, inserted, characters.drop_last());
        let character = characters.last();
        if inserted {
            earlier.push((source.insert(at, character), Derivation::Insertion))
        } else if character != source[at] {
            earlier.push((source.update(at, character), Derivation::Substitution))
        } else {
            earlier
        }
    }
}

/// The substitutions of the first `end` characters of `source`, by position.
pub open spec fn substitutions(
    alphabet: Alphabet,
    keys: Map<char, Seq<char>>,
    source: Seq<char>,
    end: int,
) -> Seq<(Seq<char>, Derivation)>
    decreases end,
{
    if end <= 0 {
        Seq::empty()
    } else {
        substitutions(alphabet, keys, source, end - 1) + edits_at(
            source,
            end - 1,
            false,
            candidates(alphabet, keys, source[end - 1]),
        )
    }
}

/// The insertions into `source` in front of its first `end` positions, the position behind its last
/// character being the last of them.
pub open spec fn insertions(
    alphabet: Alphabet,
    keys: Map<char, Seq<char>>,
    source: Seq<char>,
    end: int,
) -> Seq<(Seq<char>, Derivation)>
    decreases end,
{
    if end <= 0 {
        Seq::empty()
    } else {
        insertions(alphabet, keys, source, end - 1) + edits_at(
            source,
            end - 1,
            true,
            candidates(alphabet, keys, beside(source, end - 1)),
        )
    }
}

/// Every edit of `source`: the deletions, the transpositions, the substitutions and the insertions.
pub open spec fn edits(
    alphabet: Alphabet,
    keys: Map<char, Seq<char>>,
    source: Seq<char>,
) -> Seq<(Seq<char>, Derivation)> {
    deletions(source) + transpositions(source) + substitutions(
        alphabet,
        keys,
        source,
        source.len() as int,
    ) + insertions(alphabet, keys, source, source.len() as int + 1)
}

proof fn lemma_described_push(edits: Seq<Edit>, edit: Edit)
    ensures
        described(edits.push(edit)) == described(edits).push((edit.variant@, edit.derivation)),
{
    assert(described(edits.push(edit)) =~= described(edits).push((edit.variant@, edit.derivation)));
}

proof fn lemma_makes_push(edits: Seq<Edit>, edit: Edit)
    ensures
        forall|variant: Seq<char>, derivation: Derivation| #[trigger]
            makes(edits.push(edit), variant, derivation) <==> makes(edits, variant, derivation)
                || edit.variant@ == variant && edit.derivation == derivation,
{
    let more = edits.push(edit);
    assert forall|variant: Seq<char>, derivation: Derivation| #[trigger]
        makes(more, variant, derivation) <==> makes(edits, variant, derivation)
            || edit.variant@ == variant && edit.derivation == derivation by {
        if makes(more, variant, derivation) {
            let i = choose|i: int|
                0 <= i < more.len() && (#[trigger] more[i]).variant@ == variant
                    && more[i].derivation == derivation;
            if i < edits.len() {
                assert(edits[i] == more[i]);
            }
        }
        if makes(edits, variant, derivation) {
            let i = choose|i: int|
                0 <= i < edits.len() && (#[trigger] edits[i]).variant@ == variant
                    && edits[i].derivation == derivation;
            assert(more[i] == edits[i]);
        }
        assert(more[edits.len() as int] == edit);
    }
}

/// The characters that may stand where `anchor` is typed.
fn replacements(alphabet: Alphabet, keyboard: &Keyboard, anchor: char) -> (found: Vec<char>)
    requires
        keyboard.wf(),
    ensures
        forall|character: char| #[trigger]
            found@.contains(character) <==> replaces(alphabet, keyboard@, anchor, character),
        found@ == candidates(alphabet, keyboard@, anchor),
{
    match alphabet {
        Alphabet::Keyboard => vstd::slice::slice_to_vec(keyboard.near(anchor)),
        Alphabet::Script => keyboard.alphabet(),
    }
}

fn add_deletions(source: &[char], produced: &mut Vec<Edit>)
    ensures
        forall|variant: Seq<char>, derivation: Derivation| #[trigger]
            makes(final(produced)@, variant, derivation) <==> makes(
                old(produced)@,
                variant,
                derivation,
            ) || derivation == Derivation::Deletion && exists|at: int|
                0 <= at < source@.len() && variant == #[trigger] source@.remove(at),
        described(final(produced)@) == described(old(produced)@) + deletions(source@),
{
    let mut index: usize = 0;
    while index < source.len()
        invariant
            index <= source@.len(),
            forall|variant: Seq<char>, derivation: Derivation| #[trigger]
                makes(produced@, variant, derivation) <==> makes(
                    old(produced)@,
                    variant,
                    derivation,
                ) || derivation == Derivation::Deletion && exists|at: int|
                    0 <= at < index && variant == #[trigger] source@.remove(at),
            described(produced@) == described(old(produced)@) + deletions(source@).take(
                index as int,
            ),
        decreases source@.len() - index,
    {
        let mut variant: Vec<char> = vstd::slice::slice_to_vec(source);
        let _ = variant.remove(index);
        let edit = Edit { variant, derivation: Derivation::Deletion };
        proof {
            lemma_makes_push(produced@, edit);
            lemma_described_push(produced@, edit);
            assert(edit.variant@ =~= source@.remove(index as int));
            assert(deletions(source@).take(index + 1) =~= deletions(source@).take(
                index as int,
            ).push((edit.variant@, edit.derivation)));
        }
        produced.push(edit);
        index += 1;
    }
    assert(deletions(source@).take(index as int) =~= deletions(source@));
}

fn add_transpositions(source: &[char], produced: &mut Vec<Edit>)
    ensures
        forall|variant: Seq<char>, derivation: Derivation| #[trigger]
            makes(final(produced)@, variant, derivation) <==> makes(
                old(produced)@,
                variant,
                derivation,
            ) || derivation == Derivation::Transposition && exists|at: int|
                0 <= at < source@.len() - 1 && variant == #[trigger] swapped(source@, at),
        described(final(produced)@) == described(old(produced)@) + transpositions(source@),
{
    let count: usize = source.len();
    let mut index: usize = 0;
    while index < count && index + 1 < count
        invariant
            count == source@.len(),
            index <= count,
            count > 0 ==> index < count,
            forall|variant: Seq<char>, derivation: Derivation| #[trigger]
                makes(produced@, variant, derivation) <==> makes(
                    old(produced)@,
                    variant,
                    derivation,
                ) || derivation == Derivation::Transposition && exists|at: int|
                    0 <= at < index && variant == #[trigger] swapped(source@, at),
            described(produced@) == described(old(produced)@) + transpositions(source@).take(
                index as int,
            ),
        decreases source@.len() - index,
    {
        let mut variant: Vec<char> = vstd::slice::slice_to_vec(source);
        variant.set(index, source[index + 1]);
        variant.set(index + 1, source[index]);
        let edit = Edit { variant, derivation: Derivation::Transposition };
        proof {
            lemma_makes_push(produced@, edit);
            lemma_described_push(produced@, edit);
            assert(edit.variant@ =~= swapped(source@, index as int));
            assert(transpositions(source@).take(index + 1) =~= transpositions(source@).take(
                index as int,
            ).push((edit.variant@, edit.derivation)));
        }
        produced.push(edit);
        index += 1;
    }
    assert(transpositions(source@).take(index as int) =~= transpositions(source@));
}

/// The edits that one character, put at `at`, makes.
fn add_at(
    source: &[char],
    at: usize,
    inserted: bool,
    characters: &[char],
    produced: &mut Vec<Edit>,
)
    requires
        inserted ==> at <= source@.len(),
        !inserted ==> at < source@.len(),
    ensures
        forall|variant: Seq<char>, derivation: Derivation| #[trigger]
            makes(final(produced)@, variant, derivation) <==> makes(
                old(produced)@,
                variant,
                derivation,
            ) || (inserted && derivation == Derivation::Insertion && exists|character: char|
                characters@.contains(character) && variant == #[trigger] source@.insert(
                    at as int,
                    character,
                )) || (!inserted && derivation == Derivation::Substitution && exists|
                character: char,
            |
                characters@.contains(character) && character != source@[at as int] && variant
                    == #[trigger] source@.update(at as int, character)),
        described(final(produced)@) == described(old(produced)@) + edits_at(
            source@,
            at as int,
            inserted,
            characters@,
        ),
{
    let mut index: usize = 0;
    while index < characters.len()
        invariant
            index <= characters@.len(),
            inserted ==> at <= source@.len(),
            !inserted ==> at < source@.len(),
            forall|variant: Seq<char>, derivation: Derivation| #[trigger]
                makes(produced@, variant, derivation) <==> makes(
                    old(produced)@,
                    variant,
                    derivation,
                ) || (inserted && derivation == Derivation::Insertion && exists|character: char|
                    characters@.take(index as int).contains(character) && variant
                        == #[trigger] source@.insert(at as int, character)) || (!inserted
                    && derivation == Derivation::Substitution && exists|character: char|
                    characters@.take(index as int).contains(character) && character
                        != source@[at as int] && variant == #[trigger] source@.update(
                        at as int,
                        character,
                    )),
            described(produced@) == described(old(produced)@) + edits_at(
                source@,
                at as int,
                inserted,
                characters@.take(index as int),
            ),
        decreases characters@.len() - index,
    {
        let character: char = characters[index];
        let ghost seen = characters@.take(index as int);
        let ghost now = characters@.take(index + 1);
        proof {
            assert(now.drop_last() =~= seen);
            assert(now.last() == character);
            assert forall|other: char| #[trigger] now.contains(other) <==> seen.contains(other)
                || other == character by {
                if now.contains(other) {
                    let i = choose|i: int| 0 <= i < now.len() && now[i] == other;
                    if i < index {
                        assert(seen[i] == other);
                    }
                }
                if seen.contains(other) {
                    let i = choose|i: int| 0 <= i < seen.len() && seen[i] == other;
                    assert(now[i] == other);
                }
                assert(now[index as int] == character);
            }
        }
        if inserted || character != source[at] {
            let mut variant: Vec<char> = vstd::slice::slice_to_vec(source);
            let derivation = if inserted {
                variant.insert(at, character);
                Derivation::Insertion
            } else {
                variant.set(at, character);
                Derivation::Substitution
            };
            let edit = Edit { variant, derivation };
            proof {
                lemma_makes_push(produced@, edit);
                lemma_described_push(produced@, edit);
                if inserted {
                    assert(edit.variant@ =~= source@.insert(at as int, character));
                } else {
                    assert(edit.variant@ =~= source@.update(at as int, character));
                }
            }
            produced.push(edit);
        }
        index += 1;
    }
    assert(characters@.take(index as int) =~= characters@);
}

/// Every string one edit away from `source`, paired with how it was reached.
///
/// Deletions and transpositions need no alphabet; substitutions and insertions draw from one, which
/// is where adjacent keys narrow what a query expands to.
pub fn edits_of(source: &[char], alphabet: Alphabet, keyboard: &Keyboard) -> (produced: Vec<Edit>)
    requires
        source@.len() > 0,
        keyboard.wf(),
    ensures
        forall|variant: Seq<char>, derivation: Derivation| #[trigger]
            makes(produced@, variant, derivation) <==> is_edit(
                alphabet,
                keyboard@,
                source@,
                variant,
                derivation,
            ),
        described(produced@) == edits(alphabet, keyboard@, source@),
        is_alphabet(alphabet_of(keyboard@), keyboard@),
{
    let mut produced: Vec<Edit> = Vec::new();
    proof {
        keyboard.lemma_has_alphabet();
        assert(described(produced@) =~= Seq::empty());
    }
    add_deletions(source, &mut produced);
    add_transpositions(source, &mut produced);
    let ghost keys = keyboard@;
    let mut index: usize = 0;
    while index < source.len()
        invariant
            index <= source@.len(),
            keyboard.wf(),
            keys == keyboard@,
            forall|variant: Seq<char>, derivation: Derivation| #[trigger]
                makes(produced@, variant, derivation) <==> match derivation {
                    Derivation::Substitution => touched_before(
                        alphabet,
                        keys,
                        source@,
                        variant,
                        derivation,
                        index as int,
                    ),
                    Derivation::Insertion => false,
                    _ => is_edit(alphabet, keys, source@, variant, derivation),
                },
            described(produced@) == deletions(source@) + transpositions(source@) + substitutions(
                alphabet,
                keys,
                source@,
                index as int,
            ),
        decreases source@.len() - index,
    {
        let characters: Vec<char> = replacements(alphabet, keyboard, source[index]);
        add_at(source, index, false, characters.as_slice(), &mut produced);
        index += 1;
    }
    let mut at: usize = 0;
    let mut done = false;
    while !done
        invariant
            at <= source@.len(),
            done ==> at == source@.len(),
            source@.len() > 0,
            keyboard.wf(),
            keys == keyboard@,
            forall|variant: Seq<char>, derivation: Derivation| #[trigger]
                makes(produced@, variant, derivation) <==> match derivation {
                    Derivation::Insertion => touched_before(
                        alphabet,
                        keys,
                        source@,
                        variant,
                        derivation,
                        at + if done {
                            1int
                        } else {
                            0int
                        },
                    ),
                    _ => is_edit(alphabet, keys, source@, variant, derivation),
                },
            described(produced@) == deletions(source@) + transpositions(source@) + substitutions(
                alphabet,
                keys,
                source@,
                source@.len() as int,
            ) + insertions(
                alphabet,
                keys,
                source@,
                at + if done {
                    1int
                } else {
                    0int
                },
            ),
        decreases source@.len() - at, if done { 0int } else { 1int },
    {
        // An insertion at the end has no character of its own to sit beside, so it borrows the last
        // one's neighbours; without this the tail of a needle admits no insertions at all.
        let anchor: char = if at < source.len() {
            source[at]
        } else {
            source[source.len() - 1]
        };
        let characters: Vec<char> = replacements(alphabet, keyboard, anchor);
        add_at(source, at, true, characters.as_slice(), &mut produced);
        if at < source.len() {
            at += 1;
        } else {
            done = true;
        }
    }
    produced
}

/// Neighbours are part of the alphabet on a layout that carries all of them, so an edit that follows
/// adjacent keys is one that draws from the whole layout.
pub proof fn adjacent_edits_are_edits(
    keys: Map<char, Seq<char>>,
    source: Seq<char>,
    variant: Seq<char>,
    derivation: Derivation,
)
    requires
        forall|anchor: char, near: char|
            #![trigger neighbours_of(keys, anchor).contains(near)]
            neighbours_of(keys, anchor).contains(near) ==> keys.contains_key(near),
        is_edit(Alphabet::Keyboard, keys, source, variant, derivation),
    ensures
        is_edit(Alphabet::Script, keys, source, variant, derivation),
{
    match derivation {
        Derivation::Substitution => {
            let (at, replacement) = choose|at: int, replacement: char|
                0 <= at < source.len() && replacement != source[at] && replaces(
                    Alphabet::Keyboard,
                    keys,
                    source[at],
                    replacement,
                ) && variant == #[trigger] source.update(at, replacement);
            assert(replaces(Alphabet::Script, keys, source[at], replacement));
            assert(variant == source.update(at, replacement));
        },
        Derivation::Insertion => {
            let (at, inserted) = choose|at: int, inserted: char|
                0 <= at <= source.len() && replaces(
                    Alphabet::Keyboard,
                    keys,
                    beside(source, at),
                    inserted,
                ) && variant == #[trigger] source.insert(at, inserted);
            assert(replaces(Alphabet::Script, keys, beside(source, at), inserted));
            assert(variant == source.insert(at, inserted));
        },
        _ => {},
    }
}

} // verus!
