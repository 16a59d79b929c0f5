//! Physical key adjacency, read from a `layout<TAB>character<TAB>neighbours` table.
//!
//! A layout is a permutation of characters onto keys whose positions never change, so one small
//! table covers every script that is typed off a keyboard.

use vstd::prelude::*;
use vstd::string::StringExecFns;

use crate::text::chars_of;

use super::tables::{
    columns, columns_of, known_names, names_of, rows, rows_of, same_chars, spelled, texts,
};

verus! {

/// One key: the character it carries, and the characters of the keys around it.
pub struct Key {
    pub character: char,
    pub neighbours: Vec<char>,
}

/// Which keys sit next to which, for one layout. The keys stand in the order of their characters,
/// no character on two of them.
pub struct Keyboard {
    keys: Vec<Key>,
}

/// What one more row of a table adds to a layout. A row without three columns, or without a
/// character, adds nothing; one that names a character again replaces what came before.
pub open spec fn row_added(
    row: Seq<char>,
    layout: Seq<char>,
    keys: Map<char, Seq<char>>,
) -> Map<char, Seq<char>> {
    let parts = columns(row);
    if parts.len() >= 3 && parts[0] == layout && parts[1].len() > 0 {
        keys.insert(parts[1][0], parts[2])
    } else {
        keys
    }
}

/// The keys that these rows give a layout.
pub open spec fn layout_keys(all: Seq<Seq<char>>, layout: Seq<char>) -> Map<char, Seq<char>>
    decreases all.len(),
{
    if all.len() == 0 {
        Map::empty()
    } else {
        row_added(all.last(), layout, layout_keys(all.drop_last(), layout))
    }
}

/// Whether keys stand in the order of their characters, no character on two of them.
pub open spec fn keys_in_order(keys: Seq<Key>) -> bool {
    forall|i: int, j: int|
        #![trigger keys[i], keys[j]]
        0 <= i < j < keys.len() ==> keys[i].character < keys[j].character
}

/// Whether one of these keys carries this character.
pub open spec fn carries(keys: Seq<Key>, character: char) -> bool {
    exists|i: int| 0 <= i < keys.len() && (#[trigger] keys[i]).character == character
}

/// The neighbours of the key that carries this character.
pub open spec fn around(keys: Seq<Key>, character: char) -> Seq<char> {
    let at = choose|i: int| 0 <= i < keys.len() && (#[trigger] keys[i]).character == character;
    keys[at].neighbours@
}

/// These keys as a map from characters to neighbours.
pub open spec fn key_map(keys: Seq<Key>) -> Map<char, Seq<char>> {
    Map::new(|character: char| carries(keys, character), |character: char| around(keys, character))
}

proof fn lemma_key_at(keys: Seq<Key>, at: int)
    requires
        keys_in_order(keys),
        0 <= at < keys.len(),
    ensures
        key_map(keys).contains_key(keys[at].character),
        key_map(keys)[keys[at].character] == keys[at].neighbours@,
{
    let character = keys[at].character;
    assert(carries(keys, character));
    let found = choose|i: int| 0 <= i < keys.len() && (#[trigger] keys[i]).character == character;
    assert(keys[found].character == keys[at].character);
    if found < at {
        assert(keys[found].character < keys[at].character);
    }
    if at < found {
        assert(keys[at].character < keys[found].character);
    }
}

impl View for Keyboard {
    type V = Map<char, Seq<char>>;

    closed spec fn view(&self) -> Map<char, Seq<char>> {
        key_map(self.keys@)
    }
}

impl Default for Keyboard {
    fn default() -> (keyboard: Self)
        ensures
            keyboard.wf(),
            keyboard@ == Map::<char, Seq<char>>::empty(),
    {
        let keyboard = Keyboard { keys: Vec::new() };
        assert(key_map(keyboard.keys@) =~= Map::<char, Seq<char>>::empty());
        keyboard
    }
}

impl Keyboard {
    pub closed spec fn wf(&self) -> bool {
        keys_in_order(self.keys@)
    }

    /// Where `character` is, or where it would be put.
    fn position(&self, character: char) -> (at: usize)
        requires
            self.wf(),
        ensures
            at <= self.keys@.len(),
            forall|i: int| 0 <= i < at ==> (#[trigger] self.keys@[i]).character < character,
            at < self.keys@.len() ==> character <= self.keys@[at as int].character,
    {
        let mut at: usize = 0;
        while at < self.keys.len() && self.keys[at].character < character
            invariant
                at <= self.keys@.len(),
                forall|i: int| 0 <= i < at ==> (#[trigger] self.keys@[i]).character < character,
            decreases self.keys@.len() - at,
        {
            at += 1;
        }
        at
    }

    /// Give a character its neighbours, in place of those it had.
    fn insert(&mut self, character: char, neighbours: Vec<char>)
        requires
            old(self).wf(),
        ensures
            final(self).wf(),
            final(self)@ == old(self)@.insert(character, neighbours@),
    {
        let ghost before = self.keys@;
        let at: usize = self.position(character);
        let key = Key { character, neighbours };
        if at < self.keys.len() && self.keys[at].character == character {
            self.keys.set(at, key);
            proof {
                let now = self.keys@;
                assert(now =~= before.update(at as int, key));
                assert forall|i: int, j: int|
                    #![trigger now[i], now[j]]
                    0 <= i < j < now.len() implies now[i].character < now[j].character by {
                    assert(before[i].character < before[j].character);
                }
                lemma_same_map(before, now, at as int, false);
            }
        } else {
            self.keys.insert(at, key);
            proof {
                let now = self.keys@;
                assert(now =~= before.insert(at as int, key));
                assert forall|i: int, j: int|
                    #![trigger now[i], now[j]]
                    0 <= i < j < now.len() implies now[i].character < now[j].character by {
                    let one = if i < at {
                        i
                    } else {
                        i - 1
                    };
                    let two = if j < at {
                        j
                    } else {
                        j - 1
                    };
                    if i != at {
                        assert(now[i] == before[one]);
                    }
                    if j != at {
                        assert(now[j] == before[two]);
                    }
                    if i != at && j != at {
                        assert(before[one].character < before[two].character);
                    } else if i == at {
                        assert(before[at as int].character <= before[two].character);
                    }
                }
                lemma_same_map(before, now, at as int, true);
            }
        }
    }

    /// Read one layout out of a table. Unknown names yield an empty keyboard, which the caller
    /// reports rather than silently treating as "no neighbours".
    pub fn load(table: &str, layout: &str) -> (keyboard: Self)
        ensures
            keyboard.wf(),
            keyboard@ == layout_keys(rows(table@), layout@),
    {
        let chars: Vec<char> = chars_of(table);
        let wanted: Vec<char> = chars_of(layout);
        let all: Vec<&[char]> = rows_of(chars.as_slice());
        let ghost cut = rows(table@);
        let mut keyboard = Keyboard::default();
        let mut index: usize = 0;
        assert(cut.take(0) =~= Seq::empty());
        while index < all.len()
            invariant
                index <= all@.len(),
                cut == rows(table@),
                spelled(all@) == cut,
                wanted@ == layout@,
                keyboard.wf(),
                keyboard@ == layout_keys(cut.take(index as int), layout@),
            decreases all@.len() - index,
        {
            let row: &[char] = all[index];
            let parts: Vec<&[char]> = columns_of(row);
            proof {
                assert(cut[index as int] == row@);
                assert(cut.take(index + 1).drop_last() =~= cut.take(index as int));
                assert(parts@.len() == columns(row@).len());
                assert forall|i: int| 0 <= i < parts@.len() implies (#[trigger] parts@[i])@
                    == columns(row@)[i] by {
                    assert(spelled(parts@)[i] == parts@[i]@);
                }
            }
            if parts.len() >= 3 && same_chars(parts[0], wanted.as_slice()) && parts[1].len() > 0 {
                let character: char = parts[1][0];
                keyboard.insert(character, vstd::slice::slice_to_vec(parts[2]));
            }
            index += 1;
        }
        assert(cut.take(index as int) =~= cut);
        keyboard
    }

    /// Every layout a table carries.
    pub fn known_layouts(table: &str) -> (names: Vec<String>)
        ensures
            texts(names@) == names_of(rows(table@)),
    {
        known_names(table)
    }

    pub fn is_empty(&self) -> (empty: bool)
        requires
            self.wf(),
        ensures
            empty == (self@ == Map::<char, Seq<char>>::empty()),
    {
        proof {
            if self.keys@.len() == 0 {
                assert(self@ =~= Map::<char, Seq<char>>::empty());
            } else {
                lemma_key_at(self.keys@, 0);
            }
        }
        self.keys.len() == 0
    }

    /// The characters around this one, none where the layout does not carry it.
    pub fn near(&self, character: char) -> (neighbours: &[char])
        requires
            self.wf(),
        ensures
            neighbours@ == neighbours_of(self@, character),
    {
        let at: usize = self.position(character);
        proof {
            if self@.contains_key(character) {
                let found = choose|i: int|
                    0 <= i < self.keys@.len() && (#[trigger] self.keys@[i]).character == character;
                assert(self.keys@[found].character == character);
                assert(at <= found);
                if at < found {
                    assert(self.keys@[at as int].character < self.keys@[found].character);
                }
            }
        }
        if at < self.keys.len() && self.keys[at].character == character {
            proof {
                lemma_key_at(self.keys@, at as int);
            }
            self.keys[at].neighbours.as_slice()
        } else {
            let none: &[char] = &[];
            assert(none@ =~= Seq::empty());
            none
        }
    }

    /// The characters of the keys are the characters of the layout, in order.
    proof fn lemma_alphabet(&self)
        requires
            self.wf(),
        ensures
            ({
                let characters = self.keys@.map_values(|key: Key| key.character);
                is_alphabet(characters, self@) && characters == alphabet_of(self@)
            }),
    {
        let characters = self.keys@.map_values(|key: Key| key.character);
        assert forall|i: int, j: int|
            #![trigger characters[i], characters[j]]
            0 <= i < j < characters.len() implies characters[i] < characters[j] by {
            assert(self.keys@[i].character < self.keys@[j].character);
        }
        assert forall|character: char| #[trigger]
            characters.contains(character) <==> self@.contains_key(character) by {
            if self@.contains_key(character) {
                let found = choose|i: int|
                    0 <= i < self.keys@.len() && (#[trigger] self.keys@[i]).character == character;
                assert(characters[found] == character);
            }
            if characters.contains(character) {
                let i = choose|i: int| 0 <= i < characters.len() && characters[i] == character;
                lemma_key_at(self.keys@, i);
            }
        }
        lemma_alphabet_of(characters, self@);
    }

    /// A layout has its characters in one order.
    pub proof fn lemma_has_alphabet(&self)
        requires
            self.wf(),
        ensures
            is_alphabet(alphabet_of(self@), self@),
    {
        self.lemma_alphabet();
    }

    /// Every character the layout carries, in order.
    pub fn alphabet(&self) -> (characters: Vec<char>)
        requires
            self.wf(),
        ensures
            is_alphabet(characters@, self@),
            characters@ == alphabet_of(self@),
    {
        let mut characters: Vec<char> = Vec::new();
        let mut index: usize = 0;
        while index < self.keys.len()
            invariant
                index <= self.keys@.len(),
                characters@.len() == index,
                forall|i: int|
                    0 <= i < index ==> #[trigger] characters@[i] == self.keys@[i].character,
            decreases self.keys@.len() - index,
        {
            characters.push(self.keys[index].character);
            index += 1;
        }
        proof {
            self.lemma_alphabet();
            assert(characters@ =~= self.keys@.map_values(|key: Key| key.character));
        }
        characters
    }

    /// How many of these letters the layout carries, each letter counted once.
    fn coverage(&self, letters: &[char]) -> (count: usize)
        requires
            self.wf(),
        ensures
            count == covered(self@, letters@),
    {
        let mut count: usize = 0;
        let mut index: usize = 0;
        let ghost mut found = Set::<char>::empty();
        proof {
            assert(found =~= self@.dom().intersect(Seq::<char>::empty().to_set())) by {
                assert(Seq::<char>::empty().to_set() =~= Set::empty());
            }
            assert(letters@.take(0) =~= Seq::empty());
        }
        while index < letters.len()
            invariant
                index <= letters@.len(),
                self.wf(),
                found.finite(),
                count == found.len(),
                count <= index,
                found == self@.dom().intersect(letters@.take(index as int).to_set()),
            decreases letters@.len() - index,
        {
            let letter: char = letters[index];
            let ghost seen = letters@.take(index as int);
            let ghost now = letters@.take(index + 1);
            proof {
                assert(now =~= seen.push(letter));
                assert forall|other: char| #[trigger] now.to_set().contains(other)
                    <==> seen.to_set().contains(other) || other == letter by {
                    if now.contains(other) {
                        let i = choose|i: int| 0 <= i < now.len() && now[i] == other;
                        if i < index {
                            assert(seen[i] == other);
                        }
                    }
                    if seen.contains(other) {
                        let i = choose|i: int| 0 <= i < seen.len() && seen[i] == other;
                        assert(now[i] == other);
                    }
                    assert(now[index as int] == letter);
                }
            }
            let repeated = contains_char(&letters[0..index], letter);
            assert(letters@.subrange(0, index as int) =~= seen);
            let at: usize = self.position(letter);
            let carried = at < self.keys.len() && self.keys[at].character == letter;
            proof {
                if self@.contains_key(letter) {
                    let key = choose|i: int|
                        0 <= i < self.keys@.len() && (#[trigger] self.keys@[i]).character
                            == letter;
                    assert(self.keys@[key].character == letter);
                    if at < key {
                        assert(self.keys@[at as int].character < self.keys@[key].character);
                    }
                    assert(carried);
                }
                if carried {
                    lemma_key_at(self.keys@, at as int);
                }
                let next = self@.dom().intersect(now.to_set());
                if carried {
                    assert(next =~= found.insert(letter));
                } else {
                    assert(next =~= found);
                }
                assert(found.contains(letter) <==> carried && repeated);
                if carried && !repeated {
                    assert(next =~= found.insert(letter));
                } else {
                    assert(next =~= found);
                }
                found = next;
            }
            if carried && !repeated {
                count += 1;
            }
            index += 1;
        }
        assert(letters@.take(index as int) =~= letters@);
        count
    }

    /// Pick the layout that covers most of these letters. `us` is the baseline rather than nothing,
    /// so a layout that merely ties it leaves the choice alone: only a script `us` cannot type
    /// covers strictly more and takes over. Later ties keep the earlier name.
    pub fn layout_for(table: &str, letters: &[char]) -> (layout: String)
        ensures
            layout@ == best_layout(
                rows(table@),
                names_of(rows(table@)),
                letters@,
                "us"@,
            ),
    {
        let names: Vec<String> = Keyboard::known_layouts(table);
        let ghost all = names_of(rows(table@));
        let mut best = String::from_str("us");
        let mut most: usize = Keyboard::load(table, "us").coverage(letters);
        let mut index: usize = 0;
        assert(all.take(0) =~= Seq::empty());
        while index < names.len()
            invariant
                index <= names@.len(),
                all == names_of(rows(table@)),
                texts(names@) == all,
                best@ == best_layout(rows(table@), all.take(index as int), letters@, "us"@),
                most == covered(layout_keys(rows(table@), best@), letters@),
            decreases names@.len() - index,
        {
            proof {
                assert(all[index as int] == names@[index as int]@);
                assert(all.take(index + 1).drop_last() =~= all.take(index as int));
                assert(all.take(index + 1).last() == all[index as int]);
            }
            let name: &str = names[index].as_str();
            let count: usize = Keyboard::load(table, name).coverage(letters);
            if count > most {
                best = String::from_str(name);
                most = count;
            }
            index += 1;
        }
        assert(all.take(index as int) =~= all);
        best
    }
}

/// Placing a key among those in order is adding it to the layout, and writing over one is giving its
/// character other neighbours.
proof fn lemma_same_map(before: Seq<Key>, now: Seq<Key>, at: int, added: bool)
    requires
        keys_in_order(before),
        keys_in_order(now),
        0 <= at < now.len(),
        added ==> now == before.insert(at, now[at]) && at <= before.len(),
        !added ==> now == before.update(at, now[at]) && at < before.len() && before[at].character
            == now[at].character,
    ensures
        key_map(now) == key_map(before).insert(now[at].character, now[at].neighbours@),
{
    let expected = key_map(before).insert(now[at].character, now[at].neighbours@);
    let shift: int = if added {
        1
    } else {
        0
    };
    assert forall|character: char| #[trigger]
        key_map(now).contains_key(character) <==> expected.contains_key(character) by {
        assert(carries(now, now[at].character)) by {
            assert(0 <= at < now.len() && now[at].character == now[at].character);
        }
        if carries(now, character) {
            let i = choose|i: int| 0 <= i < now.len() && (#[trigger] now[i]).character == character;
            if i < at {
                assert(before[i] == now[i]);
                assert(carries(before, character));
            } else if i > at {
                assert(before[i - shift] == now[i]);
                assert(carries(before, character));
            }
        }
        if carries(before, character) {
            let i = choose|i: int|
                0 <= i < before.len() && (#[trigger] before[i]).character == character;
            if i < at {
                assert(now[i] == before[i]);
                assert(carries(now, character));
            } else if added || i > at {
                assert(now[i + shift] == before[i]);
                assert(carries(now, character));
            }
        }
    }
    assert forall|character: char| #[trigger]
        key_map(now).contains_key(character) implies key_map(now)[character]
        == expected[character] by {
        let i = choose|i: int| 0 <= i < now.len() && (#[trigger] now[i]).character == character;
        lemma_key_at(now, i);
        if i < at {
            assert(before[i] == now[i]);
            lemma_key_at(before, i);
            assert(now[i].character < now[at].character);
        } else if i > at {
            assert(before[i - shift] == now[i]);
            lemma_key_at(before, i - shift);
            assert(now[at].character < now[i].character);
        }
    }
    assert(key_map(now) =~= expected);
}

/// The characters around this one, none where the layout does not carry it.
pub open spec fn neighbours_of(keys: Map<char, Seq<char>>, character: char) -> Seq<char> {
    if keys.contains_key(character) {
        keys[character]
    } else {
        Seq::empty()
    }
}

/// Whether each of these characters comes before all that follow it.
pub open spec fn ascending(characters: Seq<char>) -> bool {
    forall|i: int, j: int|
        #![trigger characters[i], characters[j]]
        0 <= i < j < characters.len() ==> characters[i] < characters[j]
}

/// Whether these are the characters of a layout, in order.
pub open spec fn is_alphabet(characters: Seq<char>, keys: Map<char, Seq<char>>) -> bool {
    &&& ascending(characters)
    &&& forall|character: char| #[trigger]
        characters.contains(character) <==> keys.contains_key(character)
}

/// The characters of a layout, in order.
pub open spec fn alphabet_of(keys: Map<char, Seq<char>>) -> Seq<char> {
    choose|characters: Seq<char>| is_alphabet(characters, keys)
}

/// Only one sequence holds the characters of a layout in order.
pub proof fn lemma_alphabet_of(characters: Seq<char>, keys: Map<char, Seq<char>>)
    requires
        is_alphabet(characters, keys),
    ensures
        characters == alphabet_of(keys),
        is_alphabet(alphabet_of(keys), keys),
{
    let chosen = alphabet_of(keys);
    assert(is_alphabet(chosen, keys));
    assert forall|character: char| #[trigger] characters.contains(character) <==> chosen.contains(
        character,
    ) by {
        assert(characters.contains(character) <==> keys.contains_key(character));
    }
    lemma_ascending_alike(characters, chosen);
}

/// Two ascending sequences of the same characters are the same.
proof fn lemma_ascending_alike(one: Seq<char>, two: Seq<char>)
    requires
        ascending(one),
        ascending(two),
        forall|character: char| #[trigger] one.contains(character) <==> two.contains(character),
    ensures
        one == two,
    decreases one.len(),
{
    if one.len() == 0 {
        if two.len() > 0 {
            assert(two.contains(two[0]));
            assert(one.contains(two[0]));
        }
        assert(one =~= two);
    } else {
        assert(one.contains(one.last()));
        assert(two.contains(one.last()));
        let in_two = choose|i: int| 0 <= i < two.len() && two[i] == one.last();
        assert(two.contains(two.last()));
        assert(one.contains(two.last()));
        let in_one = choose|i: int| 0 <= i < one.len() && one[i] == two.last();
        assert(one.last() == two.last());
        let shorter = one.drop_last();
        let other = two.drop_last();
        assert forall|character: char| #[trigger] shorter.contains(character) <==> other.contains(
            character,
        ) by {
            if shorter.contains(character) {
                let i = choose|i: int| 0 <= i < shorter.len() && shorter[i] == character;
                assert(one[i] == character);
                assert(one.contains(character));
                assert(two.contains(character));
                let j = choose|j: int| 0 <= j < two.len() && two[j] == character;
                assert(one[i] < one[one.len() - 1]);
                assert(other[j] == character);
            }
            if other.contains(character) {
                let i = choose|i: int| 0 <= i < other.len() && other[i] == character;
                assert(two[i] == character);
                assert(two.contains(character));
                assert(one.contains(character));
                let j = choose|j: int| 0 <= j < one.len() && one[j] == character;
                assert(two[i] < two[two.len() - 1]);
                assert(shorter[j] == character);
            }
        }
        assert forall|i: int, j: int|
            #![trigger shorter[i], shorter[j]]
            0 <= i < j < shorter.len() implies shorter[i] < shorter[j] by {
            assert(one[i] < one[j]);
        }
        assert forall|i: int, j: int|
            #![trigger other[i], other[j]]
            0 <= i < j < other.len() implies other[i] < other[j] by {
            assert(two[i] < two[j]);
        }
        lemma_ascending_alike(shorter, other);
        assert(one =~= shorter.push(one.last()));
        assert(two =~= other.push(two.last()));
    }
}

/// How many of these letters a layout carries, each letter counted once.
pub open spec fn covered(keys: Map<char, Seq<char>>, letters: Seq<char>) -> nat {
    keys.dom().intersect(letters.to_set()).len()
}

/// The layout that covers most of these letters: `baseline`, or the first of these names that
/// covers more than everything before it.
pub open spec fn best_layout(
    all: Seq<Seq<char>>,
    names: Seq<Seq<char>>,
    letters: Seq<char>,
    baseline: Seq<char>,
) -> Seq<char>
    decreases names.len(),
{
    if names.len() == 0 {
        baseline
    } else {
        let best = best_layout(all, names.drop_last(), letters, baseline);
        if covered(layout_keys(all, names.last()), letters) > covered(
            layout_keys(all, best),
            letters,
        ) {
            names.last()
        } else {
            best
        }
    }
}

fn contains_char(text: &[char], character: char) -> (found: bool)
    ensures
        found == text@.contains(character),
{
    let mut index: usize = 0;
    while index < text.len()
        invariant
            index <= text@.len(),
            forall|i: int| 0 <= i < index ==> text@[i] != character,
        decreases text@.len() - index,
    {
        if text[index] == character {
            assert(text@[index as int] == character);
            return true;
        }
        index += 1;
    }
    false
}

/// `text` in lower case, as the Unicode character tables have it.
pub uninterp spec fn lowercase_of(text: Seq<char>) -> Seq<char>;

/// `str::to_lowercase`: the text in lower case, which is named and not spelled out.
#[verifier::external_body]
fn to_lowercase(text: &str) -> (lower: String)
    ensures
        lower@ == lowercase_of(text@),
{
    text.to_lowercase()
}

/// Whether a character is a letter, as the Unicode character tables have it.
pub uninterp spec fn alphabetic(character: char) -> bool;

/// `char::is_alphabetic`: whether the character is a letter, which is named and not spelled out.
#[verifier::external_body]
fn is_alphabetic(character: char) -> (letter: bool)
    ensures
        letter == alphabetic(character),
{
    character.is_alphabetic()
}

/// The letters of `text`.
pub open spec fn letters_of(text: Seq<char>) -> Seq<char> {
    text.filter(|character: char| alphabetic(character))
}

impl Keyboard {
    /// Pick the layout whose alphabet covers most of `pattern`, so a Cyrillic needle reaches a Cyrillic
    /// keyboard without the caller naming one.
    pub fn detect(table: &str, pattern: &str) -> (layout: String)
        ensures
            layout@ == best_layout(
                rows(table@),
                names_of(rows(table@)),
                letters_of(lowercase_of(pattern@)),
                "us"@,
            ),
    {
        let lower = to_lowercase(pattern);
        let chars: Vec<char> = chars_of(lower.as_str());
        let mut letters: Vec<char> = Vec::new();
        let mut index: usize = 0;
        proof {
            assert(chars@.take(0) =~= Seq::empty());
            reveal(Seq::filter);
            assert(letters_of(Seq::<char>::empty()) =~= Seq::empty());
        }
        while index < chars.len()
            invariant
                index <= chars@.len(),
                letters@ == letters_of(chars@.take(index as int)),
            decreases chars@.len() - index,
        {
            proof {
                reveal(Seq::filter);
                assert(chars@.take(index + 1).drop_last() =~= chars@.take(index as int));
                assert(chars@.take(index + 1).last() == chars@[index as int]);
            }
            if is_alphabetic(chars[index]) {
                letters.push(chars[index]);
            }
            index += 1;
        }
        assert(chars@.take(index as int) =~= chars@);
        Keyboard::layout_for(table, letters.as_slice())
    }
}

} // verus!
