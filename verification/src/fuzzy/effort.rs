//! How hard a search tries: an ordered ladder of settings.

use vstd::prelude::*;

use super::script::Script;

verus! {

/// How hard the search tries, as an ordered ladder where each rung matches everything the rung below
/// it matched. It fills in what the distance, the cost, the dictionary and the folds would otherwise
/// each have to be given separately.
#[derive(Clone, Copy, PartialEq, Eq, Structural, Debug)]
pub enum Effort {
    /// The query itself, and nothing else.
    Exact,
    /// One fat-finger edit, drawn from physically adjacent keys.
    Typos,
    /// One edit from the whole layout, plus the recorded misspellings.
    Spelling,
    /// Also matches through diacritics and compatibility forms.
    Accents,
    /// Also matches letters that sound alike: `Gaddafi` reaches `Qaddafi`.
    Sounds,
    /// Also carries a non-Latin query onto Latin, so a Han needle reaches a Han corpus.
    Scripts,
    /// Two edits from the whole layout, on top of every fold above.
    Deep,
}

impl Default for Effort {
    fn default() -> (effort: Self)
        ensures
            effort == Effort::Typos,
    {
        Effort::Typos
    }
}

/// Where an edit's replacement characters come from.
#[derive(Clone, Copy, PartialEq, Eq, Structural, Debug)]
pub enum Alphabet {
    /// Every character the layout carries, which is plain edit distance.
    Script,
    /// Only the keys adjacent to the one being replaced, for fat-finger typos.
    Keyboard,
}

/// Whether the misspelling table contributes variants.
#[derive(Clone, Copy, PartialEq, Eq, Structural, Debug)]
pub enum Dictionary {
    /// The recorded misspellings contribute nothing.
    Ignored,
    /// A recorded misspelling of the query becomes a variant of it.
    Known,
}

/// What a rung asks a fold to achieve, before the query's script says which transform delivers it.
/// Each level is a superset of the one above.
#[derive(Clone, Copy, PartialEq, Eq, Structural, Debug)]
pub enum Folding {
    /// Corpus and query are matched in the bytes the user typed.
    Untouched,
    /// Diacritics and compatibility forms collapse onto their base letters.
    Accents,
    /// Letters that sound alike collapse onto one spelling.
    Sounds,
    /// A non-Latin query is carried onto Latin before either of the above.
    Scripts,
}

impl Default for Folding {
    fn default() -> (folding: Self)
        ensures
            folding == Folding::Untouched,
    {
        Folding::Untouched
    }
}

impl Effort {
    /// How many rungs are below this one.
    pub open spec fn rung(self) -> int {
        match self {
            Effort::Exact => 0,
            Effort::Typos => 1,
            Effort::Spelling => 2,
            Effort::Accents => 3,
            Effort::Sounds => 4,
            Effort::Scripts => 5,
            Effort::Deep => 6,
        }
    }

    /// The edits a rung allows.
    pub open spec fn distance(self) -> nat {
        match self {
            Effort::Exact => 0,
            Effort::Deep => 2,
            _ => 1,
        }
    }

    /// Where a rung draws its edits from.
    pub open spec fn draws(self) -> Alphabet {
        if self == Effort::Typos {
            Alphabet::Keyboard
        } else {
            Alphabet::Script
        }
    }

    /// What a rung takes from the misspelling table.
    pub open spec fn consults(self) -> Dictionary {
        if self.rung() < Effort::Spelling.rung() {
            Dictionary::Ignored
        } else {
            Dictionary::Known
        }
    }

    /// What a rung folds.
    pub open spec fn folds(self) -> Folding {
        match self {
            Effort::Exact | Effort::Typos | Effort::Spelling => Folding::Untouched,
            Effort::Accents => Folding::Accents,
            Effort::Sounds => Folding::Sounds,
            Effort::Scripts | Effort::Deep => Folding::Scripts,
        }
    }

    pub fn max_distance(self) -> (distance: usize)
        ensures
            distance == self.distance(),
    {
        match self {
            Effort::Exact => 0,
            Effort::Deep => 2,
            _ => 1,
        }
    }

    /// Only `Typos` narrows to adjacent keys; every other rung draws from the whole layout, which
    /// is what makes each rung a superset of the one below it.
    pub fn alphabet(self) -> (alphabet: Alphabet)
        ensures
            alphabet == self.draws(),
    {
        match self {
            Effort::Typos => Alphabet::Keyboard,
            _ => Alphabet::Script,
        }
    }

    pub fn dictionary(self) -> (dictionary: Dictionary)
        ensures
            dictionary == self.consults(),
    {
        match self {
            Effort::Exact | Effort::Typos => Dictionary::Ignored,
            _ => Dictionary::Known,
        }
    }

    pub fn folding(self) -> (folding: Folding)
        ensures
            folding == self.folds(),
    {
        match self {
            Effort::Exact | Effort::Typos | Effort::Spelling => Folding::Untouched,
            Effort::Accents => Folding::Accents,
            Effort::Sounds => Folding::Sounds,
            Effort::Scripts | Effort::Deep => Folding::Scripts,
        }
    }
}

impl Folding {
    /// How many levels are below this one.
    pub open spec fn level(self) -> int {
        match self {
            Folding::Untouched => 0,
            Folding::Accents => 1,
            Folding::Sounds => 2,
            Folding::Scripts => 3,
        }
    }

    /// The transforms this level applies, in the order they feed each other.
    pub open spec fn chain(self, script: Script) -> Seq<Seq<char>> {
        (match (self, script.carried_by()) {
            (Folding::Scripts, Some(transform)) => seq![transform],
            _ => Seq::empty(),
        }) + (if self.level() >= Folding::Accents.level() {
            seq!["Latin-ASCII"@]
        } else {
            Seq::empty()
        }) + (if self.level() >= Folding::Sounds.level() {
            seq!["Latin-Phonetic"@]
        } else {
            Seq::empty()
        })
    }

    /// The transforms this level applies, in the order they feed each other. Transliteration leads:
    /// the phonetic transform has nothing to act on until the script transform has produced a Latin
    /// syllable for it.
    pub fn transforms(self, script: Script) -> (names: Vec<&'static str>)
        ensures
            spelled(names@) == self.chain(script),
            self == Folding::Untouched ==> spelled(names@) == Seq::<Seq<char>>::empty(),
            self == Folding::Accents ==> spelled(names@) == seq!["Latin-ASCII"@],
            self == Folding::Sounds ==> spelled(names@) == seq!["Latin-ASCII"@, "Latin-Phonetic"@],
            self == Folding::Scripts ==> spelled(names@) == match script {
                Script::Cyrillic => seq!["Cyrillic-Latin"@, "Latin-ASCII"@, "Latin-Phonetic"@],
                Script::Greek => seq!["Greek-Latin"@, "Latin-ASCII"@, "Latin-Phonetic"@],
                Script::Han => seq!["Han-Latin"@, "Latin-ASCII"@, "Latin-Phonetic"@],
                _ => seq!["Latin-ASCII"@, "Latin-Phonetic"@],
            },
    {
        let mut names: Vec<&'static str> = Vec::new();
        if self == Folding::Scripts {
            if let Some(transform) = script.transliteration() {
                names.push(transform);
            }
        }
        let accents = match self {
            Folding::Untouched => false,
            Folding::Accents | Folding::Sounds | Folding::Scripts => true,
        };
        if accents {
            names.push("Latin-ASCII");
        }
        let sounds = match self {
            Folding::Untouched | Folding::Accents => false,
            Folding::Sounds | Folding::Scripts => true,
        };
        if sounds {
            names.push("Latin-Phonetic");
        }
        assert(spelled(names@) =~= self.chain(script));
        proof {
            each_level_applies_its_transforms(script);
        }
        names
    }
}

/// What these names spell.
pub open spec fn spelled(names: Seq<&'static str>) -> Seq<Seq<char>> {
    names.map_values(|name: &'static str| name@)
}

/// Climbing the ladder never takes a setting back: the higher of two rungs allows as many edits, consults
/// the misspellings where the lower one does, and folds as far.
pub proof fn a_higher_rung_takes_nothing_back(lower: Effort, higher: Effort)
    requires
        lower.rung() <= higher.rung(),
    ensures
        lower.distance() <= higher.distance(),
        lower.consults() == Dictionary::Known ==> higher.consults() == Dictionary::Known,
        lower.folds().level() <= higher.folds().level(),
        // Only the fat-finger rung narrows its alphabet, and nothing below it draws from one.
        higher.draws() == Alphabet::Keyboard ==> lower == higher || lower.distance() == 0,
{
}

/// A higher level applies every transform that a lower one does.
pub proof fn a_higher_level_folds_as_much(lower: Folding, higher: Folding, script: Script)
    requires
        lower.level() <= higher.level(),
    ensures
        forall|i: int|
            0 <= i < lower.chain(script).len() ==> higher.chain(script).contains(
                #[trigger] lower.chain(script)[i],
            ),
{
    let few = lower.chain(script);
    let many = higher.chain(script);
    assert forall|i: int| 0 <= i < few.len() implies many.contains(#[trigger] few[i]) by {
        let lead: int = if higher == Folding::Scripts && script.carried_by() is Some {
            1
        } else {
            0
        };
        let own: int = if lower == Folding::Scripts && script.carried_by() is Some {
            1
        } else {
            0
        };
        assert(many[lead + (i - own)] == few[i]);
    }
}

/// The rungs below the accents fold nothing, whatever the query's script.
pub proof fn nothing_is_folded_below_the_accents(effort: Effort, script: Script)
    requires
        effort.rung() < Effort::Accents.rung(),
    ensures
        effort.folds().chain(script) == Seq::<Seq<char>>::empty(),
{
    assert(effort.folds().chain(script) =~= Seq::empty());
}

/// What each level applies. The accents fold diacritics alone; the sounds fold them first and then the
/// letters that sound alike; and the scripts carry a Cyrillic, Greek or Han query to Latin in front
/// of both, and a query in any other script as the sounds do.
pub proof fn each_level_applies_its_transforms(script: Script)
    ensures
        Folding::Untouched.chain(script) == Seq::<Seq<char>>::empty(),
        Folding::Accents.chain(script) == seq!["Latin-ASCII"@],
        Folding::Sounds.chain(script) == seq!["Latin-ASCII"@, "Latin-Phonetic"@],
        Folding::Scripts.chain(script) == match script {
            Script::Cyrillic => seq!["Cyrillic-Latin"@, "Latin-ASCII"@, "Latin-Phonetic"@],
            Script::Greek => seq!["Greek-Latin"@, "Latin-ASCII"@, "Latin-Phonetic"@],
            Script::Han => seq!["Han-Latin"@, "Latin-ASCII"@, "Latin-Phonetic"@],
            _ => seq!["Latin-ASCII"@, "Latin-Phonetic"@],
        },
{
    assert(Folding::Untouched.chain(script) =~= Seq::<Seq<char>>::empty());
    assert(Folding::Accents.chain(script) =~= seq!["Latin-ASCII"@]);
    assert(Folding::Sounds.chain(script) =~= seq!["Latin-ASCII"@, "Latin-Phonetic"@]);
    let both = seq!["Latin-ASCII"@, "Latin-Phonetic"@];
    match script {
        Script::Cyrillic => {
            assert(Folding::Scripts.chain(script) =~= seq!["Cyrillic-Latin"@] + both);
        },
        Script::Greek => {
            assert(Folding::Scripts.chain(script) =~= seq!["Greek-Latin"@] + both);
        },
        Script::Han => {
            assert(Folding::Scripts.chain(script) =~= seq!["Han-Latin"@] + both);
        },
        _ => {
            assert(Folding::Scripts.chain(script) =~= both);
        },
    }
}

/// What each rung reaches: no edit, one edit of a neighbouring key, one edit of any key with the
/// recorded misspellings, and from there on the folds on top, the last rung with a second edit.
pub proof fn each_rung_reaches_what_it_promises(script: Script)
    ensures
        Effort::Exact.distance() == 0,
        Effort::Exact.consults() == Dictionary::Ignored,
        Effort::Typos.distance() == 1,
        Effort::Typos.draws() == Alphabet::Keyboard,
        Effort::Typos.consults() == Dictionary::Ignored,
        forall|effort: Effort| #[trigger]
            effort.distance() == 1 && effort != Effort::Typos ==> effort.draws()
                == Alphabet::Script && effort.consults() == Dictionary::Known,
        Effort::Spelling.distance() == 1,
        Effort::Accents.distance() == 1,
        Effort::Sounds.distance() == 1,
        Effort::Scripts.distance() == 1,
        Effort::Deep.distance() == 2,
        Effort::Deep.draws() == Alphabet::Script,
        Effort::Deep.consults() == Dictionary::Known,
        Effort::Exact.folds().chain(script) == Seq::<Seq<char>>::empty(),
        Effort::Typos.folds().chain(script) == Seq::<Seq<char>>::empty(),
        Effort::Spelling.folds().chain(script) == Seq::<Seq<char>>::empty(),
        Effort::Accents.folds().chain(script) == seq!["Latin-ASCII"@],
        Effort::Sounds.folds().chain(script) == seq!["Latin-ASCII"@, "Latin-Phonetic"@],
        Effort::Scripts.folds().chain(script) == match script.carried_by() {
            Some(transform) => seq![transform, "Latin-ASCII"@, "Latin-Phonetic"@],
            None => seq!["Latin-ASCII"@, "Latin-Phonetic"@],
        },
        Effort::Deep.folds().chain(script) == Effort::Scripts.folds().chain(script),
{
    each_level_applies_its_transforms(script);
}

} // verus!
