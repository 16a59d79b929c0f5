//! The writing system a query is in, which decides the layout its edits follow and the transform
//! that carries it to Latin.

use vstd::prelude::*;

use crate::text::chars_of;

use super::tables::texts;

verus! {

/// The writing system the queries are written in.
#[derive(Clone, Copy, PartialEq, Eq, Structural, Debug)]
pub enum Script {
    Latin,
    Cyrillic,
    Greek,
    Armenian,
    Hebrew,
    Arabic,
    Han,
    Hangul,
    Kana,
}

/// The script one codepoint belongs to, or `None` for digits, punctuation and spacing.
pub open spec fn script_of(codepoint: char) -> Option<Script> {
    let code = codepoint as u32;
    if 0x0041 <= code <= 0x005A || 0x0061 <= code <= 0x007A || 0x00C0 <= code <= 0x024F {
        Some(Script::Latin)
    } else if 0x0370 <= code <= 0x03FF || 0x1F00 <= code <= 0x1FFF {
        Some(Script::Greek)
    } else if 0x0400 <= code <= 0x04FF || 0x0500 <= code <= 0x052F {
        Some(Script::Cyrillic)
    } else if 0x0530 <= code <= 0x058F {
        Some(Script::Armenian)
    } else if 0x0590 <= code <= 0x05FF {
        Some(Script::Hebrew)
    } else if 0x0600 <= code <= 0x06FF || 0x0750 <= code <= 0x077F {
        Some(Script::Arabic)
    } else if 0x3040 <= code <= 0x30FF || 0x31F0 <= code <= 0x31FF {
        Some(Script::Kana)
    } else if 0x1100 <= code <= 0x11FF || 0xAC00 <= code <= 0xD7AF || 0x3130 <= code <= 0x318F {
        Some(Script::Hangul)
    } else if 0x3400 <= code <= 0x4DBF || 0x4E00 <= code <= 0x9FFF || 0xF900 <= code <= 0xFAFF {
        Some(Script::Han)
    } else {
        None
    }
}

/// How many characters of `text` are in `script`.
pub open spec fn letters_in(text: Seq<char>, script: Script) -> nat
    decreases text.len(),
{
    if text.len() == 0 {
        0
    } else {
        letters_in(text.drop_last(), script) + if script_of(text.last()) == Some(script) {
            1nat
        } else {
            0nat
        }
    }
}

/// How many characters of all these texts are in `script`.
pub open spec fn tally(all: Seq<Seq<char>>, script: Script) -> nat
    decreases all.len(),
{
    if all.len() == 0 {
        0
    } else {
        tally(all.drop_last(), script) + letters_in(all.last(), script)
    }
}

/// Every script that spells its letters, in the order ties break.
pub open spec fn spelling_scripts() -> Seq<Script> {
    seq![
        Script::Latin,
        Script::Cyrillic,
        Script::Greek,
        Script::Armenian,
        Script::Hebrew,
        Script::Arabic,
        Script::Hangul,
    ]
}

/// The first of these scripts that no other outnumbers.
pub open spec fn leading(all: Seq<Seq<char>>, scripts: Seq<Script>) -> Script
    decreases scripts.len(),
{
    if scripts.len() <= 1 {
        scripts[0]
    } else {
        let earlier = leading(all, scripts.drop_last());
        if tally(all, scripts.last()) > tally(all, earlier) {
            scripts.last()
        } else {
            earlier
        }
    }
}

/// The script most of the queries' letters are in. Any Han at all decides, however much kana
/// surrounds it, and kana answers where no Han appears: only Han needs its sound looked up. Among
/// the others the most letters win, the earlier script on a tie, and Latin where there are none.
pub open spec fn script_of_all(all: Seq<Seq<char>>) -> Script {
    if tally(all, Script::Han) > 0 {
        Script::Han
    } else if tally(all, Script::Kana) > 0 {
        Script::Kana
    } else {
        leading(all, spelling_scripts())
    }
}

/// How many letters of each script were seen.
struct Tallies {
    latin: u64,
    cyrillic: u64,
    greek: u64,
    armenian: u64,
    hebrew: u64,
    arabic: u64,
    han: u64,
    hangul: u64,
    kana: u64,
}

impl Tallies {
    spec fn of(&self, script: Script) -> nat {
        match script {
            Script::Latin => self.latin as nat,
            Script::Cyrillic => self.cyrillic as nat,
            Script::Greek => self.greek as nat,
            Script::Armenian => self.armenian as nat,
            Script::Hebrew => self.hebrew as nat,
            Script::Arabic => self.arabic as nat,
            Script::Han => self.han as nat,
            Script::Hangul => self.hangul as nat,
            Script::Kana => self.kana as nat,
        }
    }

    spec fn bounded(&self, bound: nat) -> bool {
        forall|script: Script| #[trigger] self.of(script) <= bound
    }

    fn count(&mut self, script: Script, bound: Ghost<nat>)
        requires
            old(self).bounded(bound@),
            bound@ < u64::MAX,
        ensures
            forall|other: Script| #[trigger]
                final(self).of(other) == old(self).of(other) + if other == script {
                    1nat
                } else {
                    0nat
                },
    {
        assert(self.of(script) <= bound@);
        match script {
            Script::Latin => {
                self.latin = self.latin + 1;
            },
            Script::Cyrillic => {
                self.cyrillic = self.cyrillic + 1;
            },
            Script::Greek => {
                self.greek = self.greek + 1;
            },
            Script::Armenian => {
                self.armenian = self.armenian + 1;
            },
            Script::Hebrew => {
                self.hebrew = self.hebrew + 1;
            },
            Script::Arabic => {
                self.arabic = self.arabic + 1;
            },
            Script::Han => {
                self.han = self.han + 1;
            },
            Script::Hangul => {
                self.hangul = self.hangul + 1;
            },
            Script::Kana => {
                self.kana = self.kana + 1;
            },
        }
    }
}

/// How many characters all these texts have.
pub open spec fn characters_in(all: Seq<Seq<char>>) -> nat
    decreases all.len(),
{
    if all.len() == 0 {
        0
    } else {
        characters_in(all.drop_last()) + all.last().len()
    }
}

proof fn lemma_characters_front(all: Seq<Seq<char>>, count: int)
    requires
        0 <= count <= all.len(),
    ensures
        characters_in(all.take(count)) <= characters_in(all),
    decreases all.len() - count,
{
    if count < all.len() {
        lemma_characters_front(all, count + 1);
        assert(all.take(count + 1).drop_last() =~= all.take(count));
    } else {
        assert(all.take(count) =~= all);
    }
}

impl Script {
    /// The script one codepoint belongs to, or `None` for digits, punctuation and spacing.
    pub fn of_codepoint(codepoint: char) -> (script: Option<Script>)
        ensures
            script == script_of(codepoint),
    {
        let code: u32 = codepoint as u32;
        if (0x0041 <= code && code <= 0x005A) || (0x0061 <= code && code <= 0x007A) || (0x00C0
            <= code && code <= 0x024F) {
            Some(Script::Latin)
        } else if (0x0370 <= code && code <= 0x03FF) || (0x1F00 <= code && code <= 0x1FFF) {
            Some(Script::Greek)
        } else if (0x0400 <= code && code <= 0x04FF) || (0x0500 <= code && code <= 0x052F) {
            Some(Script::Cyrillic)
        } else if 0x0530 <= code && code <= 0x058F {
            Some(Script::Armenian)
        } else if 0x0590 <= code && code <= 0x05FF {
            Some(Script::Hebrew)
        } else if (0x0600 <= code && code <= 0x06FF) || (0x0750 <= code && code <= 0x077F) {
            Some(Script::Arabic)
        } else if (0x3040 <= code && code <= 0x30FF) || (0x31F0 <= code && code <= 0x31FF) {
            Some(Script::Kana)
        } else if (0x1100 <= code && code <= 0x11FF) || (0xAC00 <= code && code <= 0xD7AF) || (
        0x3130 <= code && code <= 0x318F) {
            Some(Script::Hangul)
        } else if (0x3400 <= code && code <= 0x4DBF) || (0x4E00 <= code && code <= 0x9FFF) || (
        0xF900 <= code && code <= 0xFAFF) {
            Some(Script::Han)
        } else {
            None
        }
    }

    /// The script most of the queries' letters are in, in one pass over them.
    pub fn of(patterns: &[String]) -> (script: Script)
        requires
            characters_in(texts(patterns@)) < u64::MAX,
        ensures
            script == script_of_all(texts(patterns@)),
    {
        let ghost all = texts(patterns@);
        let mut tallies = Tallies {
            latin: 0,
            cyrillic: 0,
            greek: 0,
            armenian: 0,
            hebrew: 0,
            arabic: 0,
            han: 0,
            hangul: 0,
            kana: 0,
        };
        let mut index: usize = 0;
        assert(all.take(0) =~= Seq::empty());
        while index < patterns.len()
            invariant
                index <= patterns@.len(),
                all == texts(patterns@),
                characters_in(all) < u64::MAX,
                tallies.bounded(characters_in(all.take(index as int))),
                forall|script: Script| #[trigger]
                    tallies.of(script) == tally(all.take(index as int), script),
            decreases patterns@.len() - index,
        {
            let chars: Vec<char> = chars_of(patterns[index].as_str());
            let ghost before = all.take(index as int);
            let ghost now = all.take(index + 1);
            proof {
                assert(now.drop_last() =~= before);
                assert(now.last() == patterns@[index as int]@);
                lemma_characters_front(all, index + 1);
            }
            let mut at: usize = 0;
            assert(chars@.take(0) =~= Seq::empty());
            while at < chars.len()
                invariant
                    at <= chars@.len(),
                    characters_in(before) + chars@.len() < u64::MAX,
                    tallies.bounded(characters_in(before) + at as nat),
                    forall|script: Script| #[trigger]
                        tallies.of(script) == tally(before, script) + letters_in(
                            chars@.take(at as int),
                            script,
                        ),
                decreases chars@.len() - at,
            {
                let ghost seen = chars@.take(at as int);
                proof {
                    assert(chars@.take(at + 1).drop_last() =~= seen);
                    assert(chars@.take(at + 1).last() == chars@[at as int]);
                }
                if let Some(script) = Script::of_codepoint(chars[at]) {
                    tallies.count(script, Ghost(characters_in(before) + at as nat));
                }
                at += 1;
            }
            assert(chars@.take(at as int) =~= chars@);
            index += 1;
        }
        assert(all.take(index as int) =~= all);
        if tallies.han > 0 {
            assert(tallies.of(Script::Han) == tally(all, Script::Han));
            return Script::Han;
        }
        assert(tallies.of(Script::Han) == tally(all, Script::Han));
        assert(tallies.of(Script::Kana) == tally(all, Script::Kana));
        if tallies.kana > 0 {
            return Script::Kana;
        }
        let mut best = Script::Latin;
        let mut most: u64 = tallies.latin;
        if tallies.cyrillic > most {
            best = Script::Cyrillic;
            most = tallies.cyrillic;
        }
        if tallies.greek > most {
            best = Script::Greek;
            most = tallies.greek;
        }
        if tallies.armenian > most {
            best = Script::Armenian;
            most = tallies.armenian;
        }
        if tallies.hebrew > most {
            best = Script::Hebrew;
            most = tallies.hebrew;
        }
        if tallies.arabic > most {
            best = Script::Arabic;
            most = tallies.arabic;
        }
        if tallies.hangul > most {
            best = Script::Hangul;
        }
        proof {
            lemma_leading(all);
            assert(tallies.of(Script::Latin) == tally(all, Script::Latin));
            assert(tallies.of(Script::Cyrillic) == tally(all, Script::Cyrillic));
            assert(tallies.of(Script::Greek) == tally(all, Script::Greek));
            assert(tallies.of(Script::Armenian) == tally(all, Script::Armenian));
            assert(tallies.of(Script::Hebrew) == tally(all, Script::Hebrew));
            assert(tallies.of(Script::Arabic) == tally(all, Script::Arabic));
            assert(tallies.of(Script::Hangul) == tally(all, Script::Hangul));
        }
        best
    }

    /// The layout whose keys carry this script.
    pub open spec fn typed_on(self) -> Seq<char> {
        match self {
            Script::Latin | Script::Han | Script::Hangul => "us"@,
            Script::Cyrillic => "ru"@,
            Script::Greek => "gr"@,
            Script::Armenian => "am"@,
            Script::Hebrew => "il"@,
            Script::Arabic => "ara"@,
            Script::Kana => "jp"@,
        }
    }

    /// The layout whose keys carry this script. Han and Hangul are typed through an input method
    /// rather than off a layout, so their edits are drawn from the Latin keys their romanization is
    /// typed on.
    pub fn layout(self) -> (layout: &'static str)
        ensures
            layout@ == self.typed_on(),
    {
        match self {
            Script::Latin | Script::Han | Script::Hangul => "us",
            Script::Cyrillic => "ru",
            Script::Greek => "gr",
            Script::Armenian => "am",
            Script::Hebrew => "il",
            Script::Arabic => "ara",
            Script::Kana => "jp",
        }
    }

    /// The transform that carries this script to Latin, where it is not Latin and one is known.
    pub open spec fn carried_by(self) -> Option<Seq<char>> {
        match self {
            Script::Cyrillic => Some("Cyrillic-Latin"@),
            Script::Greek => Some("Greek-Latin"@),
            Script::Han => Some("Han-Latin"@),
            _ => None,
        }
    }

    /// The transform that carries this script to Latin, where it is not Latin and one is known.
    pub fn transliteration(self) -> (transform: Option<&'static str>)
        ensures
            match transform {
                Some(transform) => self.carried_by() == Some(transform@),
                None => self.carried_by() is None,
            },
    {
        match self {
            Script::Cyrillic => Some("Cyrillic-Latin"),
            Script::Greek => Some("Greek-Latin"),
            Script::Han => Some("Han-Latin"),
            Script::Latin
            | Script::Armenian
            | Script::Hebrew
            | Script::Arabic
            | Script::Hangul
            | Script::Kana => None,
        }
    }

    /// Every script, in the order ties break.
    pub fn all() -> (scripts: [Script; 9])
        ensures
            scripts@ == seq![
                Script::Latin,
                Script::Cyrillic,
                Script::Greek,
                Script::Armenian,
                Script::Hebrew,
                Script::Arabic,
                Script::Han,
                Script::Hangul,
                Script::Kana,
            ],
    {
        [
            Script::Latin,
            Script::Cyrillic,
            Script::Greek,
            Script::Armenian,
            Script::Hebrew,
            Script::Arabic,
            Script::Han,
            Script::Hangul,
            Script::Kana,
        ]
    }
}

proof fn lemma_leading(all: Seq<Seq<char>>)
    ensures
        ({
            let pick = |one: Script, two: Script|
                if tally(all, two) > tally(all, one) {
                    two
                } else {
                    one
                };
            leading(all, spelling_scripts()) == pick(
                pick(
                    pick(
                        pick(
                            pick(pick(Script::Latin, Script::Cyrillic), Script::Greek),
                            Script::Armenian,
                        ),
                        Script::Hebrew,
                    ),
                    Script::Arabic,
                ),
                Script::Hangul,
            )
        }),
{
    let seven = spelling_scripts();
    let six = seven.drop_last();
    let five = six.drop_last();
    let four = five.drop_last();
    let three = four.drop_last();
    let two = three.drop_last();
    assert(seven.last() == Script::Hangul);
    assert(six.last() == Script::Arabic);
    assert(five.last() == Script::Hebrew);
    assert(four.last() == Script::Armenian);
    assert(three.last() == Script::Greek);
    assert(two.last() == Script::Cyrillic);
    assert(two.drop_last()[0] == Script::Latin);
    reveal_with_fuel(leading, 8);
}

} // verus!
