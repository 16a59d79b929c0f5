//! What the queries expand to: every string within reach of them, each once, in order, with the
//! best explanation there is for it.

use vstd::prelude::*;

use crate::sorting::{lemma_same_contents, ordered, sort_backward, Ranked};
use crate::text::chars_of;

use super::edits::{
    adjacent_edits_are_edits, better, edits_of, is_better, is_edit, lemma_better_chain,
    lemma_better_total, makes, Derivation, Edit,
};
use super::effort::{a_higher_rung_takes_nothing_back, Alphabet, Dictionary, Effort};
use super::keyboards::{neighbours_of, Keyboard};
use super::misspellings::{
    comes_before, in_order, lemma_precedes_chain, lemma_precedes_total, precedes, recorded,
    variants_of,
};
use super::tables::{rows, same_chars, text_of, texts};

verus! {

/// One way a string is reached: from some query, by this derivation, with this many edits.
pub ghost struct Route {
    pub text: Seq<char>,
    pub derivation: Derivation,
    pub distance: nat,
}

impl Route {
    /// Whether this is the better explanation of the two.
    pub open spec fn beats(self, other: Route) -> bool {
        better(self.derivation, self.distance, other.derivation, other.distance)
    }
}

/// A string that was reached, and how.
pub struct Variant {
    pub text: Vec<char>,
    pub derivation: Derivation,
    pub distance: usize,
}

impl View for Variant {
    type V = Route;

    open spec fn view(&self) -> Route {
        Route {
            text: self.text@,
            derivation: self.derivation,
            distance: self.distance as nat,
        }
    }
}

impl Ranked for Variant {
    open spec fn first(self, other: Self) -> bool {
        precedes(self@.text, other@.text) || self@.text == other@.text && self@.beats(other@)
    }

    fn goes_first(&self, other: &Self) -> (yes: bool) {
        if comes_before(self.text.as_slice(), other.text.as_slice()) {
            return true;
        }
        same_chars(self.text.as_slice(), other.text.as_slice()) && is_better(
            self.derivation,
            self.distance,
            other.derivation,
            other.distance,
        )
    }

    proof fn lemma_not_both(one: Self, two: Self) {
        lemma_precedes_total(one@.text, two@.text);
        lemma_better_total(
            one@.derivation,
            one@.distance,
            two@.derivation,
            two@.distance,
        );
    }

    proof fn lemma_chain(one: Self, two: Self, three: Self) {
        lemma_precedes_total(one@.text, two@.text);
        lemma_precedes_total(two@.text, three@.text);
        lemma_precedes_total(one@.text, three@.text);
        if precedes(one@.text, two@.text) && precedes(two@.text, three@.text) {
            lemma_precedes_chain(one@.text, two@.text, three@.text);
        }
        if one@.text == two@.text && two@.text == three@.text {
            lemma_better_chain(
                one@.derivation,
                one@.distance,
                two@.derivation,
                two@.distance,
                three@.derivation,
                three@.distance,
            );
        }
    }
}

/// The strings of these variants.
pub open spec fn strings(all: Seq<Variant>) -> Seq<Seq<char>> {
    all.map_values(|variant: Variant| variant@.text)
}

/// Whether one of these variants explains the string of `route` at least as well.
pub open spec fn explained(all: Seq<Variant>, route: Route) -> bool {
    exists|i: int|
        0 <= i < all.len() && (#[trigger] all[i])@.text == route.text && !route.beats(all[i]@)
}

/// Whether all of these are among the others.
#[verifier::opaque]
spec fn drawn_from(some: Seq<Variant>, all: Seq<Variant>) -> bool {
    forall|i: int| 0 <= i < some.len() ==> all.contains(#[trigger] some[i])
}

/// Whether each of `all` is explained by what was kept, unless it is still to come.
#[verifier::opaque]
spec fn explains(kept: Seq<Variant>, rest: Seq<Variant>, all: Seq<Variant>) -> bool {
    forall|i: int|
        0 <= i < all.len() ==> rest.contains(#[trigger] all[i]) || explained(kept, all[i]@)
}

/// Whether nothing that is still to come goes before what was kept last.
spec fn keeps_order(kept: Seq<Variant>, rest: Seq<Variant>) -> bool {
    kept.len() > 0 ==> forall|j: int|
        0 <= j < rest.len() ==> !(#[trigger] rest[j]).first(kept.last())
}

/// Taking the next variant: it is kept, or the one kept last explains it.
proof fn lemma_explains_next(
    given: Seq<Variant>,
    before: Seq<Variant>,
    had: Seq<Variant>,
    kept: Seq<Variant>,
)
    requires
        before.len() > 0,
        explains(had, before, given),
        kept == had || kept == had.push(before.last()),
        explained(kept, before.last()@),
    ensures
        explains(kept, before.drop_last(), given),
{
    reveal(explains);
    let rest = before.drop_last();
    assert forall|i: int| 0 <= i < given.len() implies rest.contains(#[trigger] given[i])
        || explained(kept, given[i]@) by {
        if explained(had, given[i]@) {
            let j = choose|j: int|
                0 <= j < had.len() && (#[trigger] had[j])@.text == given[i]@.text
                    && !given[i]@.beats(had[j]@);
            assert(kept[j] == had[j]);
        } else {
            let j = choose|j: int| 0 <= j < before.len() && before[j] == given[i];
            if j < before.len() - 1 {
                assert(rest[j] == given[i]);
            }
        }
    }
}

/// Keeping a string that differs from the one kept last keeps the strings in order.
proof fn lemma_order_next(had: Seq<Variant>, next: Variant)
    requires
        in_order(strings(had)),
        had.len() > 0 ==> !next.first(had.last()) && had.last()@.text != next@.text,
    ensures
        in_order(strings(had.push(next))),
{
    let old_texts = strings(had);
    let now = strings(had.push(next));
    assert(now =~= old_texts.push(next@.text));
    if had.len() > 0 {
        lemma_precedes_total(had.last()@.text, next@.text);
        assert(old_texts[had.len() - 1] == had.last()@.text);
    }
    assert forall|i: int, j: int|
        #![trigger now[i], now[j]]
        0 <= i < j < now.len() implies precedes(now[i], now[j]) by {
        if j < had.len() {
            assert(now[i] == old_texts[i] && now[j] == old_texts[j]);
        } else if i < had.len() - 1 {
            assert(now[i] == old_texts[i]);
            assert(precedes(old_texts[i], old_texts[had.len() - 1]));
            lemma_precedes_chain(now[i], had.last()@.text, next@.text);
        }
    }
}

/// Keep the best explanation of each string, the strings in order.
fn tidy(all: Vec<Variant>) -> (kept: Vec<Variant>)
    ensures
        in_order(strings(kept@)),
        drawn_from(kept@, all@),
        explains(kept@, Seq::empty(), all@),
{
    let ghost given = all@;
    let mut rest: Vec<Variant> = sort_backward(all);
    proof {
        reveal(drawn_from);
        reveal(explains);
        lemma_same_contents(given, rest@);
        assert forall|i: int| 0 <= i < given.len() implies rest@.contains(#[trigger] given[i]) by {
            assert(given.contains(given[i]));
        }
        assert forall|i: int| 0 <= i < rest@.len() implies given.contains(#[trigger] rest@[i]) by {
            assert(rest@.contains(rest@[i]));
        }
    }
    let mut kept: Vec<Variant> = Vec::new();
    assert(strings(kept@) =~= Seq::empty());
    assert(drawn_from(kept@, given)) by {
        reveal(drawn_from);
    }
    assert(explains(kept@, rest@, given)) by {
        reveal(explains);
    }
    while rest.len() > 0
        invariant
            ordered(rest@, false),
            in_order(strings(kept@)),
            drawn_from(kept@, given),
            drawn_from(rest@, given),
            explains(kept@, rest@, given),
            keeps_order(kept@, rest@),
        decreases rest@.len(),
    {
        let ghost before = rest@;
        let ghost had = kept@;
        let ghost next = before.last();
        let taken = rest.pop();
        if let Some(variant) = taken {
            let repeats = kept.len() > 0 && same_chars(
                kept[kept.len() - 1].text.as_slice(),
                variant.text.as_slice(),
            );
            proof {
                assert(variant == next);
                assert(before[before.len() - 1] == next);
                assert(rest@ =~= before.drop_last());
                assert(drawn_from(rest@, given)) by {
                    reveal(drawn_from);
                    assert forall|i: int| 0 <= i < rest@.len() implies given.contains(
                        #[trigger] rest@[i],
                    ) by {
                        assert(rest@[i] == before[i]);
                    }
                }
                lemma_better_total(
                    next@.derivation,
                    next@.distance,
                    next@.derivation,
                    next@.distance,
                );
                if !repeats {
                    lemma_order_next(had, next);
                }
            }
            if !repeats {
                kept.push(variant);
            }
            proof {
                if repeats {
                    assert(had[had.len() - 1]@.text == next@.text);
                    assert(explained(kept@, next@));
                } else {
                    assert(kept@[had.len() as int]@ == next@);
                    assert(explained(kept@, next@));
                    assert(drawn_from(kept@, given)) by {
                        reveal(drawn_from);
                        assert(given.contains(before[before.len() - 1]));
                    }
                }
                lemma_explains_next(given, before, had, kept@);
                assert forall|j: int| 0 <= j < rest@.len() implies !(#[trigger] rest@[j]).first(
                    kept@.last(),
                ) by {
                    assert(rest@[j] == before[j]);
                }
            }
        }
    }
    assert(rest@ =~= Seq::empty());
    kept
}

/// Whether one of these variants is this string, the strings being in order.
fn holds_text(all: &[Variant], text: &[char]) -> (found: bool)
    requires
        in_order(strings(all@)),
    ensures
        found == strings(all@).contains(text@),
{
    let ghost ordered_texts = strings(all@);
    let mut low: usize = 0;
    let mut high: usize = all.len();
    while low < high
        invariant
            low <= high <= all@.len(),
            ordered_texts == strings(all@),
            in_order(ordered_texts),
            forall|i: int| 0 <= i < low ==> precedes(#[trigger] ordered_texts[i], text@),
            forall|i: int|
                high <= i < all@.len() ==> !precedes(#[trigger] ordered_texts[i], text@)
                    && ordered_texts[i] != text@,
        decreases high - low,
    {
        let middle: usize = low + (high - low) / 2;
        let held: &[char] = all[middle].text.as_slice();
        assert(ordered_texts[middle as int] == held@);
        if same_chars(held, text) {
            return true;
        }
        if comes_before(held, text) {
            proof {
                assert forall|i: int| 0 <= i < middle + 1 implies precedes(
                    #[trigger] ordered_texts[i],
                    text@,
                ) by {
                    if i < middle {
                        lemma_precedes_chain(ordered_texts[i], held@, text@);
                    }
                }
            }
            low = middle + 1;
        } else {
            proof {
                lemma_precedes_total(held@, text@);
                assert forall|i: int| middle <= i < all@.len() implies !precedes(
                    #[trigger] ordered_texts[i],
                    text@,
                ) && ordered_texts[i] != text@ by {
                    if i > middle {
                        lemma_precedes_chain(text@, held@, ordered_texts[i]);
                        lemma_precedes_total(text@, ordered_texts[i]);
                    }
                }
            }
            high = middle;
        }
    }
    proof {
        assert forall|i: int| 0 <= i < ordered_texts.len() implies ordered_texts[i] != text@ by {
            lemma_precedes_total(text@, text@);
            if i < low {
                assert(precedes(ordered_texts[i], text@));
            }
        }
    }
    false
}

/// Where edits draw from.
pub ghost struct Reach {
    pub alphabet: Alphabet,
    pub keys: Map<char, Seq<char>>,
}

/// Whether one edit turns `source` into `variant`.
pub open spec fn one_edit(
    reach: Reach,
    source: Seq<char>,
    variant: Seq<char>,
    derivation: Derivation,
) -> bool {
    is_edit(reach.alphabet, reach.keys, source, variant, derivation)
}

/// Whether `text` is exactly `distance` edits away from `pattern`, and not nothing.
pub open spec fn at_distance(
    reach: Reach,
    pattern: Seq<char>,
    distance: nat,
    text: Seq<char>,
) -> bool
    decreases distance, 0nat,
{
    if distance == 0 {
        text == pattern
    } else {
        &&& text.len() > 0
        &&& !within(reach, pattern, (distance - 1) as nat, text)
        &&& exists|source: Seq<char>, derivation: Derivation|
            at_distance(reach, pattern, (distance - 1) as nat, source) && #[trigger] one_edit(
                reach,
                source,
                text,
                derivation,
            )
    }
}

/// Whether `text` is at most `distance` edits away from `pattern`.
pub open spec fn within(reach: Reach, pattern: Seq<char>, distance: nat, text: Seq<char>) -> bool
    decreases distance, 1nat,
{
    if distance == 0 {
        text == pattern
    } else {
        within(reach, pattern, (distance - 1) as nat, text) || at_distance(
            reach,
            pattern,
            distance,
            text,
        )
    }
}

/// Whether this is a way that edits of `pattern` go.
pub open spec fn edited(reach: Reach, pattern: Seq<char>, route: Route) -> bool {
    if route.distance == 0 {
        route.derivation == Derivation::Exact && route.text == pattern
    } else {
        &&& route.text.len() > 0
        &&& !within(reach, pattern, (route.distance - 1) as nat, route.text)
        &&& exists|source: Seq<char>|
            at_distance(reach, pattern, (route.distance - 1) as nat, source)
                && #[trigger] one_edit(reach, source, route.text, route.derivation)
    }
}

/// What is searched with: how far, drawing from where, and with which recorded misspellings.
pub ghost struct Query {
    pub reach: Reach,
    pub max_distance: nat,
    pub misspellings: Option<Seq<Seq<char>>>,
}

/// Whether this is a way from `pattern`: one of its recorded misspellings, or an edit of it.
pub open spec fn from_pattern(query: Query, pattern: Seq<char>, route: Route) -> bool {
    ||| (query.misspellings matches Some(all) && route.derivation == Derivation::Recorded
        && route.distance == 0 && route.text.len() > 0 && recorded(all, pattern, route.text))
    ||| (pattern.len() > 0 && route.distance <= query.max_distance && edited(
        query.reach,
        pattern,
        route,
    ))
}

/// Whether this is a way from one of the patterns.
pub open spec fn reachable(query: Query, patterns: Seq<Seq<char>>, route: Route) -> bool {
    exists|i: int| 0 <= i < patterns.len() && from_pattern(query, #[trigger] patterns[i], route)
}

/// Whether these variants are what can be reached: nothing else, and each string as well explained
/// as any way to it.
spec fn settles(all: Seq<Variant>, routes: spec_fn(Route) -> bool) -> bool {
    &&& forall|i: int| 0 <= i < all.len() ==> routes((#[trigger] all[i])@)
    &&& forall|route: Route| #[trigger] routes(route) ==> explained(all, route)
}

proof fn lemma_tidied(all: Seq<Variant>, kept: Seq<Variant>, routes: spec_fn(Route) -> bool)
    requires
        settles(all, routes),
        drawn_from(kept, all),
        explains(kept, Seq::empty(), all),
    ensures
        settles(kept, routes),
{
    assert forall|i: int| 0 <= i < kept.len() implies routes((#[trigger] kept[i])@) by {
        reveal(drawn_from);
        let j = choose|j: int| 0 <= j < all.len() && all[j] == kept[i];
        assert(routes(all[j]@));
    }
    assert forall|route: Route| #[trigger] routes(route) implies explained(kept, route) by {
        assert(explained(all, route));
        let i = choose|i: int|
            0 <= i < all.len() && (#[trigger] all[i])@.text == route.text && !route.beats(all[i]@);
        assert(explained(kept, all[i]@)) by {
            reveal(explains);
            assert(!Seq::<Variant>::empty().contains(all[i]));
        }
        let j = choose|j: int|
            0 <= j < kept.len() && (#[trigger] kept[j])@.text == all[i]@.text && !all[i]@.beats(
                kept[j]@,
            );
        lemma_better_chain(
            kept[j]@.derivation,
            kept[j]@.distance,
            all[i]@.derivation,
            all[i]@.distance,
            route.derivation,
            route.distance,
        );
        assert(kept[j]@.text == route.text);
    }
}

proof fn lemma_joined(
    one: Seq<Variant>,
    two: Seq<Variant>,
    first: spec_fn(Route) -> bool,
    second: spec_fn(Route) -> bool,
    both: spec_fn(Route) -> bool,
)
    requires
        settles(one, first),
        settles(two, second),
        forall|route: Route| #[trigger] both(route) <==> first(route) || second(route),
    ensures
        settles(one + two, both),
{
    let all = one + two;
    assert forall|i: int| 0 <= i < all.len() implies both((#[trigger] all[i])@) by {
        if i < one.len() {
            assert(all[i] == one[i]);
        } else {
            assert(all[i] == two[i - one.len()]);
        }
    }
    assert forall|route: Route| #[trigger] both(route) implies explained(all, route) by {
        if first(route) {
            assert(explained(one, route));
            let i = choose|i: int|
                0 <= i < one.len() && (#[trigger] one[i])@.text == route.text && !route.beats(
                    one[i]@,
                );
            assert(all[i] == one[i]);
        } else {
            assert(explained(two, route));
            let i = choose|i: int|
                0 <= i < two.len() && (#[trigger] two[i])@.text == route.text && !route.beats(
                    two[i]@,
                );
            assert(all[one.len() + i] == two[i]);
        }
    }
}

/// The ways to a string that an edit of a string at `distance` goes.
spec fn step(reach: Reach, pattern: Seq<char>, distance: nat) -> spec_fn(Route) -> bool {
    |route: Route| route.distance == distance && edited(reach, pattern, route)
}

/// The ways that at most `distance` edits go.
spec fn steps(reach: Reach, pattern: Seq<char>, distance: nat) -> spec_fn(Route) -> bool {
    |route: Route| route.distance <= distance && edited(reach, pattern, route)
}

/// What explains everything within a distance holds the strings within it.
proof fn lemma_strings_within(
    all: Seq<Variant>,
    reach: Reach,
    pattern: Seq<char>,
    distance: nat,
    text: Seq<char>,
)
    requires
        settles(all, steps(reach, pattern, distance)),
    ensures
        strings(all).contains(text) <==> within(reach, pattern, distance, text),
{
    let routes = steps(reach, pattern, distance);
    if strings(all).contains(text) {
        let i = choose|i: int| 0 <= i < strings(all).len() && strings(all)[i] == text;
        assert(routes(all[i]@));
        lemma_edited_within(reach, pattern, distance, all[i]@);
    }
    if within(reach, pattern, distance, text) {
        let route = lemma_within_edited(reach, pattern, distance, text);
        assert(routes(route));
        assert(explained(all, route));
        let i = choose|i: int|
            0 <= i < all.len() && (#[trigger] all[i])@.text == route.text && !route.beats(all[i]@);
        assert(strings(all)[i] == text);
    }
}

proof fn lemma_edited_within(reach: Reach, pattern: Seq<char>, distance: nat, route: Route)
    requires
        route.distance <= distance,
        edited(reach, pattern, route),
    ensures
        within(reach, pattern, distance, route.text),
    decreases distance,
{
    if distance > 0 {
        if route.distance == distance {
            let source = choose|source: Seq<char>|
                at_distance(reach, pattern, (distance - 1) as nat, source) && #[trigger] one_edit(
                    reach,
                    source,
                    route.text,
                    route.derivation,
                );
            assert(one_edit(reach, source, route.text, route.derivation));
            assert(at_distance(reach, pattern, distance, route.text));
        } else {
            lemma_edited_within(reach, pattern, (distance - 1) as nat, route);
        }
    }
}

proof fn lemma_within_edited(
    reach: Reach,
    pattern: Seq<char>,
    distance: nat,
    text: Seq<char>,
) -> (route: Route)
    requires
        within(reach, pattern, distance, text),
    ensures
        route.text == text,
        route.distance <= distance,
        edited(reach, pattern, route),
    decreases distance,
{
    if distance == 0 {
        Route { text, derivation: Derivation::Exact, distance: 0 }
    } else if within(reach, pattern, (distance - 1) as nat, text) {
        lemma_within_edited(reach, pattern, (distance - 1) as nat, text)
    } else {
        assert(at_distance(reach, pattern, distance, text));
        lemma_at_edited(reach, pattern, distance, text)
    }
}

/// Where nothing is at a distance, nothing is further.
proof fn lemma_nothing_beyond(reach: Reach, pattern: Seq<char>, distance: nat, route: Route)
    requires
        forall|text: Seq<char>| !#[trigger] at_distance(reach, pattern, distance, text),
        edited(reach, pattern, route),
    ensures
        route.distance < distance || distance == 0,
    decreases route.distance,
{
    if route.distance > distance {
        let source = choose|source: Seq<char>|
            at_distance(reach, pattern, (route.distance - 1) as nat, source)
                && #[trigger] one_edit(reach, source, route.text, route.derivation);
        assert(at_distance(reach, pattern, (route.distance - 1) as nat, source));
        if route.distance - 1 > distance {
            let onward = lemma_at_edited(reach, pattern, (route.distance - 1) as nat, source);
            lemma_nothing_beyond(reach, pattern, distance, onward);
        }
    } else if route.distance == distance && distance > 0 {
        let source = choose|source: Seq<char>|
            at_distance(reach, pattern, (distance - 1) as nat, source) && #[trigger] one_edit(
                reach,
                source,
                route.text,
                route.derivation,
            );
        assert(one_edit(reach, source, route.text, route.derivation));
        assert(at_distance(reach, pattern, distance, route.text));
    }
}

proof fn lemma_at_edited(
    reach: Reach,
    pattern: Seq<char>,
    distance: nat,
    text: Seq<char>,
) -> (route: Route)
    requires
        at_distance(reach, pattern, distance, text),
    ensures
        route.text == text,
        route.distance == distance,
        edited(reach, pattern, route),
{
    if distance == 0 {
        Route { text, derivation: Derivation::Exact, distance: 0 }
    } else {
        let (source, derivation) = choose|source: Seq<char>, derivation: Derivation|
            at_distance(reach, pattern, (distance - 1) as nat, source) && #[trigger] one_edit(
                reach,
                source,
                text,
                derivation,
            );
        assert(one_edit(reach, source, text, derivation));
        Route { text, derivation, distance }
    }
}

/// One more variant, and the way it stands for.
proof fn lemma_settles_push(
    all: Seq<Variant>,
    variant: Variant,
    base: spec_fn(Route) -> bool,
    more: spec_fn(Route) -> bool,
)
    requires
        settles(all, base),
        forall|route: Route| #[trigger] more(route) <==> base(route) || route == variant@,
    ensures
        settles(all.push(variant), more),
{
    let now = all.push(variant);
    assert forall|i: int| 0 <= i < now.len() implies more((#[trigger] now[i])@) by {
        if i < all.len() {
            assert(now[i] == all[i]);
        }
    }
    assert forall|route: Route| #[trigger] more(route) implies explained(now, route) by {
        if base(route) {
            assert(explained(all, route));
            let i = choose|i: int|
                0 <= i < all.len() && (#[trigger] all[i])@.text == route.text && !route.beats(
                    all[i]@,
                );
            assert(now[i] == all[i]);
        } else {
            lemma_better_total(
                route.derivation,
                route.distance,
                route.derivation,
                route.distance,
            );
            assert(now[all.len() as int]@ == route);
        }
    }
}

/// The ways among these, and those the edits in front of `count` go to strings that were not
/// reached before.
spec fn with_edits(
    base: spec_fn(Route) -> bool,
    reached: Seq<Seq<char>>,
    distance: nat,
    edits: Seq<Edit>,
    count: int,
) -> spec_fn(Route) -> bool {
    |route: Route|
        base(route) || (route.distance == distance && route.text.len() > 0 && !reached.contains(
            route.text,
        ) && makes(edits.take(count), route.text, route.derivation))
}

/// Add the strings that these edits make and that were not reached before.
fn add_variants(
    edits: &[Edit],
    reached: &[Variant],
    distance: usize,
    all: &mut Vec<Variant>,
    base: Ghost<spec_fn(Route) -> bool>,
)
    requires
        in_order(strings(reached@)),
        settles(old(all)@, base@),
    ensures
        settles(
            final(all)@,
            with_edits(
                base@,
                strings(reached@),
                distance as nat,
                edits@,
                edits@.len() as int,
            ),
        ),
{
    let ghost known = strings(reached@);
    let mut index: usize = 0;
    proof {
        let none = with_edits(base@, known, distance as nat, edits@, 0);
        assert forall|route: Route| #[trigger] none(route) <==> base@(route) by {}
        lemma_settles_same(all@, base@, none);
    }
    while index < edits.len()
        invariant
            index <= edits@.len(),
            known == strings(reached@),
            in_order(known),
            settles(
                all@,
                with_edits(base@, known, distance as nat, edits@, index as int),
            ),
        decreases edits@.len() - index,
    {
        let edit: &Edit = &edits[index];
        let ghost before = with_edits(base@, known, distance as nat, edits@, index as int);
        let ghost after = with_edits(base@, known, distance as nat, edits@, index + 1);
        let ghost had = all@;
        let ghost own = Route {
            text: edit.variant@,
            derivation: edit.derivation,
            distance: distance as nat,
        };
        let fresh = edit.variant.len() > 0 && !holds_text(reached, edit.variant.as_slice());
        proof {
            let seen = edits@.take(index as int);
            let now = edits@.take(index + 1);
            assert forall|route: Route| #[trigger] after(route) <==> before(route) || (fresh
                && route == own) by {
                assert(makes(now, route.text, route.derivation) <==> makes(
                    seen,
                    route.text,
                    route.derivation,
                ) || edit.variant@ == route.text && edit.derivation == route.derivation) by {
                    if makes(now, route.text, route.derivation) {
                        let i = choose|i: int|
                            0 <= i < now.len() && (#[trigger] now[i]).variant@ == route.text
                                && now[i].derivation == route.derivation;
                        if i < index {
                            assert(seen[i] == now[i]);
                        }
                    }
                    if makes(seen, route.text, route.derivation) {
                        let i = choose|i: int|
                            0 <= i < seen.len() && (#[trigger] seen[i]).variant@ == route.text
                                && seen[i].derivation == route.derivation;
                        assert(now[i] == seen[i]);
                    }
                    assert(now[index as int] == *edit);
                }
            }
        }
        if fresh {
            let variant = Variant {
                text: vstd::slice::slice_to_vec(edit.variant.as_slice()),
                derivation: edit.derivation,
                distance,
            };
            all.push(variant);
            proof {
                assert(variant@ == own);
                lemma_settles_push(had, variant, before, after);
            }
        } else {
            proof {
                lemma_settles_same(had, before, after);
            }
        }
        index += 1;
    }
}

proof fn lemma_settles_same(
    all: Seq<Variant>,
    one: spec_fn(Route) -> bool,
    two: spec_fn(Route) -> bool,
)
    requires
        settles(all, one),
        forall|route: Route| #[trigger] two(route) <==> one(route),
    ensures
        settles(all, two),
{
    assert forall|i: int| 0 <= i < all.len() implies two((#[trigger] all[i])@) by {
        assert(one(all[i]@));
    }
}

/// What these vectors hold.
spec fn words_in(all: Seq<Vec<char>>) -> Seq<Seq<char>> {
    all.map_values(|word: Vec<char>| word@)
}

/// Whether these are the strings at a distance.
spec fn is_frontier(
    all: Seq<Seq<char>>,
    reach: Reach,
    pattern: Seq<char>,
    distance: nat,
) -> bool {
    forall|text: Seq<char>| #[trigger]
        all.contains(text) <==> at_distance(reach, pattern, distance, text)
}

/// The ways that edits of some of the strings at a distance go.
spec fn step_from(
    reach: Reach,
    pattern: Seq<char>,
    distance: nat,
    sources: Seq<Seq<char>>,
) -> spec_fn(Route) -> bool {
    |route: Route|
        route.distance == distance && route.text.len() > 0 && !within(
            reach,
            pattern,
            (distance - 1) as nat,
            route.text,
        ) && exists|i: int|
            0 <= i < sources.len() && one_edit(
                reach,
                #[trigger] sources[i],
                route.text,
                route.derivation,
            )
}

proof fn lemma_step_from_all(
    reach: Reach,
    pattern: Seq<char>,
    distance: nat,
    sources: Seq<Seq<char>>,
    route: Route,
)
    requires
        distance > 0,
        is_frontier(sources, reach, pattern, (distance - 1) as nat),
    ensures
        step_from(reach, pattern, distance, sources)(route) <==> step(reach, pattern, distance)(
            route,
        ),
{
    if step_from(reach, pattern, distance, sources)(route) {
        let i = choose|i: int|
            0 <= i < sources.len() && one_edit(
                reach,
                #[trigger] sources[i],
                route.text,
                route.derivation,
            );
        assert(sources.contains(sources[i]));
        assert(at_distance(reach, pattern, (distance - 1) as nat, sources[i]));
        assert(one_edit(reach, sources[i], route.text, route.derivation));
    }
    if step(reach, pattern, distance)(route) {
        let source = choose|source: Seq<char>|
            at_distance(reach, pattern, (distance - 1) as nat, source) && #[trigger] one_edit(
                reach,
                source,
                route.text,
                route.derivation,
            );
        assert(sources.contains(source));
        let i = choose|i: int| 0 <= i < sources.len() && sources[i] == source;
        assert(one_edit(reach, sources[i], route.text, route.derivation));
    }
}

/// Every string at the next distance, with every way to it.
fn next_variants(
    frontier: &[Vec<char>],
    reached: &[Variant],
    distance: usize,
    alphabet: Alphabet,
    keyboard: &Keyboard,
    pattern: Ghost<Seq<char>>,
) -> (all: Vec<Variant>)
    requires
        distance > 0,
        keyboard.wf(),
        in_order(strings(reached@)),
        ({
            let reach = Reach { alphabet, keys: keyboard@ };
            &&& settles(reached@, steps(reach, pattern@, (distance - 1) as nat))
            &&& is_frontier(words_in(frontier@), reach, pattern@, (distance - 1) as nat)
        }),
        pattern@.len() > 0,
    ensures
        settles(all@, step(Reach { alphabet, keys: keyboard@ }, pattern@, distance as nat)),
{
    let ghost reach = Reach { alphabet, keys: keyboard@ };
    let ghost sources = words_in(frontier@);
    let ghost known = strings(reached@);
    let mut all: Vec<Variant> = Vec::new();
    let mut index: usize = 0;
    assert(settles(
        all@,
        step_from(reach, pattern@, distance as nat, sources.take(0)),
    ));
    while index < frontier.len()
        invariant
            index <= frontier@.len(),
            distance > 0,
            keyboard.wf(),
            reach == (Reach { alphabet, keys: keyboard@ }),
            sources == words_in(frontier@),
            known == strings(reached@),
            in_order(known),
            pattern@.len() > 0,
            settles(reached@, steps(reach, pattern@, (distance - 1) as nat)),
            is_frontier(sources, reach, pattern@, (distance - 1) as nat),
            settles(
                all@,
                step_from(reach, pattern@, distance as nat, sources.take(index as int)),
            ),
        decreases frontier@.len() - index,
    {
        let source: &[char] = frontier[index].as_slice();
        let ghost base = step_from(reach, pattern@, distance as nat, sources.take(index as int));
        let ghost after = step_from(reach, pattern@, distance as nat, sources.take(index + 1));
        proof {
            assert(sources[index as int] == source@);
            assert(sources.contains(source@));
            lemma_not_nothing(reach, pattern@, (distance - 1) as nat, source@);
        }
        let edits: Vec<Edit> = edits_of(source, alphabet, keyboard);
        add_variants(edits.as_slice(), reached, distance, &mut all, Ghost(base));
        proof {
            let made = with_edits(
                base,
                known,
                distance as nat,
                edits@,
                edits@.len() as int,
            );
            assert(edits@.take(edits@.len() as int) =~= edits@);
            let now = sources.take(index + 1);
            let seen = sources.take(index as int);
            assert forall|route: Route| #[trigger] after(route) <==> made(route) by {
                lemma_strings_within(
                    reached@,
                    reach,
                    pattern@,
                    (distance - 1) as nat,
                    route.text,
                );
                assert(makes(edits@, route.text, route.derivation) <==> one_edit(
                    reach,
                    source@,
                    route.text,
                    route.derivation,
                ));
                if after(route) {
                    let i = choose|i: int|
                        0 <= i < now.len() && one_edit(
                            reach,
                            #[trigger] now[i],
                            route.text,
                            route.derivation,
                        );
                    if i < index {
                        assert(seen[i] == now[i]);
                    }
                }
                if base(route) {
                    let i = choose|i: int|
                        0 <= i < seen.len() && one_edit(
                            reach,
                            #[trigger] seen[i],
                            route.text,
                            route.derivation,
                        );
                    assert(now[i] == seen[i]);
                }
                assert(now[index as int] == source@);
            }
            lemma_settles_same(all@, made, after);
        }
        index += 1;
    }
    proof {
        assert(sources.take(index as int) =~= sources);
        let from = step_from(reach, pattern@, distance as nat, sources);
        let onward = step(reach, pattern@, distance as nat);
        assert forall|route: Route| #[trigger] onward(route) <==> from(route) by {
            lemma_step_from_all(reach, pattern@, distance as nat, sources, route);
        }
        lemma_settles_same(all@, from, onward);
    }
    all
}

proof fn lemma_not_nothing(reach: Reach, pattern: Seq<char>, distance: nat, text: Seq<char>)
    requires
        pattern.len() > 0,
        at_distance(reach, pattern, distance, text),
    ensures
        text.len() > 0,
{
}

/// The strings of these variants, on their own.
fn texts_of(all: &[Variant]) -> (words: Vec<Vec<char>>)
    ensures
        words_in(words@) == strings(all@),
{
    let mut words: Vec<Vec<char>> = Vec::new();
    let mut index: usize = 0;
    while index < all.len()
        invariant
            index <= all@.len(),
            words@.len() == index,
            forall|i: int| 0 <= i < index ==> (#[trigger] words@[i])@ == all@[i]@.text,
        decreases all@.len() - index,
    {
        words.push(vstd::slice::slice_to_vec(all[index].text.as_slice()));
        index += 1;
    }
    assert(words_in(words@) =~= strings(all@));
    words
}

/// What explains one step holds the strings at its distance.
proof fn lemma_strings_at(
    all: Seq<Variant>,
    reach: Reach,
    pattern: Seq<char>,
    distance: nat,
)
    requires
        settles(all, step(reach, pattern, distance)),
    ensures
        is_frontier(strings(all), reach, pattern, distance),
{
    let routes = step(reach, pattern, distance);
    assert forall|text: Seq<char>| #[trigger] strings(all).contains(text) <==> at_distance(
        reach,
        pattern,
        distance,
        text,
    ) by {
        if strings(all).contains(text) {
            let i = choose|i: int| 0 <= i < strings(all).len() && strings(all)[i] == text;
            assert(routes(all[i]@));
            if distance > 0 {
                let route = all[i]@;
                let source = choose|source: Seq<char>|
                    at_distance(reach, pattern, (distance - 1) as nat, source)
                        && #[trigger] one_edit(reach, source, route.text, route.derivation);
                assert(one_edit(reach, source, text, route.derivation));
            }
        }
        if at_distance(reach, pattern, distance, text) {
            let route = lemma_at_edited(reach, pattern, distance, text);
            assert(routes(route));
            assert(explained(all, route));
            let i = choose|i: int|
                0 <= i < all.len() && (#[trigger] all[i])@.text == route.text && !route.beats(
                    all[i]@,
                );
            assert(strings(all)[i] == text);
        }
    }
}

/// Once a distance reaches nothing new, the larger ones reach nothing new either.
proof fn lemma_frontier_exhausted(
    reached: Seq<Variant>,
    reach: Reach,
    pattern: Seq<char>,
    distance: nat,
    max_distance: nat,
)
    requires
        0 < distance <= max_distance,
        is_frontier(Seq::empty(), reach, pattern, distance),
        settles(reached, steps(reach, pattern, distance)),
    ensures
        settles(reached, steps(reach, pattern, max_distance)),
{
    assert forall|text: Seq<char>| !#[trigger] at_distance(reach, pattern, distance, text) by {
        assert(!Seq::<Seq<char>>::empty().contains(text));
    }
    let after = steps(reach, pattern, distance);
    let whole = steps(reach, pattern, max_distance);
    assert forall|route: Route| #[trigger] whole(route) <==> after(route) by {
        if edited(reach, pattern, route) {
            lemma_nothing_beyond(reach, pattern, distance, route);
        }
    }
    lemma_settles_same(reached, after, whole);
}

/// Every string within `max_distance` edits of `pattern`, with the best way to it.
fn expand(
    pattern: &[char],
    max_distance: usize,
    alphabet: Alphabet,
    keyboard: &Keyboard,
) -> (reached: Vec<Variant>)
    requires
        pattern@.len() > 0,
        keyboard.wf(),
    ensures
        settles(
            reached@,
            steps(Reach { alphabet, keys: keyboard@ }, pattern@, max_distance as nat),
        ),
{
    let ghost reach = Reach { alphabet, keys: keyboard@ };
    let mut frontier: Vec<Vec<char>> = Vec::new();
    frontier.push(vstd::slice::slice_to_vec(pattern));
    let mut reached: Vec<Variant> = Vec::new();
    let exact = Variant {
        text: vstd::slice::slice_to_vec(pattern),
        derivation: Derivation::Exact,
        distance: 0,
    };
    reached.push(exact);
    proof {
        let none = |route: Route| false;
        assert(settles(Seq::<Variant>::empty(), none));
        lemma_settles_push(Seq::empty(), exact, none, steps(reach, pattern@, 0));
        assert(reached@ =~= Seq::<Variant>::empty().push(exact));
        assert forall|text: Seq<char>| #[trigger] words_in(frontier@).contains(text)
            <==> at_distance(reach, pattern@, 0, text) by {
            assert(words_in(frontier@) =~= seq![pattern@]);
            assert(words_in(frontier@)[0] == pattern@);
        }
    }
    let mut distance: usize = 0;
    while distance < max_distance
        invariant
            distance <= max_distance,
            pattern@.len() > 0,
            keyboard.wf(),
            reach == (Reach { alphabet, keys: keyboard@ }),
            in_order(strings(reached@)),
            settles(reached@, steps(reach, pattern@, distance as nat)),
            is_frontier(words_in(frontier@), reach, pattern@, distance as nat),
        decreases max_distance - distance,
    {
        let ghost onward = step(reach, pattern@, (distance + 1) as nat);
        let ghost before = steps(reach, pattern@, distance as nat);
        let ghost after = steps(reach, pattern@, (distance + 1) as nat);
        distance += 1;
        let produced = next_variants(
            frontier.as_slice(),
            reached.as_slice(),
            distance,
            alphabet,
            keyboard,
            Ghost(pattern@),
        );
        let ghost raw = produced@;
        let mut next = tidy(produced);
        proof {
            lemma_tidied(raw, next@, onward);
            lemma_strings_at(next@, reach, pattern@, distance as nat);
        }
        frontier = texts_of(next.as_slice());
        let ghost one = reached@;
        let ghost two = next@;
        reached.append(&mut next);
        proof {
            assert(reached@ =~= one + two);
            lemma_joined(one, two, before, onward, after);
        }
        let ghost joined = reached@;
        reached = tidy(reached);
        proof {
            lemma_tidied(joined, reached@, after);
        }
        if frontier.len() == 0 {
            proof {
                assert(words_in(frontier@) =~= Seq::empty());
                lemma_frontier_exhausted(
                    reached@,
                    reach,
                    pattern@,
                    distance as nat,
                    max_distance as nat,
                );
            }
            return reached;
        }
    }
    reached
}

/// How a needle was reached, which is what its weight follows from.
#[derive(Clone, Copy, Debug, PartialEq, Eq, Structural)]
pub struct Origin {
    pub derivation: Derivation,
    pub distance: usize,
}

/// The pooled dictionary of every query's variants, ready for one automaton.
///
/// Queries share one automaton rather than one each, so the corpus is walked once however many
/// patterns are given.
pub struct Vocabulary {
    /// The strings to look for, in order, none of them twice.
    pub needles: Vec<String>,
    /// The best explanation of each of them.
    pub origins: Vec<Origin>,
}

/// The recorded misspellings that a table gives a query, as far as it consults them.
pub open spec fn consulted(dictionary: Dictionary, table: Seq<char>) -> Option<Seq<Seq<char>>> {
    match dictionary {
        Dictionary::Known => Some(rows(table)),
        Dictionary::Ignored => None,
    }
}

/// What a search with these settings looks with.
pub open spec fn query_of(
    max_distance: nat,
    alphabet: Alphabet,
    keys: Map<char, Seq<char>>,
    dictionary: Dictionary,
    table: Seq<char>,
) -> Query {
    Query {
        reach: Reach { alphabet, keys },
        max_distance,
        misspellings: consulted(dictionary, table),
    }
}

/// Whether this is a way from one of the patterns, and no way to the same string is better.
pub open spec fn best_way(query: Query, patterns: Seq<Seq<char>>, route: Route) -> bool {
    &&& reachable(query, patterns, route)
    &&& forall|other: Route| #[trigger]
        reachable(query, patterns, other) && other.text == route.text ==> !other.beats(route)
}

/// The ways from the first of the patterns.
spec fn from_first(query: Query, patterns: Seq<Seq<char>>, count: int) -> spec_fn(Route) -> bool {
    |route: Route| reachable(query, patterns.take(count), route)
}

/// The recorded misspellings of `pattern`.
fn recorded_variants(pattern: &str, table: &str, query: Ghost<Query>) -> (all: Vec<Variant>)
    requires
        query@.misspellings == Some(rows(table@)),
    ensures
        settles(all@, recorded_ways(query@, pattern@)),
{
    let known: Vec<String> = variants_of(table, pattern);
    let ghost found = texts(known@);
    let mut all: Vec<Variant> = Vec::new();
    let mut index: usize = 0;
    assert(settles(all@, recorded_first(found, 0)));
    while index < known.len()
        invariant
            index <= known@.len(),
            found == texts(known@),
            settles(all@, recorded_first(found, index as int)),
        decreases known@.len() - index,
    {
        let text: Vec<char> = chars_of(known[index].as_str());
        let ghost before = recorded_first(found, index as int);
        let ghost after = recorded_first(found, index + 1);
        let ghost had = all@;
        proof {
            assert(found[index as int] == text@);
            let own = Route { text: text@, derivation: Derivation::Recorded, distance: 0 };
            assert forall|route: Route| #[trigger] after(route) <==> before(route) || (text@.len()
                > 0 && route == own) by {
                let seen = found.take(index as int);
                let now = found.take(index + 1);
                if now.contains(route.text) {
                    let i = choose|i: int| 0 <= i < now.len() && now[i] == route.text;
                    if i < index {
                        assert(seen[i] == route.text);
                    }
                }
                if seen.contains(route.text) {
                    let i = choose|i: int| 0 <= i < seen.len() && seen[i] == route.text;
                    assert(now[i] == route.text);
                }
                assert(now[index as int] == text@);
            }
        }
        if text.len() > 0 {
            let variant = Variant { text, derivation: Derivation::Recorded, distance: 0 };
            all.push(variant);
            proof {
                lemma_settles_push(had, variant, before, after);
            }
        } else {
            proof {
                lemma_settles_same(had, before, after);
            }
        }
        index += 1;
    }
    proof {
        assert(found.take(index as int) =~= found);
        let last = recorded_first(found, index as int);
        let ways = recorded_ways(query@, pattern@);
        assert forall|route: Route| #[trigger] ways(route) <==> last(route) by {
            assert(found.contains(route.text) <==> recorded(rows(table@), pattern@, route.text));
        }
        lemma_settles_same(all@, last, ways);
    }
    all
}

spec fn recorded_first(found: Seq<Seq<char>>, count: int) -> spec_fn(Route) -> bool {
    |route: Route|
        route.derivation == Derivation::Recorded && route.distance == 0 && route.text.len() > 0
            && found.take(count).contains(route.text)
}

spec fn recorded_ways(query: Query, pattern: Seq<char>) -> spec_fn(Route) -> bool {
    |route: Route|
        query.misspellings matches Some(all) && route.derivation == Derivation::Recorded
            && route.distance == 0 && route.text.len() > 0 && recorded(all, pattern, route.text)
}

/// Everything that one pattern expands to, each string as well explained as any way to it.
fn variants_from(
    pattern: &str,
    max_distance: usize,
    alphabet: Alphabet,
    keyboard: &Keyboard,
    dictionary: Dictionary,
    table: &str,
) -> (all: Vec<Variant>)
    requires
        keyboard.wf(),
    ensures
        settles(
            all@,
            pattern_ways(
                query_of(max_distance as nat, alphabet, keyboard@, dictionary, table@),
                pattern@,
            ),
        ),
{
    let ghost query = query_of(max_distance as nat, alphabet, keyboard@, dictionary, table@);
    let ghost noted = recorded_ways(query, pattern@);
    let mut all: Vec<Variant> = Vec::new();
    if dictionary == Dictionary::Known {
        // A recorded misspelling is evidence, not a guess, so it outranks a same-distance edit.
        all = recorded_variants(pattern, table, Ghost(query));
    } else {
        assert(settles(all@, noted));
    }
    let ghost whole = pattern_ways(query, pattern@);
    let chars: Vec<char> = chars_of(pattern);
    if chars.len() == 0 {
        proof {
            assert forall|route: Route| #[trigger] whole(route) <==> noted(route) by {}
            lemma_settles_same(all@, noted, whole);
        }
        return all;
    }
    let mut edits = expand(chars.as_slice(), max_distance, alphabet, keyboard);
    let ghost one = all@;
    let ghost two = edits@;
    all.append(&mut edits);
    proof {
        assert(all@ =~= one + two);
        let near = steps(query.reach, pattern@, max_distance as nat);
        assert forall|route: Route| #[trigger] whole(route) <==> noted(route) || near(route) by {}
        lemma_joined(one, two, noted, near, whole);
    }
    all
}

spec fn pattern_ways(query: Query, pattern: Seq<char>) -> spec_fn(Route) -> bool {
    |route: Route| from_pattern(query, pattern, route)
}

impl Vocabulary {
    /// Everything the queries expand to, within `max_distance` edits drawn from `alphabet`.
    ///
    /// Nothing empty is among the needles: an empty needle matches at every position, and an
    /// automaton rejects a whole dictionary over one.
    pub fn build(
        patterns: &[String],
        max_distance: usize,
        alphabet: Alphabet,
        keyboard: &Keyboard,
        dictionary: Dictionary,
        table: &str,
    ) -> (vocabulary: Self)
        requires
            keyboard.wf(),
        ensures
            ({
                let query = query_of(
                    max_distance as nat,
                    alphabet,
                    keyboard@,
                    dictionary,
                    table@,
                );
                vocabulary.is_for(query, texts(patterns@))
            }),
    {
        let ghost query = query_of(max_distance as nat, alphabet, keyboard@, dictionary, table@);
        let ghost all_patterns = texts(patterns@);
        let mut pool: Vec<Variant> = Vec::new();
        let mut index: usize = 0;
        assert(settles(pool@, from_first(query, all_patterns, 0)));
        while index < patterns.len()
            invariant
                index <= patterns@.len(),
                keyboard.wf(),
                all_patterns == texts(patterns@),
                query == query_of(max_distance as nat, alphabet, keyboard@, dictionary, table@),
                settles(pool@, from_first(query, all_patterns, index as int)),
            decreases patterns@.len() - index,
        {
            let pattern: &str = patterns[index].as_str();
            let mut own = variants_from(
                pattern,
                max_distance,
                alphabet,
                keyboard,
                dictionary,
                table,
            );
            let ghost one = pool@;
            let ghost two = own@;
            pool.append(&mut own);
            proof {
                assert(pool@ =~= one + two);
                assert(all_patterns[index as int] == pattern@);
                let before = from_first(query, all_patterns, index as int);
                let added = pattern_ways(query, pattern@);
                let after = from_first(query, all_patterns, index + 1);
                assert forall|route: Route| #[trigger] after(route) <==> before(route) || added(
                    route,
                ) by {
                    let seen = all_patterns.take(index as int);
                    let now = all_patterns.take(index + 1);
                    if after(route) {
                        let i = choose|i: int|
                            0 <= i < now.len() && from_pattern(query, #[trigger] now[i], route);
                        if i < index {
                            assert(seen[i] == now[i]);
                        }
                    }
                    if before(route) {
                        let i = choose|i: int|
                            0 <= i < seen.len() && from_pattern(query, #[trigger] seen[i], route);
                        assert(now[i] == seen[i]);
                    }
                    assert(now[index as int] == pattern@);
                }
                lemma_joined(one, two, before, added, after);
            }
            index += 1;
        }
        let ghost whole = from_first(query, all_patterns, index as int);
        assert(all_patterns.take(index as int) =~= all_patterns);
        let ghost raw = pool@;
        let best = tidy(pool);
        proof {
            lemma_tidied(raw, best@, whole);
        }
        Vocabulary::of(best.as_slice(), Ghost(query), Ghost(all_patterns))
    }

    /// These variants as a dictionary.
    fn of(
        best: &[Variant],
        query: Ghost<Query>,
        patterns: Ghost<Seq<Seq<char>>>,
    ) -> (vocabulary: Self)
        requires
            in_order(strings(best@)),
            settles(best@, |route: Route| reachable(query@, patterns@, route)),
        ensures
            vocabulary.is_for(query@, patterns@),
    {
        let ghost routes = |route: Route| reachable(query@, patterns@, route);
        let mut needles: Vec<String> = Vec::new();
        let mut origins: Vec<Origin> = Vec::new();
        let mut index: usize = 0;
        while index < best.len()
            invariant
                index <= best@.len(),
                needles@.len() == index,
                origins@.len() == index,
                forall|i: int| 0 <= i < index ==> (#[trigger] needles@[i])@ == best@[i]@.text,
                forall|i: int|
                    0 <= i < index ==> (#[trigger] origins@[i]).derivation == best@[i].derivation
                        && origins@[i].distance == best@[i].distance,
            decreases best@.len() - index,
        {
            needles.push(text_of(best[index].text.as_slice()));
            origins.push(
                Origin { derivation: best[index].derivation, distance: best[index].distance },
            );
            index += 1;
        }
        let vocabulary = Vocabulary { needles, origins };
        proof {
            assert(texts(vocabulary.needles@) =~= strings(best@));
            assert forall|i: int| 0 <= i < best@.len() implies best_way(
                query@,
                patterns@,
                #[trigger] vocabulary.way(i),
            ) by {
                assert(vocabulary.way(i) == best@[i]@);
                assert(routes(best@[i]@));
                assert forall|other: Route| #[trigger]
                    reachable(query@, patterns@, other) && other.text
                        == best@[i]@.text implies !other.beats(best@[i]@) by {
                    assert(routes(other));
                    assert(explained(best@, other));
                    let j = choose|j: int|
                        0 <= j < best@.len() && (#[trigger] best@[j])@.text == other.text
                            && !other.beats(best@[j]@);
                    lemma_precedes_total(best@[i]@.text, best@[i]@.text);
                    assert(strings(best@)[i] == best@[i]@.text);
                    assert(strings(best@)[j] == best@[j]@.text);
                    assert(i == j);
                }
            }
            assert forall|route: Route| #[trigger]
                reachable(query@, patterns@, route) implies texts(
                vocabulary.needles@,
            ).contains(route.text) by {
                assert(routes(route));
                assert(explained(best@, route));
                let j = choose|j: int|
                    0 <= j < best@.len() && (#[trigger] best@[j])@.text == route.text
                        && !route.beats(best@[j]@);
                assert(texts(vocabulary.needles@)[j] == route.text);
            }
        }
        vocabulary
    }

    /// How the needle at `index` was reached.
    pub open spec fn way(&self, index: int) -> Route {
        Route {
            text: self.needles@[index]@,
            derivation: self.origins@[index].derivation,
            distance: self.origins@[index].distance as nat,
        }
    }

    /// Whether this is the dictionary for a query: every string that can be reached, each once and
    /// in order, with the best way to it.
    pub open spec fn is_for(&self, query: Query, patterns: Seq<Seq<char>>) -> bool {
        &&& self.needles@.len() == self.origins@.len()
        &&& in_order(texts(self.needles@))
        &&& forall|i: int|
            0 <= i < self.needles@.len() ==> best_way(query, patterns, #[trigger] self.way(i))
        &&& forall|route: Route| #[trigger]
            reachable(query, patterns, route) ==> texts(self.needles@).contains(route.text)
    }

    pub fn is_empty(&self) -> (empty: bool)
        ensures
            empty == (self.needles@.len() == 0),
    {
        self.needles.len() == 0
    }
}

/// Whether a string is within reach of the patterns.
pub open spec fn in_reach(query: Query, patterns: Seq<Seq<char>>, text: Seq<char>) -> bool {
    exists|route: Route| #[trigger] reachable(query, patterns, route) && route.text == text
}

/// No needle is empty.
pub proof fn no_needle_is_empty(query: Query, patterns: Seq<Seq<char>>, route: Route)
    requires
        reachable(query, patterns, route),
    ensures
        route.text.len() > 0,
{
}

/// A query is the best explanation of itself: no variant weighs as much, and none is a better way to
/// it.
pub proof fn the_query_itself_weighs_most(
    query: Query,
    patterns: Seq<Seq<char>>,
    at: int,
    other: Route,
)
    requires
        0 <= at < patterns.len(),
        patterns[at].len() > 0,
        reachable(query, patterns, other),
    ensures
        ({
            let own = Route { text: patterns[at], derivation: Derivation::Exact, distance: 0 };
            &&& best_way(query, patterns, own)
            &&& other.derivation != Derivation::Exact ==> own.beats(other)
            &&& !other.beats(own)
        }),
{
    let own = Route { text: patterns[at], derivation: Derivation::Exact, distance: 0 };
    assert(from_pattern(query, patterns[at], own));
    assert forall|route: Route| #[trigger] reachable(query, patterns, route) implies !route.beats(
        own,
    ) by {
        lemma_exact_leads(route);
    }
    lemma_exact_leads(other);
}

proof fn lemma_exact_leads(route: Route)
    ensures
        ({
            let own = Route { text: route.text, derivation: Derivation::Exact, distance: 0 };
            &&& !route.beats(own)
            &&& route.derivation != Derivation::Exact ==> own.beats(route)
        }),
{
    reveal(better);
    let edits = route.distance + 1;
    assert(100 * edits >= 100) by (nonlinear_arith)
        requires
            edits >= 1,
    ;
}

/// A larger edit budget, and the recorded misspellings, only ever add to what is reached.
pub proof fn a_larger_budget_reaches_more(
    lower: Query,
    higher: Query,
    patterns: Seq<Seq<char>>,
    text: Seq<char>,
)
    requires
        lower.reach == higher.reach,
        lower.max_distance <= higher.max_distance,
        lower.misspellings is Some ==> higher.misspellings == lower.misspellings,
        in_reach(lower, patterns, text),
    ensures
        in_reach(higher, patterns, text),
{
    let route = choose|route: Route| #[trigger]
        reachable(lower, patterns, route) && route.text == text;
    let i = choose|i: int|
        0 <= i < patterns.len() && from_pattern(lower, #[trigger] patterns[i], route);
    assert(from_pattern(higher, patterns[i], route));
    assert(reachable(higher, patterns, route));
}

/// More patterns only ever add to what is reached.
pub proof fn more_patterns_reach_more(
    query: Query,
    some: Seq<Seq<char>>,
    others: Seq<Seq<char>>,
    text: Seq<char>,
)
    ensures
        in_reach(query, some + others, text) <==> in_reach(query, some, text) || in_reach(
            query,
            others,
            text,
        ),
{
    let all = some + others;
    if in_reach(query, all, text) {
        let route = choose|route: Route| #[trigger]
            reachable(query, all, route) && route.text == text;
        let i = choose|i: int| 0 <= i < all.len() && from_pattern(query, #[trigger] all[i], route);
        if i < some.len() {
            assert(from_pattern(query, some[i], route));
            assert(reachable(query, some, route));
        } else {
            assert(from_pattern(query, others[i - some.len()], route));
            assert(reachable(query, others, route));
        }
    }
    if in_reach(query, some, text) {
        let route = choose|route: Route| #[trigger]
            reachable(query, some, route) && route.text == text;
        let i = choose|i: int|
            0 <= i < some.len() && from_pattern(query, #[trigger] some[i], route);
        assert(from_pattern(query, all[i], route));
        assert(reachable(query, all, route));
    }
    if in_reach(query, others, text) {
        let route = choose|route: Route| #[trigger]
            reachable(query, others, route) && route.text == text;
        let i = choose|i: int|
            0 <= i < others.len() && from_pattern(query, #[trigger] others[i], route);
        assert(from_pattern(query, all[some.len() + i], route));
        assert(reachable(query, all, route));
    }
}

/// An edit of what is within a distance is within the next.
proof fn lemma_within_next(
    reach: Reach,
    pattern: Seq<char>,
    distance: nat,
    source: Seq<char>,
    text: Seq<char>,
    derivation: Derivation,
)
    requires
        within(reach, pattern, distance, source),
        one_edit(reach, source, text, derivation),
        text.len() > 0,
    ensures
        within(reach, pattern, distance + 1, text),
    decreases distance,
{
    if distance > 0 && within(reach, pattern, (distance - 1) as nat, source) {
        lemma_within_next(reach, pattern, (distance - 1) as nat, source, text, derivation);
        assert(within(reach, pattern, distance, text));
    } else {
        assert(at_distance(reach, pattern, distance, source));
        if !within(reach, pattern, distance, text) {
            assert(one_edit(reach, source, text, derivation));
            assert(at_distance(reach, pattern, distance + 1, text));
        }
    }
}

proof fn lemma_wider_within(
    keys: Map<char, Seq<char>>,
    pattern: Seq<char>,
    distance: nat,
    text: Seq<char>,
)
    requires
        carries_its_neighbours(keys),
        within(Reach { alphabet: Alphabet::Keyboard, keys }, pattern, distance, text),
    ensures
        within(Reach { alphabet: Alphabet::Script, keys }, pattern, distance, text),
    decreases distance,
{
    let narrow = Reach { alphabet: Alphabet::Keyboard, keys };
    let wide = Reach { alphabet: Alphabet::Script, keys };
    if distance > 0 {
        let shorter = (distance - 1) as nat;
        if within(narrow, pattern, shorter, text) {
            lemma_wider_within(keys, pattern, shorter, text);
        } else {
            assert(at_distance(narrow, pattern, distance, text));
            let (source, derivation) = choose|source: Seq<char>, derivation: Derivation|
                at_distance(narrow, pattern, shorter, source) && #[trigger] one_edit(
                    narrow,
                    source,
                    text,
                    derivation,
                );
            assert(within(narrow, pattern, shorter, source));
            lemma_wider_within(keys, pattern, shorter, source);
            adjacent_edits_are_edits(keys, source, text, derivation);
            assert(one_edit(wide, source, text, derivation));
            lemma_within_next(wide, pattern, shorter, source, text, derivation);
        }
    }
}

/// Whether a layout carries every neighbour of its keys.
pub open spec fn carries_its_neighbours(keys: Map<char, Seq<char>>) -> bool {
    forall|anchor: char, near: char|
        #![trigger neighbours_of(keys, anchor).contains(near)]
        neighbours_of(keys, anchor).contains(near) ==> keys.contains_key(near)
}

/// Drawing edits from the whole layout reaches all that drawing them from adjacent keys does, on a
/// layout that carries every neighbour of its keys.
pub proof fn a_wider_alphabet_reaches_more(
    narrow: Query,
    wide: Query,
    patterns: Seq<Seq<char>>,
    text: Seq<char>,
)
    requires
        carries_its_neighbours(narrow.reach.keys),
        narrow.reach.alphabet == Alphabet::Keyboard,
        wide == (Query {
            reach: Reach { alphabet: Alphabet::Script, keys: narrow.reach.keys },
            ..narrow
        }),
        in_reach(narrow, patterns, text),
    ensures
        in_reach(wide, patterns, text),
{
    let route = choose|route: Route| #[trigger]
        reachable(narrow, patterns, route) && route.text == text;
    let i = choose|i: int|
        0 <= i < patterns.len() && from_pattern(narrow, #[trigger] patterns[i], route);
    let pattern = patterns[i];
    if narrow.misspellings matches Some(all) && route.derivation == Derivation::Recorded
        && route.distance == 0 && route.text.len() > 0 && recorded(all, pattern, route.text) {
        assert(from_pattern(wide, pattern, route));
        assert(reachable(wide, patterns, route));
    } else {
        lemma_edited_within(narrow.reach, pattern, narrow.max_distance, route);
        lemma_wider_within(narrow.reach.keys, pattern, narrow.max_distance, text);
        let onward = lemma_within_edited(wide.reach, pattern, narrow.max_distance, text);
        assert(from_pattern(wide, pattern, onward));
        assert(reachable(wide, patterns, onward));
    }
}

/// Climbing the effort ladder never narrows: the higher of two rungs reaches everything the lower
/// one does, on a layout that carries every neighbour of its keys. What a fold then makes of corpus
/// and query alike is no part of this.
pub proof fn a_higher_rung_reaches_more(
    lower: Effort,
    higher: Effort,
    keys: Map<char, Seq<char>>,
    table: Seq<char>,
    patterns: Seq<Seq<char>>,
    text: Seq<char>,
)
    requires
        lower.rung() <= higher.rung(),
        carries_its_neighbours(keys),
        in_reach(rung_query(lower, keys, table), patterns, text),
    ensures
        in_reach(rung_query(higher, keys, table), patterns, text),
{
    let low = rung_query(lower, keys, table);
    let high = rung_query(higher, keys, table);
    a_higher_rung_takes_nothing_back(lower, higher);
    if lower.draws() == higher.draws() {
        a_larger_budget_reaches_more(low, high, patterns, text);
    } else if lower.draws() == Alphabet::Keyboard {
        let wide = Query { reach: Reach { alphabet: Alphabet::Script, keys }, ..low };
        a_wider_alphabet_reaches_more(low, wide, patterns, text);
        a_larger_budget_reaches_more(wide, high, patterns, text);
    } else {
        // Nothing is edited at all below the rung that follows adjacent keys.
        let route = choose|route: Route| #[trigger]
            reachable(low, patterns, route) && route.text == text;
        let i = choose|i: int|
            0 <= i < patterns.len() && from_pattern(low, #[trigger] patterns[i], route);
        assert(from_pattern(high, patterns[i], route));
        assert(reachable(high, patterns, route));
    }
}

/// What a rung of the effort ladder looks with.
pub open spec fn rung_query(effort: Effort, keys: Map<char, Seq<char>>, table: Seq<char>) -> Query {
    query_of(effort.distance(), effort.draws(), keys, effort.consults(), table)
}

} // verus!
