//! Sorting by merging.

use vstd::multiset::Multiset;
use vstd::prelude::*;
use vstd::seq_lib::lemma_multiset_commutative;

verus! {

/// Something that can be put in order.
pub trait Ranked: Sized {
    /// Whether this goes before the other. Two things of which neither goes first may stand either
    /// way.
    spec fn first(self, other: Self) -> bool;

    /// Whether this goes before the other.
    fn goes_first(&self, other: &Self) -> (yes: bool)
        ensures
            yes == self.first(*other),
    ;

    /// Of two things, at most one goes first.
    proof fn lemma_not_both(one: Self, two: Self)
        ensures
            !(one.first(two) && two.first(one)),
    ;

    /// What does not go before a thing does not go before what that thing does not go before.
    proof fn lemma_chain(one: Self, two: Self, three: Self)
        requires
            !two.first(one),
            !three.first(two),
        ensures
            !three.first(one),
    ;
}

/// Whether `one` may stand before `two`, in the order or against it.
pub open spec fn may_lead<T: Ranked>(one: T, two: T, upward: bool) -> bool {
    if upward {
        !two.first(one)
    } else {
        !one.first(two)
    }
}

/// Whether all these stand in the order, or against it.
pub open spec fn ordered<T: Ranked>(all: Seq<T>, upward: bool) -> bool {
    forall|i: int, j: int|
        #![trigger all[i], all[j]]
        0 <= i < j < all.len() ==> may_lead(all[i], all[j], upward)
}

/// Whether each of some may stand before each of others.
spec fn all_lead<T: Ranked>(some: Seq<T>, others: Seq<T>, upward: bool) -> bool {
    forall|i: int, j: int|
        #![trigger some[i], others[j]]
        0 <= i < some.len() && 0 <= j < others.len() ==> may_lead(some[i], others[j], upward)
}

proof fn lemma_leads_chain<T: Ranked>(one: T, two: T, three: T, upward: bool)
    requires
        may_lead(one, two, upward),
        may_lead(two, three, upward),
    ensures
        may_lead(one, three, upward),
{
    if upward {
        T::lemma_chain(one, two, three);
    } else {
        T::lemma_chain(three, two, one);
    }
}

/// Moving the last of `source` behind `out`.
proof fn lemma_moved<T: Ranked>(out: Seq<T>, source: Seq<T>, other: Seq<T>, upward: bool)
    requires
        source.len() > 0,
        ordered(out, upward),
        ordered(source, !upward),
        all_lead(out, source, upward),
        all_lead(out, other, upward),
        forall|j: int|
            0 <= j < other.len() ==> may_lead(source.last(), #[trigger] other[j], upward),
    ensures
        ordered(out.push(source.last()), upward),
        ordered(source.drop_last(), !upward),
        all_lead(out.push(source.last()), source.drop_last(), upward),
        all_lead(out.push(source.last()), other, upward),
        out.push(source.last()).to_multiset().add(source.drop_last().to_multiset())
            == out.to_multiset().add(source.to_multiset()),
{
    let moved = source.last();
    let now = out.push(moved);
    let rest = source.drop_last();
    assert(moved == source[source.len() - 1]);
    assert forall|i: int, j: int|
        #![trigger now[i], rest[j]]
        0 <= i < now.len() && 0 <= j < rest.len() implies may_lead(now[i], rest[j], upward) by {
        assert(rest[j] == source[j]);
        if i < out.len() {
            assert(now[i] == out[i]);
        } else {
            assert(may_lead(source[j], source[source.len() - 1], !upward));
        }
    }
    assert forall|i: int, j: int|
        #![trigger now[i], now[j]]
        0 <= i < j < now.len() implies may_lead(now[i], now[j], upward) by {
        assert(now[i] == out[i]);
        if j < out.len() {
            assert(now[j] == out[j]);
        }
    }
    assert forall|i: int, j: int|
        #![trigger now[i], other[j]]
        0 <= i < now.len() && 0 <= j < other.len() implies may_lead(now[i], other[j], upward) by {
        if i < out.len() {
            assert(now[i] == out[i]);
        }
    }
    out.to_multiset_ensures();
    rest.to_multiset_ensures();
    assert(source =~= rest.push(moved));
    broadcast use vstd::multiset::group_multiset_axioms;

    assert(now.to_multiset().add(rest.to_multiset()) =~= out.to_multiset().add(
        source.to_multiset(),
    ));
}

/// Whether the last of `left` may be moved ahead of all of `right`.
proof fn lemma_last_leads<T: Ranked>(left: Seq<T>, right: Seq<T>, upward: bool)
    requires
        left.len() > 0,
        right.len() > 0,
        ordered(right, !upward),
        may_lead(left.last(), right.last(), upward),
    ensures
        forall|j: int|
            0 <= j < right.len() ==> may_lead(left.last(), #[trigger] right[j], upward),
{
    assert forall|j: int| 0 <= j < right.len() implies may_lead(
        left.last(),
        #[trigger] right[j],
        upward,
    ) by {
        if j < right.len() - 1 {
            assert(may_lead(right[j], right[right.len() - 1], !upward));
            lemma_leads_chain(left.last(), right.last(), right[j], upward);
        }
    }
}

/// Merge two lists that stand against the order into one that stands in it.
fn merge<T: Ranked>(left: Vec<T>, right: Vec<T>, upward: bool) -> (merged: Vec<T>)
    requires
        ordered(left@, !upward),
        ordered(right@, !upward),
        left@.len() + right@.len() <= usize::MAX,
    ensures
        ordered(merged@, upward),
        merged@.to_multiset() == left@.to_multiset().add(right@.to_multiset()),
        merged@.len() == left@.len() + right@.len(),
{
    let mut left = left;
    let mut right = right;
    let ghost total = left@.to_multiset().add(right@.to_multiset());
    let ghost count = left@.len() + right@.len();
    let mut merged: Vec<T> = Vec::new();
    proof {
        broadcast use vstd::multiset::group_multiset_axioms;

        merged@.to_multiset_ensures();
        assert(merged@.to_multiset().len() == 0);
        assert(merged@.to_multiset() =~= Multiset::empty());
        assert(Multiset::<T>::empty().add(left@.to_multiset()).add(right@.to_multiset())
            =~= total);
    }
    while left.len() > 0 || right.len() > 0
        invariant
            ordered(left@, !upward),
            ordered(right@, !upward),
            ordered(merged@, upward),
            all_lead(merged@, left@, upward),
            all_lead(merged@, right@, upward),
            merged@.to_multiset().add(left@.to_multiset()).add(right@.to_multiset()) == total,
            merged@.len() + left@.len() + right@.len() == count,
        decreases left@.len() + right@.len(),
    {
        let from_left = if left.len() == 0 {
            false
        } else if right.len() == 0 {
            true
        } else {
            let one: &T = &left[left.len() - 1];
            let two: &T = &right[right.len() - 1];
            if upward {
                !two.goes_first(one)
            } else {
                !one.goes_first(two)
            }
        };
        let ghost one = left@;
        let ghost two = right@;
        let ghost out = merged@;
        proof {
            broadcast use vstd::multiset::group_multiset_axioms;

            if from_left {
                if two.len() > 0 {
                    lemma_last_leads(one, two, upward);
                }
                lemma_moved(out, one, two, upward);
            } else {
                if one.len() > 0 {
                    T::lemma_not_both(one.last(), two.last());
                    lemma_last_leads(two, one, upward);
                }
                lemma_moved(out, two, one, upward);
                assert(out.push(two.last()).to_multiset().add(one.to_multiset()).add(
                    two.drop_last().to_multiset(),
                ) =~= out.push(two.last()).to_multiset().add(two.drop_last().to_multiset()).add(
                    one.to_multiset(),
                ));
                assert(out.to_multiset().add(two.to_multiset()).add(one.to_multiset())
                    =~= out.to_multiset().add(one.to_multiset()).add(two.to_multiset()));
            }
        }
        let taken = if from_left {
            left.pop()
        } else {
            right.pop()
        };
        if let Some(item) = taken {
            merged.push(item);
        }
    }
    proof {
        broadcast use vstd::multiset::group_multiset_axioms;

        left@.to_multiset_ensures();
        right@.to_multiset_ensures();
        assert(left@.to_multiset() =~= Multiset::empty());
        assert(right@.to_multiset() =~= Multiset::empty());
        assert(merged@.to_multiset() =~= total);
    }
    merged
}

/// Put everything in order, or against it.
fn sort_halves<T: Ranked>(items: Vec<T>, upward: bool) -> (sorted: Vec<T>)
    ensures
        ordered(sorted@, upward),
        sorted@.to_multiset() == items@.to_multiset(),
        sorted@.len() == items@.len(),
    decreases items@.len(),
{
    if items.len() < 2 {
        return items;
    }
    let ghost all = items@;
    let mut left = items;
    let half: usize = left.len() / 2;
    assert(left.len() <= usize::MAX);
    let right = left.split_off(half);
    proof {
        lemma_multiset_commutative(left@, right@);
        assert(left@ + right@ =~= all);
    }
    let left = sort_halves(left, !upward);
    let right = sort_halves(right, !upward);
    merge(left, right, upward)
}

/// Put everything in order.
pub fn sort<T: Ranked>(items: Vec<T>) -> (sorted: Vec<T>)
    ensures
        ordered(sorted@, true),
        sorted@.to_multiset() == items@.to_multiset(),
        sorted@.len() == items@.len(),
{
    sort_halves(items, true)
}

/// Put everything against its order, so that taking it from the end takes it in order.
pub fn sort_backward<T: Ranked>(items: Vec<T>) -> (sorted: Vec<T>)
    ensures
        ordered(sorted@, false),
        sorted@.to_multiset() == items@.to_multiset(),
        sorted@.len() == items@.len(),
{
    sort_halves(items, false)
}

/// Two sequences with the same contents hold the same things.
pub proof fn lemma_same_contents<T>(one: Seq<T>, two: Seq<T>)
    requires
        one.to_multiset() == two.to_multiset(),
    ensures
        forall|item: T| #[trigger] one.contains(item) <==> two.contains(item),
{
    one.to_multiset_ensures();
    two.to_multiset_ensures();
    assert forall|item: T| #[trigger] one.contains(item) <==> two.contains(item) by {
        assert(one.contains(item) <==> one.to_multiset().count(item) > 0);
        assert(two.contains(item) <==> two.to_multiset().count(item) > 0);
    }
}

} // verus!
