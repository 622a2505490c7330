//! The fixed suit-to-index mapping shared by the foundation and the
//! renderer-facing accessors, and the win check.

use vstd::multiset::Multiset;
use vstd::prelude::*;

use crate::card::{Card, Suit};
use crate::foundation::Foundation;

verus! {

/// All cards held by a group of piles, as one multiset.
pub open spec fn piles_multiset(piles: Seq<Seq<Card>>) -> Multiset<Card>
    decreases piles.len(),
{
    if piles.len() == 0 {
        Multiset::<Card>::empty()
    } else {
        piles_multiset(piles.drop_last()).add(piles.last().to_multiset())
    }
}

/// The views of a vector of piles.
pub open spec fn pile_views(piles: Seq<Vec<Card>>) -> Seq<Seq<Card>> {
    piles.map_values(|pile: Vec<Card>| pile@)
}

/// Replacing one pile exchanges exactly that pile's cards in the combined
/// multiset.
pub proof fn lemma_piles_multiset_update(piles: Seq<Seq<Card>>, i: int, v: Seq<Card>)
    requires
        0 <= i < piles.len(),
    ensures
        piles_multiset(piles.update(i, v)).add(piles[i].to_multiset()) == piles_multiset(
            piles,
        ).add(v.to_multiset()),
    decreases piles.len(),
{
    broadcast use vstd::multiset::group_multiset_axioms;

    let up = piles.update(i, v);
    let n = piles.len() - 1;
    if i == n {
        assert(up.drop_last() =~= piles.drop_last());
        assert(up.last() == v);
        assert(piles_multiset(up.drop_last()).add(v.to_multiset()).add(
            piles[i].to_multiset(),
        ) =~= piles_multiset(piles.drop_last()).add(piles.last().to_multiset()).add(
            v.to_multiset(),
        ));
    } else {
        let dl = piles.drop_last();
        assert(up.drop_last() =~= dl.update(i, v));
        assert(up.last() == piles.last());
        lemma_piles_multiset_update(dl, i, v);
        assert(piles_multiset(dl.update(i, v)).add(piles.last().to_multiset()).add(
            piles[i].to_multiset(),
        ) =~= piles_multiset(dl.update(i, v)).add(dl[i].to_multiset()).add(
            piles.last().to_multiset(),
        ));
        assert(piles_multiset(dl).add(v.to_multiset()).add(piles.last().to_multiset())
            =~= piles_multiset(dl).add(piles.last().to_multiset()).add(v.to_multiset()));
    }
}

/// From `x + a == y + b` and `a == b + t` conclude `x + t == y`: the cards
/// `t` moved out of one side's pile are owed back to its total.
pub proof fn lemma_multiset_exchange(
    x: Multiset<Card>,
    y: Multiset<Card>,
    a: Multiset<Card>,
    b: Multiset<Card>,
    t: Multiset<Card>,
)
    requires
        x.add(a) == y.add(b),
        a == b.add(t),
    ensures
        x.add(t) == y,
{
    broadcast use vstd::multiset::group_multiset_axioms;

    assert forall|c: Card| #[trigger] x.add(t).count(c) == y.count(c) by {
        assert(x.add(a).count(c) == x.count(c) + a.count(c));
        assert(y.add(b).count(c) == y.count(c) + b.count(c));
        assert(x.add(a).count(c) == y.add(b).count(c));
        assert(b.add(t).count(c) == b.count(c) + t.count(c));
        assert(a.count(c) == b.count(c) + t.count(c));
        assert(x.add(t).count(c) == x.count(c) + t.count(c));
    }
    assert(x.add(t) =~= y);
}

/// From `x + a == y + b` and `b == a.insert(card)` conclude
/// `x == y.insert(card)`.
pub proof fn lemma_multiset_insert_exchange(
    x: Multiset<Card>,
    y: Multiset<Card>,
    a: Multiset<Card>,
    b: Multiset<Card>,
    card: Card,
)
    requires
        x.add(a) == y.add(b),
        b == a.insert(card),
    ensures
        x == y.insert(card),
{
    broadcast use vstd::multiset::group_multiset_axioms;

    assert forall|c: Card| #[trigger] x.count(c) == y.insert(card).count(c) by {
        assert(x.add(a).count(c) == x.count(c) + a.count(c));
        assert(y.add(b).count(c) == y.count(c) + b.count(c));
        assert(x.add(a).count(c) == y.add(b).count(c));
        assert(Multiset::singleton(card).count(c) == (if c == card {
            1int
        } else {
            0int
        }));
        assert(a.insert(card).count(c) == a.count(c) + (if c == card {
            1int
        } else {
            0int
        }));
        assert(y.insert(card).count(c) == y.count(c) + (if c == card {
            1int
        } else {
            0int
        }));
        assert(b.count(c) == a.insert(card).count(c));
    }
    assert(x =~= y.insert(card));
}

/// Inserting into the right operand of a multiset sum, seen both ways.
pub proof fn lemma_multiset_add_insert(x: Multiset<Card>, y: Multiset<Card>, card: Card)
    ensures
        x.add(y).insert(card) == x.add(y.insert(card)),
{
    broadcast use vstd::multiset::group_multiset_axioms;

    assert forall|c: Card| #[trigger]
        x.add(y).insert(card).count(c) == x.add(y.insert(card)).count(c) by {
        assert(Multiset::singleton(card).count(c) == (if c == card {
            1int
        } else {
            0int
        }));
        assert(x.add(y).count(c) == x.count(c) + y.count(c));
        assert(x.add(y).insert(card).count(c) == x.add(y).count(c) + (if c == card {
            1int
        } else {
            0int
        }));
        assert(y.insert(card).count(c) == y.count(c) + (if c == card {
            1int
        } else {
            0int
        }));
        assert(x.add(y.insert(card)).count(c) == x.count(c) + y.insert(card).count(c));
    }
    assert(x.add(y).insert(card) =~= x.add(y.insert(card)));
}

/// Appending a pile adds exactly its cards to the combined multiset.
pub proof fn lemma_piles_multiset_push(piles: Seq<Seq<Card>>, v: Seq<Card>)
    ensures
        piles_multiset(piles.push(v)) == piles_multiset(piles).add(v.to_multiset()),
{
    assert(piles.push(v).drop_last() =~= piles);
    assert(piles.push(v).last() == v);
}

/// The index of a suit's foundation pile: Spades 0, Hearts 1, Clubs 2,
/// Diamonds 3.
pub open spec fn spec_suit_index(suit: Suit) -> int {
    match suit {
        Suit::Spades => 0,
        Suit::Hearts => 1,
        Suit::Clubs => 2,
        Suit::Diamonds => 3,
    }
}

/// The inverse of [`spec_suit_index`] on `0..=3`.
pub open spec fn spec_index_suit(index: int) -> Suit {
    if index == 0 {
        Suit::Spades
    } else if index == 1 {
        Suit::Hearts
    } else if index == 2 {
        Suit::Clubs
    } else {
        Suit::Diamonds
    }
}

/// The two mappings invert each other on the suits.
pub proof fn lemma_suit_round_trip(suit: Suit)
    ensures
        spec_index_suit(spec_suit_index(suit)) == suit,
        0 <= spec_suit_index(suit) < 4,
{
}

pub fn get_card_suit_index(suit: Suit) -> (index: usize)
    ensures
        index == spec_suit_index(suit),
        spec_index_suit(index as int) == suit,
{
    match suit {
        Suit::Spades => 0,
        Suit::Hearts => 1,
        Suit::Clubs => 2,
        Suit::Diamonds => 3,
    }
}

pub fn get_suit_by_card_suit_index(index: usize) -> (suit: Suit)
    requires
        index < 4,
    ensures
        suit == spec_index_suit(index as int),
        spec_suit_index(suit) == index,
{
    if index == 0 {
        Suit::Spades
    } else if index == 1 {
        Suit::Hearts
    } else if index == 2 {
        Suit::Clubs
    } else {
        Suit::Diamonds
    }
}

/// The game is won exactly when every foundation pile holds all 13 ranks.
pub fn check_win(foundation: &Foundation) -> (won: bool)
    ensures
        won == foundation.is_won(),
{
    let mut index: usize = 0;
    while index < foundation.cards.len()
        invariant
            0 <= index <= foundation.cards@.len(),
            forall|i: int| 0 <= i < index ==> (#[trigger] foundation.cards@[i])@.len() == 13,
        decreases foundation.cards@.len() - index,
    {
        if foundation.cards[index].len() != 13 {
            return false;
        }
        index += 1;
    }
    true
}

} // verus!
