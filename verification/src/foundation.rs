//! The foundations: four ascending same-suit piles; filling all four wins
//! the game.

use vstd::multiset::Multiset;
use vstd::prelude::*;

use crate::card::Card;
use crate::card::Suit;
use crate::location::Location;
use crate::utils::{
    get_card_suit_index, lemma_multiset_insert_exchange, lemma_piles_multiset_update,
    lemma_suit_round_trip, pile_views, piles_multiset, spec_index_suit, spec_suit_index,
};

verus! {

/// Four piles of cards, indexed by suit (see `spec_suit_index`). A pile for
/// the suit at index `i` always holds exactly the cards rank 1..=r of that
/// suit, bottom to top, for some r.
pub struct Foundation {
    pub cards: Vec<Vec<Card>>,
}

impl Foundation {
    /// The pile for the suit at index `i`.
    pub open spec fn pile(self, i: int) -> Seq<Card> {
        self.cards@[i]@
    }

    /// There are four piles, and pile `i` holds exactly the cards
    /// rank 1..=len of the suit at index `i`, in ascending order.
    pub open spec fn wf(self) -> bool {
        &&& self.cards@.len() == 4
        &&& forall|i: int| 0 <= i < 4 ==> #[trigger] self.pile(i).len() <= 13
        &&& forall|i: int, j: int|
            0 <= i < 4 && 0 <= j < self.pile(i).len() ==> #[trigger] self.pile(i)[j] == (Card {
                suit: spec_index_suit(i),
                rank: (j + 1) as u8,
            })
    }

    /// Every card currently held by the four piles, as one multiset.
    pub open spec fn all_cards(self) -> Multiset<Card> {
        piles_multiset(pile_views(self.cards@))
    }

    /// Does the foundation accept `card` addressed to `to_suit`: the card's
    /// own suit must be `to_suit`, and its rank the next one owed to its
    /// pile (an Ace on an empty pile, otherwise top rank + 1).
    pub open spec fn accepts(self, card: Card, to_suit: Suit) -> bool {
        card.suit == to_suit && card.rank as int == self.pile(spec_suit_index(card.suit)).len()
            + 1
    }

    /// Win condition: every pile holds all 13 ranks.
    pub open spec fn is_won(self) -> bool {
        forall|i: int| 0 <= i < self.cards@.len() ==> (#[trigger] self.cards@[i])@.len() == 13
    }

    /// The rank of the top card of the pile at `i`, or 0 for an empty pile.
    pub open spec fn spec_top_value(self, i: int) -> int {
        self.pile(i).len() as int
    }

    pub fn new() -> (foundation: Foundation)
        ensures
            foundation.wf(),
            forall|i: int| 0 <= i < 4 ==> #[trigger] foundation.pile(i).len() == 0,
    {
        let mut cards: Vec<Vec<Card>> = Vec::new();
        cards.push(Vec::new());
        cards.push(Vec::new());
        cards.push(Vec::new());
        cards.push(Vec::new());
        Foundation { cards }
    }

    /// The top card of the addressed pile; `None` for an empty pile or for a
    /// location that is not a foundation.
    pub fn get_top_card(&self, location: Location) -> (top: Option<Card>)
        requires
            self.wf(),
            location matches Location::Foundation(index) ==> index < 4,
        ensures
            top == (match location {
                Location::Foundation(index) => if self.pile(index as int).len() == 0 {
                    None::<Card>
                } else {
                    Some(self.pile(index as int).last())
                },
                _ => None::<Card>,
            }),
    {
        if let Location::Foundation(index) = location {
            let pile = &self.cards[index];
            if pile.len() == 0 {
                None
            } else {
                Some(pile[pile.len() - 1])
            }
        } else {
            None
        }
    }

    /// The top card of the pile owning `suit`.
    pub fn get_top_card_by_suit(&self, suit: Suit) -> (top: Option<Card>)
        requires
            self.wf(),
        ensures
            top == (if self.pile(spec_suit_index(suit)).len() == 0 {
                None::<Card>
            } else {
                Some(self.pile(spec_suit_index(suit)).last())
            }),
    {
        let index = get_card_suit_index(suit);
        let pile = &self.cards[index];
        if pile.len() == 0 {
            None
        } else {
            Some(pile[pile.len() - 1])
        }
    }

    /// The top rank of the addressed pile; 0 signals an empty pile (0 is not
    /// a valid rank).
    pub fn get_top_value(&self, location: Location) -> (value: u8)
        requires
            self.wf(),
            location matches Location::Foundation(index) ==> index < 4,
        ensures
            value as int == (match location {
                Location::Foundation(index) => self.spec_top_value(index as int),
                _ => 0,
            }),
    {
        match self.get_top_card(location) {
            Some(card) => card.rank,
            _ => 0,
        }
    }

    /// Try to place `card` on the pile addressed by `to_suit`. Rejected when
    /// the card's own suit differs from `to_suit`, or when the card's rank is
    /// not the next rank owed to its pile (an Ace on an empty pile, otherwise
    /// top rank + 1). On rejection nothing changes.
    pub fn add_card(&mut self, card: Card, to_suit: Suit) -> (added: bool)
        requires
            old(self).wf(),
            card.wf(),
        ensures
            final(self).wf(),
            added == (card.suit == to_suit && card.rank as int == old(self).pile(
                spec_suit_index(card.suit),
            ).len() + 1),
            added ==> final(self).pile(spec_suit_index(card.suit)) == old(self).pile(
                spec_suit_index(card.suit),
            ).push(card),
            added ==> forall|i: int|
                0 <= i < 4 && i != spec_suit_index(card.suit) ==> #[trigger] final(self).pile(i)
                    == old(self).pile(i),
            added == old(self).accepts(card, to_suit),
            added ==> final(self).all_cards() == old(self).all_cards().insert(card),
            !added ==> *final(self) == *old(self),
    {
        if card.suit != to_suit {
            return false;
        }

        let card_suit_index = get_card_suit_index(card.suit);

        let parent_card = match self.get_top_card_by_suit(card.suit) {
            Some(parent) => parent,
            _ => {
                if card.rank == 1 {
                    self.cards[card_suit_index].push(card);
                    proof {
                        lemma_add_card_wf(*old(self), *self, card, card_suit_index as int);
                    }
                    return true;
                }
                return false;
            },
        };

        if card.rank != parent_card.rank + 1 {
            return false;
        }

        self.cards[card_suit_index].push(card);
        proof {
            lemma_add_card_wf(*old(self), *self, card, card_suit_index as int);
        }
        true
    }

    /// Auto-place: the same acceptance rule as `add_card`, with the target
    /// pile determined by the card's own suit.
    pub fn snap_add(&mut self, card: Card) -> (added: bool)
        requires
            old(self).wf(),
            card.wf(),
        ensures
            final(self).wf(),
            added == old(self).accepts(card, card.suit),
            added ==> final(self).pile(spec_suit_index(card.suit)) == old(self).pile(
                spec_suit_index(card.suit),
            ).push(card),
            added ==> forall|i: int|
                0 <= i < 4 && i != spec_suit_index(card.suit) ==> #[trigger] final(self).pile(i)
                    == old(self).pile(i),
            added ==> final(self).all_cards() == old(self).all_cards().insert(card),
            !added ==> *final(self) == *old(self),
    {
        self.add_card(card, card.suit)
    }

    /// Pop the top card of the addressed pile unconditionally; used only for
    /// taking a card back onto the tableau. The caller must already have
    /// found a destination that accepts it.
    pub fn remove_card(&mut self, location: Location)
        requires
            old(self).wf(),
            location matches Location::Foundation(index) && index < 4,
        ensures
            final(self).wf(),
            match location {
                Location::Foundation(index) => if old(self).pile(index as int).len() > 0 {
                    old(self).all_cards() == final(self).all_cards().insert(
                        old(self).pile(index as int).last(),
                    )
                } else {
                    final(self).all_cards() == old(self).all_cards()
                },
                _ => true,
            },
            match location {
                Location::Foundation(index) => {
                    &&& (if old(self).pile(index as int).len() > 0 {
                        final(self).pile(index as int) == old(self).pile(index as int).drop_last()
                    } else {
                        final(self).pile(index as int) == old(self).pile(index as int)
                    })
                    &&& forall|i: int|
                        0 <= i < 4 && i != index as int ==> #[trigger] final(self).pile(i) == old(
                            self,
                        ).pile(i)
                },
                _ => false,
            },
    {
        if let Location::Foundation(index) = location {
            self.cards[index].pop();
            proof {
                broadcast use vstd::seq_lib::group_to_multiset_ensures;
                broadcast use vstd::multiset::group_multiset_axioms;

                assert forall|i: int| 0 <= i < 4 implies #[trigger] self.pile(i).len() <= 13 by {
                    assert(self.pile(i).len() <= old(self).pile(i).len());
                }
                assert forall|i: int, j: int|
                    0 <= i < 4 && 0 <= j < self.pile(i).len() implies #[trigger] self.pile(i)[j]
                    == (Card { suit: spec_index_suit(i), rank: (j + 1) as u8 }) by {
                    assert(self.pile(i)[j] == old(self).pile(i)[j]);
                }
                let i = index as int;
                if old(self).pile(i).len() > 0 {
                    let card = old(self).pile(i).last();
                    assert forall|c: int| 0 <= c < 4 implies pile_views(self.cards@)[c]
                        == pile_views(old(self).cards@).update(i, self.pile(i))[c] by {
                        assert(pile_views(self.cards@)[c] == self.pile(c));
                        if c != i {
                            assert(pile_views(old(self).cards@).update(i, self.pile(i))[c]
                                == old(self).pile(c));
                        }
                    }
                    assert(pile_views(self.cards@) =~= pile_views(old(self).cards@).update(
                        i,
                        self.pile(i),
                    ));
                    lemma_piles_multiset_update(pile_views(old(self).cards@), i, self.pile(i));
                    assert(pile_views(old(self).cards@)[i] == old(self).pile(i));
                    assert(old(self).pile(i) =~= self.pile(i).push(card));
                    assert(self.pile(i).push(card).to_multiset() =~= self.pile(
                        i,
                    ).to_multiset().insert(card));
                    lemma_multiset_insert_exchange(
                        old(self).all_cards(),
                        self.all_cards(),
                        self.pile(i).to_multiset(),
                        old(self).pile(i).to_multiset(),
                        card,
                    );
                } else {
                    assert forall|c: int| 0 <= c < 4 implies pile_views(self.cards@)[c]
                        == pile_views(old(self).cards@)[c] by {
                        assert(self.pile(c) == old(self).pile(c));
                    }
                    assert(pile_views(self.cards@) =~= pile_views(old(self).cards@));
                }
            }
        }
    }
}

/// Appending the next rank of the right suit to a well-formed foundation
/// keeps it well-formed and adds exactly that card to its total.
proof fn lemma_add_card_wf(pre: Foundation, post: Foundation, card: Card, csi: int)
    requires
        pre.wf(),
        card.wf(),
        csi == spec_suit_index(card.suit),
        card.rank as int == pre.pile(csi).len() + 1,
        post.cards@.len() == 4,
        post.pile(csi) == pre.pile(csi).push(card),
        forall|i: int| 0 <= i < 4 && i != csi ==> #[trigger] post.pile(i) == pre.pile(i),
    ensures
        post.wf(),
        post.all_cards() == pre.all_cards().insert(card),
{
    broadcast use vstd::seq_lib::group_to_multiset_ensures;
    broadcast use vstd::multiset::group_multiset_axioms;

    lemma_suit_round_trip(card.suit);
    assert forall|i: int| 0 <= i < 4 implies pile_views(post.cards@)[i] == pile_views(
        pre.cards@,
    ).update(csi, post.pile(csi))[i] by {
        assert(pile_views(post.cards@)[i] == post.pile(i));
        if i != csi {
            assert(pile_views(pre.cards@).update(csi, post.pile(csi))[i] == pre.pile(i));
        }
    }
    assert(pile_views(post.cards@) =~= pile_views(pre.cards@).update(csi, post.pile(csi)));
    lemma_piles_multiset_update(pile_views(pre.cards@), csi, post.pile(csi));
    assert(pile_views(pre.cards@)[csi] == pre.pile(csi));
    assert(post.all_cards().add(pre.pile(csi).to_multiset()) =~= pre.all_cards().add(
        post.pile(csi).to_multiset(),
    ));
    assert(pre.pile(csi).push(card).to_multiset() =~= pre.pile(csi).to_multiset().insert(card));
    lemma_multiset_insert_exchange(
        post.all_cards(),
        pre.all_cards(),
        pre.pile(csi).to_multiset(),
        post.pile(csi).to_multiset(),
        card,
    );
    lemma_suit_round_trip(card.suit);
    assert forall|i: int, j: int|
        0 <= i < 4 && 0 <= j < post.pile(i).len() implies #[trigger] post.pile(i)[j] == (Card {
        suit: spec_index_suit(i),
        rank: (j + 1) as u8,
    }) by {
        if i == csi && j == pre.pile(csi).len() {
            assert(post.pile(i)[j] == card);
        } else if i == csi {
            assert(post.pile(i)[j] == pre.pile(i)[j]);
        } else {
            assert(post.pile(i)[j] == pre.pile(i)[j]);
        }
    }
}

/// Foundation monotonicity: a well-formed foundation pile holds exactly the
/// ranks 1, 2, ..., r of its own suit, bottom to top, with no gap and no
/// repetition; since cards enter a pile only at rank top + 1 and leave only
/// from the top, the ranks ever placed into it are exactly this sequence.
pub proof fn lemma_foundation_pile_shape(foundation: Foundation, i: int)
    requires
        foundation.wf(),
        0 <= i < 4,
    ensures
        forall|j: int|
            0 <= j < foundation.pile(i).len() ==> (#[trigger] foundation.pile(i)[j]).rank == j
                + 1,
        forall|j: int|
            0 <= j < foundation.pile(i).len() ==> (#[trigger] foundation.pile(i)[j]).suit
                == spec_index_suit(i),
{
}

/// Win monotonicity: once every pile holds all 13 ranks, any step that
/// shrinks no pile leaves the game won — a well-formed pile can never
/// exceed 13 cards, so a full pile that does not shrink stays full.
pub proof fn lemma_win_monotone(pre: Foundation, post: Foundation)
    requires
        pre.cards@.len() == 4,
        pre.is_won(),
        post.wf(),
        forall|i: int| 0 <= i < 4 ==> #[trigger] post.pile(i).len() >= pre.pile(i).len(),
    ensures
        post.is_won(),
{
    assert forall|i: int| 0 <= i < post.cards@.len() implies (
    #[trigger] post.cards@[i])@.len() == 13 by {
        assert(pre.cards@[i]@.len() == 13);
        assert(post.pile(i).len() >= pre.pile(i).len());
        assert(post.pile(i).len() <= 13);
    }
}

} // verus!
