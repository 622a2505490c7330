//! The stock: the face-down draw pile, created once per game with all 52
//! cards in random order.

use vstd::prelude::*;

use crate::card::{Card, Suit};
use crate::utils::{get_suit_by_card_suit_index, spec_index_suit};
use crate::waste::Waste;

use rand::seq::SliceRandom;

verus! {

/// The 52-card deck in construction order: ranks 1..=13 of Spades, then of
/// Hearts, Clubs and Diamonds.
pub open spec fn standard_deck() -> Seq<Card> {
    Seq::new(
        52,
        |k: int| Card { suit: spec_index_suit(k / 13), rank: (k % 13 + 1) as u8 },
    )
}

/// The face-down draw pile; the last element is the top, the next card dealt.
pub struct Stock {
    pub cards: Vec<Card>,
}

/// Relies on rand's `SliceRandom::shuffle`: it permutes the slice in place,
/// so the cards afterwards are the same multiset as before.
#[verifier::external_body]
fn shuffle_cards(cards: &mut Vec<Card>)
    ensures
        final(cards)@.to_multiset() == old(cards)@.to_multiset(),
{
    cards.as_mut_slice().shuffle(&mut rand::rng());
}

impl Stock {
    /// Every card in the pile is a real card (rank `1..=13`).
    pub open spec fn wf(self) -> bool {
        forall|k: int| 0 <= k < self.cards@.len() ==> (#[trigger] self.cards@[k]).wf()
    }

    /// Build the full deck and shuffle it.
    pub fn new() -> (stock: Stock)
        ensures
            stock.cards@.to_multiset() == standard_deck().to_multiset(),
            stock.cards@.len() == 52,
            stock.wf(),
    {
        let mut cards: Vec<Card> = Vec::with_capacity(52);
        let mut k: usize = 0;
        while k < 52
            invariant
                0 <= k <= 52,
                cards@ =~= standard_deck().take(k as int),
            decreases 52 - k,
        {
            let suit = get_suit_by_card_suit_index(k / 13);
            let rank = (k % 13 + 1) as u8;
            let card = Card::new(suit, rank);
            proof {
                assert(standard_deck()[k as int] == card);
            }
            cards.push(card);
            k += 1;
        }
        proof {
            assert(cards@ =~= standard_deck());
        }

        shuffle_cards(&mut cards);

        let stock = Stock { cards };
        proof {
            broadcast use vstd::seq_lib::group_to_multiset_ensures;

            assert(stock.cards@.len() == stock.cards@.to_multiset().len());
            assert(standard_deck().len() == standard_deck().to_multiset().len());
            assert forall|i: int| 0 <= i < stock.cards@.len() implies (
            #[trigger] stock.cards@[i]).wf() by {
                let c = stock.cards@[i];
                assert(stock.cards@.contains(c));
                assert(stock.cards@.to_multiset().count(c) > 0);
                assert(standard_deck().to_multiset().count(c) > 0);
                assert(standard_deck().contains(c));
                let j = choose|j: int| 0 <= j < 52 && standard_deck()[j] == c;
                assert(0 <= j % 13 < 13);
            }
        }
        stock
    }

    /// Remove and return the topmost card. Callers must check for emptiness
    /// first: dealing from an empty stock is a caller bug.
    pub fn deal(&mut self) -> (card: Card)
        requires
            old(self).cards@.len() > 0,
            old(self).wf(),
        ensures
            card == old(self).cards@.last(),
            final(self).cards@ == old(self).cards@.drop_last(),
            final(self).wf(),
            card.wf(),
    {
        let card = self.cards.pop().unwrap();
        proof {
            assert(self.cards@ =~= old(self).cards@.drop_last());
        }
        card
    }

    /// Replace the stock's contents with the waste's cards in reverse order
    /// (last discarded becomes first to redraw). The caller must empty the
    /// waste separately.
    pub fn reset(&mut self, waste: &Waste)
        ensures
            final(self).cards@ == waste.cards@.reverse(),
            waste.wf() ==> final(self).wf(),
    {
        let total = waste.cards.len();
        let mut cards: Vec<Card> = Vec::new();
        let mut k: usize = 0;
        while k < total
            invariant
                total == waste.cards@.len(),
                0 <= k <= total,
                cards@.len() == k,
                forall|m: int| 0 <= m < k ==> cards@[m] == waste.cards@[total - 1 - m],
            decreases total - k,
        {
            cards.push(waste.cards[total - 1 - k]);
            k += 1;
        }
        proof {
            assert(cards@ =~= waste.cards@.reverse());
        }
        self.cards = cards;
    }
}

} // verus!
