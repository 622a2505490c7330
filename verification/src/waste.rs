//! The waste pile: the face-up discard stack fed by the stock.

use vstd::prelude::*;

use crate::card::Card;

verus! {

/// An ordered stack of face-up cards; the last element is the top, the card
/// dealt most recently.
pub struct Waste {
    pub cards: Vec<Card>,
}

impl Waste {
    /// Every card on the pile is a real card (rank `1..=13`).
    pub open spec fn wf(self) -> bool {
        forall|k: int| 0 <= k < self.cards@.len() ==> (#[trigger] self.cards@[k]).wf()
    }

    pub fn new() -> (waste: Waste)
        ensures
            waste.cards@ == Seq::<Card>::empty(),
            waste.wf(),
    {
        Waste { cards: Vec::new() }
    }

    /// Push a card on top of the pile.
    pub fn add(&mut self, card: Card)
        ensures
            final(self).cards@ == old(self).cards@.push(card),
            old(self).wf() && card.wf() ==> final(self).wf(),
    {
        self.cards.push(card);
    }

    /// Discard the top card; on an empty pile nothing happens.
    pub fn remove(&mut self)
        ensures
            old(self).cards@.len() > 0 ==> final(self).cards@ == old(self).cards@.drop_last(),
            old(self).cards@.len() == 0 ==> final(self).cards@ == old(self).cards@,
            old(self).wf() ==> final(self).wf(),
    {
        self.cards.pop();
    }

    /// The top card, without removing it.
    pub fn get_top_card(&self) -> (top: Option<Card>)
        ensures
            top == (if self.cards@.len() == 0 {
                None::<Card>
            } else {
                Some(self.cards@.last())
            }),
    {
        if self.cards.is_empty() {
            return None;
        }

        Some(self.cards[self.cards.len() - 1])
    }

    /// The up-to-three most recently added cards, most recent first: a
    /// read-only visibility window for rendering.
    pub fn get_last_cards(&self) -> (last: Vec<Card>)
        ensures
            last@.len() == (if self.cards@.len() < 3 {
                self.cards@.len()
            } else {
                3
            }),
            forall|k: int|
                0 <= k < last@.len() ==> last@[k] == self.cards@[self.cards@.len() - 1 - k],
    {
        let mut last: Vec<Card> = Vec::new();
        let total = self.cards.len();
        let amount_to_take = if total < 3 {
            total
        } else {
            3
        };

        let mut k: usize = 0;
        while k < amount_to_take
            invariant
                total == self.cards@.len(),
                amount_to_take <= self.cards@.len(),
                0 <= k <= amount_to_take,
                last@.len() == k,
                forall|m: int|
                    0 <= m < k ==> last@[m] == self.cards@[self.cards@.len() - 1 - m],
            decreases amount_to_take - k,
        {
            last.push(self.cards[total - 1 - k]);
            k += 1;
        }
        last
    }

    /// Clear the pile; used together with `Stock::reset`.
    pub fn reset(&mut self)
        ensures
            final(self).cards@ == Seq::<Card>::empty(),
            final(self).wf(),
    {
        self.cards = Vec::new();
    }
}

} // verus!
