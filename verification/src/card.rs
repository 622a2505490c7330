//! Cards and suits: the immutable values the whole engine works on.

use vstd::prelude::*;

verus! {

/// One of the four French suits.
#[derive(Copy, Clone, Debug, PartialEq, Eq, Structural)]
pub enum Suit {
    Spades,
    Hearts,
    Clubs,
    Diamonds,
}

/// True for the red suits (hearts and diamonds); false for the black ones.
pub open spec fn is_red(suit: Suit) -> bool {
    suit == Suit::Hearts || suit == Suit::Diamonds
}

/// Executable color test matching [`is_red`].
pub fn suit_is_red(suit: Suit) -> (r: bool)
    ensures
        r == is_red(suit),
{
    matches!(suit, Suit::Hearts | Suit::Diamonds)
}

/// One of the 52 cards of a standard deck: a suit and a rank in `1..=13`
/// (1 is the Ace, 11/12/13 are Jack/Queen/King).
#[derive(Copy, Clone, Debug, PartialEq, Eq, Structural)]
pub struct Card {
    pub suit: Suit,
    pub rank: u8,
}

impl Card {
    /// A card's rank is always in `1..=13`.
    pub open spec fn wf(self) -> bool {
        1 <= self.rank <= 13
    }

    pub fn new(suit: Suit, rank: u8) -> (card: Card)
        requires
            1 <= rank <= 13,
        ensures
            card.suit == suit,
            card.rank == rank,
            card.wf(),
    {
        Card { suit, rank }
    }
}

} // verus!
