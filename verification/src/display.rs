//! The textual name of a card, as the renderer shows it.

use vstd::prelude::*;
use vstd::string::StringExecFns;

use crate::card::Suit;

verus! {

/// The symbol the renderer uses for a suit.
pub open spec fn spec_suit_symbol(suit: Suit) -> Seq<char> {
    match suit {
        Suit::Spades => "♠"@,
        Suit::Hearts => "♥"@,
        Suit::Clubs => "♣"@,
        Suit::Diamonds => "♦"@,
    }
}

/// The name of a rank: empty for 0 (no card), the word for an Ace or a
/// court card, the digits otherwise; ranks above 13 do not name a card.
pub open spec fn spec_rank_name(rank: u8) -> Seq<char> {
    if rank == 0 {
        ""@
    } else if rank == 1 {
        "Ace"@
    } else if rank == 2 {
        "2"@
    } else if rank == 3 {
        "3"@
    } else if rank == 4 {
        "4"@
    } else if rank == 5 {
        "5"@
    } else if rank == 6 {
        "6"@
    } else if rank == 7 {
        "7"@
    } else if rank == 8 {
        "8"@
    } else if rank == 9 {
        "9"@
    } else if rank == 10 {
        "10"@
    } else if rank == 11 {
        "Jack"@
    } else if rank == 12 {
        "Queen"@
    } else if rank == 13 {
        "King"@
    } else {
        "Error"@
    }
}

/// The label shown for a card: its rank name, a space, and its suit symbol.
pub fn get_card(suit: Suit, rank: u8) -> (label: String)
    ensures
        label@ == spec_rank_name(rank) + " "@ + spec_suit_symbol(suit),
{
    let rank_str: &str = if rank == 0 {
        ""
    } else if rank == 1 {
        "Ace"
    } else if rank == 2 {
        "2"
    } else if rank == 3 {
        "3"
    } else if rank == 4 {
        "4"
    } else if rank == 5 {
        "5"
    } else if rank == 6 {
        "6"
    } else if rank == 7 {
        "7"
    } else if rank == 8 {
        "8"
    } else if rank == 9 {
        "9"
    } else if rank == 10 {
        "10"
    } else if rank == 11 {
        "Jack"
    } else if rank == 12 {
        "Queen"
    } else if rank == 13 {
        "King"
    } else {
        "Error"
    };

    let suit_str: &str = match suit {
        Suit::Spades => "♠",
        Suit::Hearts => "♥",
        Suit::Clubs => "♣",
        Suit::Diamonds => "♦",
    };

    let label = String::from_str(rank_str).concat(" ").concat(suit_str);
    proof {
        assert(label@ =~= spec_rank_name(rank) + " "@ + spec_suit_symbol(suit));
    }
    label
}

} // verus!
