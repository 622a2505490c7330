use klondike::card::{Card, Suit};
use klondike::foundation::Foundation;
use klondike::utils::{check_win, get_card_suit_index, get_suit_by_card_suit_index};

#[test]
fn test_get_card_suit_index() {
    assert_eq!(get_card_suit_index(Suit::Hearts), 1);
}

#[test]
fn test_get_suit_by_card_suit_index() {
    assert_eq!(get_suit_by_card_suit_index(2), Suit::Clubs);
}

#[test]
fn test_check_win() {
    let mut mock_foundation = Foundation::new();

    assert!(!check_win(&mock_foundation));

    let mut index = 0;

    while index < 13 {
        let rank = index + 1;
        let spade = Card::new(Suit::Spades, rank);
        let heart = Card::new(Suit::Hearts, rank);
        let club = Card::new(Suit::Clubs, rank);
        let diamond = Card::new(Suit::Diamonds, rank);

        mock_foundation.add_card(spade, Suit::Spades);
        mock_foundation.add_card(heart, Suit::Hearts);
        mock_foundation.add_card(club, Suit::Clubs);
        mock_foundation.add_card(diamond, Suit::Diamonds);
        index += 1;
    }

    assert!(check_win(&mock_foundation));
}

#[test]
fn test_suit_index_round_trip() {
    let suits = [Suit::Spades, Suit::Hearts, Suit::Clubs, Suit::Diamonds];
    for suit in suits {
        assert_eq!(get_suit_by_card_suit_index(get_card_suit_index(suit)), suit);
    }
}
