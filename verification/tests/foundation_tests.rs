use klondike::card::{Card, Suit};
use klondike::foundation::Foundation;
use klondike::location::Location;

fn mock_foundation() -> Foundation {
    let mut mock = Foundation::new();

    mock.add_card(Card::new(Suit::Hearts, 1), Suit::Hearts);
    mock.add_card(Card::new(Suit::Hearts, 2), Suit::Hearts);
    mock.add_card(Card::new(Suit::Clubs, 1), Suit::Clubs);

    mock
}

#[test]
fn foundation_test_get_top_card() {
    let foundation = mock_foundation();

    println!("{:?}", foundation.cards);

    let top_card = match foundation.get_top_card(Location::Foundation(1)) {
        Some(card) => card,
        _ => panic!("No card found at position"),
    };

    assert_eq!(top_card.rank, 2);
    assert_eq!(top_card.suit, Suit::Hearts);
}

#[test]
fn test_get_top_card_by_suit() {
    let foundation = mock_foundation();

    let top_card = match foundation.get_top_card_by_suit(Suit::Clubs) {
        Some(card) => card,
        None => panic!("No card found for suit 3"),
    };

    assert_eq!(top_card.rank, 1);
    assert_eq!(top_card.suit, Suit::Clubs);
}

#[test]
fn test_get_top_value() {
    let foundation = mock_foundation();

    assert_eq!(foundation.get_top_value(Location::Foundation(1)), 2);
}

#[test]
fn foundation_test_add_card() {
    let mut foundation = mock_foundation();

    // Cards which shouldn't be accepted & added
    let wrong_rank_card = Card::new(Suit::Hearts, 8);
    foundation.add_card(wrong_rank_card, wrong_rank_card.suit);
    match foundation.get_top_card_by_suit(wrong_rank_card.suit) {
        Some(card) => assert_ne!(card.rank, wrong_rank_card.rank),
        _ => panic!("No card found for suit"),
    }

    let wrong_suit_card = Card::new(Suit::Spades, 2);
    foundation.add_card(wrong_suit_card, Suit::Clubs);
    match foundation.get_top_card_by_suit(Suit::Clubs) {
        Some(card) => assert_ne!(card.rank, wrong_suit_card.rank),
        _ => panic!("No card found for suit"),
    }

    // Card which is added to parent card
    let add_to_parent_card = Card::new(Suit::Hearts, 2);
    foundation.add_card(add_to_parent_card, add_to_parent_card.suit);
    match foundation.get_top_card_by_suit(add_to_parent_card.suit) {
        Some(card) => assert_eq!(card.rank, add_to_parent_card.rank),
        _ => panic!("No card found for suit"),
    }

    // Ace added as a first card
    let first_card = Card::new(Suit::Spades, 1);
    foundation.add_card(first_card, Suit::Spades);
    match foundation.get_top_card_by_suit(first_card.suit) {
        Some(card) => assert_eq!(card.rank, first_card.rank),
        _ => panic!("No card found for suit"),
    }
}

#[test]
fn foundation_test_remove() {
    let mut foundation = mock_foundation();

    let before = foundation.cards[1].len();

    foundation.remove_card(Location::Foundation(1));

    assert_eq!(before - 1, foundation.cards[1].len());
}

#[test]
fn test_ace_then_two_on_spades() {
    let mut foundation = Foundation::new();

    assert!(!foundation.add_card(Card::new(Suit::Spades, 2), Suit::Spades));
    assert!(foundation.cards[0].is_empty());

    assert!(foundation.add_card(Card::new(Suit::Spades, 1), Suit::Spades));
    assert!(foundation.add_card(Card::new(Suit::Spades, 2), Suit::Spades));
    assert_eq!(foundation.get_top_value(Location::Foundation(0)), 2);
}

#[test]
fn test_remove_on_empty_pile_is_noop() {
    let mut foundation = Foundation::new();
    foundation.remove_card(Location::Foundation(3));
    assert!(foundation.cards[3].is_empty());
}

#[test]
fn test_snap_add_targets_own_suit() {
    let mut foundation = Foundation::new();

    assert!(foundation.snap_add(Card::new(Suit::Diamonds, 1)));
    assert!(foundation.snap_add(Card::new(Suit::Diamonds, 2)));
    assert!(!foundation.snap_add(Card::new(Suit::Diamonds, 4)));
    assert_eq!(foundation.get_top_value(Location::Foundation(3)), 2);
    assert!(foundation.cards[0].is_empty());
}
