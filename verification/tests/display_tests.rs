use klondike::card::Suit;
use klondike::display::get_card;

#[test]
fn test_get_card() {
    assert_eq!(get_card(Suit::Hearts, 8), "8 ♥");
    assert_eq!(get_card(Suit::Spades, 13), "King ♠");
}

#[test]
fn test_get_card_edge_ranks() {
    assert_eq!(get_card(Suit::Diamonds, 0), " ♦");
    assert_eq!(get_card(Suit::Clubs, 1), "Ace ♣");
    assert_eq!(get_card(Suit::Hearts, 11), "Jack ♥");
    assert_eq!(get_card(Suit::Spades, 12), "Queen ♠");
    assert_eq!(get_card(Suit::Spades, 77), "Error ♠");
}
