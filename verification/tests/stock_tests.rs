use klondike::card::{Card, Suit};
use klondike::stock::Stock;
use klondike::waste::Waste;

#[test]
fn test_deal() {
    let mut mock_stock = Stock::new();
    let mock_stock_size = mock_stock.cards.len();
    let _card = mock_stock.deal();
    assert_eq!(mock_stock_size - 1, mock_stock.cards.len());
}

#[test]
fn stock_test_reset() {
    let mut mock_stock = Stock::new();
    let mut mock_waste = Waste::new();

    let mock_stock_card = mock_stock.deal();
    mock_waste.add(mock_stock_card);

    mock_stock.reset(&mock_waste);
    let reversed_cards: Vec<_> = mock_stock.cards.clone().into_iter().rev().collect();

    assert_eq!(mock_stock.cards[0].rank, reversed_cards[0].rank);
    assert_eq!(mock_stock.cards[0].suit, reversed_cards[0].suit);
}

#[test]
fn test_new_stock_holds_every_card_once() {
    let stock = Stock::new();
    assert_eq!(stock.cards.len(), 52);

    let suits = [Suit::Spades, Suit::Hearts, Suit::Clubs, Suit::Diamonds];
    for suit in suits {
        for rank in 1..=13u8 {
            let count = stock
                .cards
                .iter()
                .filter(|card| card.suit == suit && card.rank == rank)
                .count();
            assert_eq!(count, 1);
        }
    }
}

#[test]
fn test_reset_reverses_waste_order() {
    let mut stock = Stock::new();
    let mut waste = Waste::new();
    waste.add(Card::new(Suit::Spades, 3));
    waste.add(Card::new(Suit::Hearts, 7));
    waste.add(Card::new(Suit::Clubs, 11));

    stock.reset(&waste);

    assert_eq!(stock.cards.len(), 3);
    assert_eq!(stock.cards[0].rank, 11);
    assert_eq!(stock.cards[1].rank, 7);
    assert_eq!(stock.cards[2].rank, 3);
}
