use klondike::card::{Card, Suit};
use klondike::location::Location;
use klondike::stock::Stock;
use klondike::tableau::Tableau;

fn mock_tableau() -> Tableau {
    let mut stock = Stock::new();
    let mut tableau = Tableau::new();

    tableau.initialize(&mut stock);

    tableau
}

fn opposite_color_suit(suit: Suit) -> Suit {
    match suit {
        Suit::Spades | Suit::Clubs => Suit::Hearts,
        Suit::Hearts | Suit::Diamonds => Suit::Spades,
    }
}

fn same_color_suit(suit: Suit) -> Suit {
    match suit {
        Suit::Spades => Suit::Clubs,
        Suit::Clubs => Suit::Spades,
        Suit::Hearts => Suit::Diamonds,
        Suit::Diamonds => Suit::Hearts,
    }
}

#[test]
fn tableau_test_get_top_card() {
    let mut tableau = mock_tableau();
    assert!(tableau.get_top_card(Location::Tableau(1)).is_some());
}

#[test]
fn tableau_test_add_card() {
    let mut tableau = mock_tableau();

    let mut current_card = match tableau.get_top_card(Location::Tableau(2)) {
        Some(card) => card,
        _ => panic!("Top card not found"),
    };

    while current_card.rank < 5 {
        tableau = mock_tableau();
        current_card = match tableau.get_top_card(Location::Tableau(2)) {
            Some(card) => card,
            _ => panic!("Top card not found"),
        };
    }

    let first_card = Card::new(
        opposite_color_suit(current_card.suit),
        current_card.rank - 1,
    );
    assert!(tableau.add_card(Location::Tableau(2), first_card));
    assert_eq!(tableau.cards[2].len(), 4);

    let wrong_number_card = Card::new(opposite_color_suit(first_card.suit), 12);
    assert!(!tableau.add_card(Location::Tableau(2), wrong_number_card));
    assert_eq!(tableau.cards[2].len(), 4);

    let wrong_suit_card = Card::new(same_color_suit(first_card.suit), first_card.rank - 1);
    assert!(!tableau.add_card(Location::Tableau(2), wrong_suit_card));
    assert_eq!(tableau.cards[2].len(), 4);

    tableau.take_cards_at_index(Location::Tableau(0), 0);
    assert_eq!(tableau.cards[0].len(), 0);

    assert!(!tableau.add_card(Location::Tableau(0), first_card));
    assert_eq!(tableau.cards[0].len(), 0);

    let king_card = Card::new(Suit::Clubs, 13);
    assert!(tableau.add_card(Location::Tableau(0), king_card));
    assert_eq!(tableau.cards[0].len(), 1);
}

#[test]
fn test_try_to_move_between_tableau() {
    let mut tableau = Tableau::new();

    tableau.cards = vec![
        vec![Card::new(Suit::Clubs, 5)],
        vec![Card::new(Suit::Clubs, 6), Card::new(Suit::Hearts, 4)],
        vec![Card::new(Suit::Clubs, 7)],
        vec![],
        vec![Card::new(Suit::Hearts, 13)],
        vec![],
        vec![],
    ];

    tableau.try_to_move_between_tableau(Location::Tableau(1), Location::Tableau(0));
    assert_eq!(tableau.cards[0].len(), 2);
    assert_eq!(tableau.cards[0][1].rank, 4);
    assert_eq!(tableau.cards[1].len(), 1);
}

#[test]
fn test_move_run_onto_king_and_reject_ace() {
    let mut tableau = Tableau::new();

    // One column holds a lone King of Clubs, fully face up; another holds a
    // visible run starting with the Queen of Hearts.
    tableau.cards = vec![
        vec![Card::new(Suit::Clubs, 13)],
        vec![Card::new(Suit::Hearts, 12), Card::new(Suit::Spades, 11)],
        vec![Card::new(Suit::Diamonds, 1)],
        vec![],
        vec![],
        vec![],
        vec![],
    ];
    tableau.cutoffs = vec![0, 0, 0, 0, 0, 0, 0];

    tableau.try_to_move_between_tableau(Location::Tableau(1), Location::Tableau(0));
    assert_eq!(tableau.cards[0].len(), 3);
    assert_eq!(tableau.cards[0][1].rank, 12);
    assert_eq!(tableau.cards[0][2].rank, 11);
    assert!(tableau.cards[1].is_empty());

    // An Ace cannot move onto the King: the column keeps its run.
    tableau.try_to_move_between_tableau(Location::Tableau(2), Location::Tableau(0));
    assert_eq!(tableau.cards[0].len(), 3);
    assert_eq!(tableau.cards[2].len(), 1);
}

#[test]
fn test_initial_deal_layout() {
    let tableau = mock_tableau();

    for i in 0..7 {
        assert_eq!(tableau.cards[i].len(), i + 1);
        assert_eq!(tableau.cutoffs[i] as usize, i);
        assert!(tableau.get_visible_cards(i).len() == 1);
    }
}

#[test]
fn test_update_cutoffs_reveals_before_removal() {
    let mut tableau = Tableau::new();

    tableau.cards = vec![
        vec![Card::new(Suit::Clubs, 9), Card::new(Suit::Hearts, 2)],
        vec![],
        vec![],
        vec![],
        vec![],
        vec![],
        vec![],
    ];
    tableau.cutoffs = vec![1, 0, 0, 0, 0, 0, 0];

    tableau.update_cutoffs(0);
    assert_eq!(tableau.cutoffs[0], 0);

    // The boundary moves only when it sits exactly one below the top.
    tableau.update_cutoffs(0);
    assert_eq!(tableau.cutoffs[0], 0);

    // Cutoffs never exceed the column length.
    for i in 0..7 {
        assert!(tableau.cutoffs[i] as usize <= tableau.cards[i].len());
    }
}

#[test]
fn test_take_cards_preserves_cutoff_bound() {
    let mut tableau = mock_tableau();

    // Taking every visible card from a column reveals the card beneath.
    let taken = tableau.take_cards_at_index(Location::Tableau(6), 6);
    assert_eq!(taken.len(), 1);
    assert_eq!(tableau.cards[6].len(), 6);
    assert_eq!(tableau.cutoffs[6], 5);

    for i in 0..7 {
        assert!(tableau.cutoffs[i] as usize <= tableau.cards[i].len());
    }
}
