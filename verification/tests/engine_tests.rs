use klondike::card::{Card, Suit};
use klondike::engine::{Command, GameEngine};
use klondike::foundation::Foundation;
use klondike::location::Location;
use klondike::stock::Stock;
use klondike::tableau::Tableau;
use klondike::waste::Waste;

/// An engine over hand-picked piles: empty stock and waste, seven empty
/// fully-face-up tableau columns, and whatever foundation is given.
fn engine_with(foundation: Foundation) -> GameEngine {
    let mut tableau = Tableau::new();
    tableau.cards = vec![
        vec![],
        vec![],
        vec![],
        vec![],
        vec![],
        vec![],
        vec![],
    ];
    tableau.cutoffs = vec![0, 0, 0, 0, 0, 0, 0];

    GameEngine {
        exit: false,
        selected: Location::Stock,
        active: None,
        stock: Stock { cards: vec![] },
        waste: Waste::new(),
        tableau,
        foundation,
        won: false,
    }
}

fn full_foundation() -> Foundation {
    let mut foundation = Foundation::new();
    let suits = [Suit::Spades, Suit::Hearts, Suit::Clubs, Suit::Diamonds];
    for rank in 1..=13u8 {
        for suit in suits {
            assert!(foundation.add_card(Card::new(suit, rank), suit));
        }
    }
    foundation
}

fn total_card_count(engine: &GameEngine) -> usize {
    let mut total = engine.stock.cards.len() + engine.waste.cards.len();
    for column in &engine.tableau.cards {
        total += column.len();
    }
    for pile in &engine.foundation.cards {
        total += pile.len();
    }
    total
}

fn count_of(engine: &GameEngine, suit: Suit, rank: u8) -> usize {
    let mut found = 0;
    let matches = |card: &Card| card.suit == suit && card.rank == rank;
    found += engine.stock.cards.iter().filter(|c| matches(c)).count();
    found += engine.waste.cards.iter().filter(|c| matches(c)).count();
    for column in &engine.tableau.cards {
        found += column.iter().filter(|c| matches(c)).count();
    }
    for pile in &engine.foundation.cards {
        found += pile.iter().filter(|c| matches(c)).count();
    }
    found
}

#[test]
fn test_initialize_layout() {
    let mut engine = GameEngine::new();
    engine.initialize();

    assert_eq!(engine.stock.cards.len(), 24);
    assert!(engine.waste.cards.is_empty());
    for i in 0..7 {
        assert_eq!(engine.tableau.cards[i].len(), i + 1);
        assert_eq!(engine.tableau.cutoffs[i] as usize, i);
    }
    assert_eq!(engine.selected, Location::Stock);
    assert_eq!(engine.active, None);
}

#[test]
fn test_card_conservation_through_play() {
    let mut engine = GameEngine::new();
    engine.initialize();

    let commands = [
        Command::Select,
        Command::Select,
        Command::MoveDown,
        Command::Select,
        Command::MoveRight,
        Command::Select,
        Command::AutoPlace,
        Command::MoveUp,
        Command::Select,
        Command::Select,
        Command::MoveDown,
        Command::AutoPlace,
    ];
    for command in commands {
        engine.apply_command(command);
        assert_eq!(total_card_count(&engine), 52);
    }

    let suits = [Suit::Spades, Suit::Hearts, Suit::Clubs, Suit::Diamonds];
    for suit in suits {
        for rank in 1..=13u8 {
            assert_eq!(count_of(&engine, suit, rank), 1);
        }
    }
}

#[test]
fn test_deselect_is_idempotent() {
    let mut engine = GameEngine::new();
    engine.initialize();

    engine.apply_command(Command::MoveDown);
    assert_eq!(engine.selected, Location::Tableau(0));

    engine.apply_command(Command::Select);
    assert_eq!(engine.active, Some(Location::Tableau(0)));

    let stock_before = engine.stock.cards.clone();
    let waste_before = engine.waste.cards.clone();
    let tableau_before = engine.tableau.cards.clone();
    let cutoffs_before = engine.tableau.cutoffs.clone();
    let foundation_before = engine.foundation.cards.clone();

    engine.apply_command(Command::Select);
    assert_eq!(engine.active, None);
    assert_eq!(engine.stock.cards, stock_before);
    assert_eq!(engine.waste.cards, waste_before);
    assert_eq!(engine.tableau.cards, tableau_before);
    assert_eq!(engine.tableau.cutoffs, cutoffs_before);
    assert_eq!(engine.foundation.cards, foundation_before);
}

#[test]
fn test_select_stock_deals_into_waste() {
    let mut engine = GameEngine::new();
    engine.initialize();

    engine.apply_command(Command::Select);
    assert_eq!(engine.stock.cards.len(), 23);
    assert_eq!(engine.waste.cards.len(), 1);
    assert_eq!(engine.active, Some(Location::Waste));
}

#[test]
fn test_empty_stock_refills_from_waste() {
    let mut engine = GameEngine::new();
    engine.initialize();

    for _ in 0..24 {
        engine.apply_command(Command::Select);
    }
    assert!(engine.stock.cards.is_empty());
    assert_eq!(engine.waste.cards.len(), 24);

    engine.apply_command(Command::Select);
    assert_eq!(engine.stock.cards.len(), 23);
    assert_eq!(engine.waste.cards.len(), 1);
}

#[test]
fn test_navigation_grid() {
    let mut engine = GameEngine::new();
    engine.initialize();

    engine.apply_command(Command::MoveRight);
    assert_eq!(engine.selected, Location::Waste);
    engine.apply_command(Command::MoveRight);
    assert_eq!(engine.selected, Location::Foundation(0));
    engine.apply_command(Command::MoveDown);
    assert_eq!(engine.selected, Location::Tableau(3));
    engine.apply_command(Command::MoveLeft);
    assert_eq!(engine.selected, Location::Tableau(2));
    engine.apply_command(Command::MoveUp);
    assert_eq!(engine.selected, Location::Waste);
    engine.apply_command(Command::MoveLeft);
    assert_eq!(engine.selected, Location::Stock);
    engine.apply_command(Command::MoveUp);
    assert_eq!(engine.selected, Location::Stock);
}

#[test]
fn test_quit_sets_exit_flag() {
    let mut engine = GameEngine::new();
    engine.initialize();

    assert!(!engine.exit);
    engine.apply_command(Command::Quit);
    assert!(engine.exit);
}

#[test]
fn test_autoplace_from_waste() {
    let mut engine = engine_with(Foundation::new());
    engine.waste.add(Card::new(Suit::Spades, 1));
    engine.selected = Location::Waste;

    engine.apply_command(Command::AutoPlace);

    assert!(engine.waste.cards.is_empty());
    assert_eq!(engine.foundation.cards[0].len(), 1);
    assert_eq!(engine.active, None);
}

#[test]
fn test_autoplace_rejects_out_of_order_card() {
    let mut engine = engine_with(Foundation::new());
    engine.waste.add(Card::new(Suit::Spades, 5));
    engine.selected = Location::Waste;

    engine.apply_command(Command::AutoPlace);

    assert_eq!(engine.waste.cards.len(), 1);
    assert!(engine.foundation.cards[0].is_empty());
}

#[test]
fn test_select_moves_king_from_waste_to_empty_column() {
    let mut engine = engine_with(Foundation::new());
    engine.waste.add(Card::new(Suit::Hearts, 13));
    engine.selected = Location::Tableau(0);
    engine.active = Some(Location::Waste);

    engine.apply_command(Command::Select);

    assert!(engine.waste.cards.is_empty());
    assert_eq!(engine.tableau.cards[0].len(), 1);
    assert_eq!(engine.tableau.cards[0][0].rank, 13);
    assert_eq!(engine.active, None);
}

#[test]
fn test_won_and_permissive_take_back() {
    let mut engine = engine_with(full_foundation());

    engine.update_won();
    assert!(engine.won);

    // With everything on the foundations, dealing and auto-placing change
    // nothing and the game stays won.
    engine.apply_command(Command::Select);
    engine.apply_command(Command::AutoPlace);
    engine.update_won();
    assert!(engine.won);

    // A take-back stays legal even after the win: the King of Spades moves
    // back onto an empty column, and the game is no longer won.
    engine.selected = Location::Tableau(0);
    engine.active = Some(Location::Foundation(0));
    engine.apply_command(Command::Select);
    engine.update_won();

    assert_eq!(engine.foundation.cards[0].len(), 12);
    assert_eq!(engine.tableau.cards[0].len(), 1);
    assert_eq!(engine.tableau.cards[0][0].rank, 13);
    assert!(!engine.won);
    assert_eq!(total_card_count(&engine), 52);
}
