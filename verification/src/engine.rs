//! The command interpreter: one game's state, the selection cursor, the
//! pending source location, and the dispatch table of legal transfers.

use vstd::multiset::Multiset;
use vstd::prelude::*;

use crate::card::Card;
use crate::foundation::Foundation;
use crate::location::Location;
use crate::stock::{standard_deck, Stock};
use crate::tableau::{
    lemma_pop_multiset, lemma_remove_top_after_reveal, move_rel, push_rel, reveal_pop_rel,
    Tableau,
};
use crate::utils::{check_win, get_suit_by_card_suit_index, spec_index_suit, spec_suit_index};
use crate::waste::Waste;

verus! {

/// A player command, as the input layer hands it to the engine.
#[derive(Copy, Clone, Debug, PartialEq, Eq, Structural)]
pub enum Command {
    MoveLeft,
    MoveRight,
    MoveUp,
    MoveDown,
    Select,
    AutoPlace,
    Quit,
}

/// One running game: the four pile kinds, the cursor, the pending move
/// source, the win flag, and the exit flag consumed by the run loop.
pub struct GameEngine {
    pub exit: bool,
    pub selected: Location,
    pub active: Option<Location>,
    pub stock: Stock,
    pub waste: Waste,
    pub tableau: Tableau,
    pub foundation: Foundation,
    pub won: bool,
}

/// Cursor movement one step to the left on the fixed two-row grid.
pub open spec fn nav_left(loc: Location) -> Location {
    match loc {
        Location::Stock => Location::Stock,
        Location::Waste => Location::Stock,
        Location::Foundation(index) => if index == 0 {
            Location::Waste
        } else {
            Location::Foundation((index - 1) as usize)
        },
        Location::Tableau(index) => if index == 0 {
            Location::Tableau(index)
        } else {
            Location::Tableau((index - 1) as usize)
        },
    }
}

/// Cursor movement one step to the right.
pub open spec fn nav_right(loc: Location) -> Location {
    match loc {
        Location::Stock => Location::Waste,
        Location::Waste => Location::Foundation(0),
        Location::Foundation(index) => if index != 3 {
            Location::Foundation((index + 1) as usize)
        } else {
            Location::Foundation(index)
        },
        Location::Tableau(index) => if index != 6 {
            Location::Tableau((index + 1) as usize)
        } else {
            Location::Tableau(index)
        },
    }
}

/// Cursor movement from the top row down to the tableau column aligned
/// with it.
pub open spec fn nav_down(loc: Location) -> Location {
    match loc {
        Location::Stock => Location::Tableau(0),
        Location::Waste => Location::Tableau(1),
        Location::Foundation(index) => Location::Tableau((3 + index) as usize),
        Location::Tableau(index) => Location::Tableau(index),
    }
}

/// Cursor movement from a tableau column up to the pile aligned with it.
pub open spec fn nav_up(loc: Location) -> Location {
    match loc {
        Location::Tableau(index) => if index == 0 {
            Location::Stock
        } else if index == 1 || index == 2 {
            Location::Waste
        } else {
            Location::Foundation((index - 3) as usize)
        },
        _ => loc,
    }
}

/// One deal from the stock into the waste, refilling the stock from the
/// waste (reversed, without reshuffling) when the stock has run out. With
/// both piles empty nothing happens.
pub open spec fn deal_stock_waste(
    stock: Seq<Card>,
    waste: Seq<Card>,
    stock2: Seq<Card>,
    waste2: Seq<Card>,
) -> bool {
    if stock.len() == 0 && waste.len() == 0 {
        stock2 == stock && waste2 == waste
    } else if stock.len() == 0 {
        stock2 == waste.reverse().drop_last() && waste2 == seq![waste[0]]
    } else {
        stock2 == stock.drop_last() && waste2 == waste.push(stock.last())
    }
}

/// Selecting a tableau column while the waste is active: the waste's top
/// card moves onto the column when the placement rule allows it; either
/// way the pending selection is dropped, except that an empty waste leaves
/// everything untouched.
pub open spec fn take_from_waste_rel(pre: GameEngine, post: GameEngine) -> bool {
    if pre.waste.cards@.len() == 0 {
        post == pre
    } else {
        let card = pre.waste.cards@.last();
        match pre.selected {
            Location::Tableau(t) => if pre.tableau.accepts(t as int, card) {
                &&& push_rel(pre.tableau, post.tableau, t as int, card)
                &&& post.waste.cards@ == pre.waste.cards@.drop_last()
                &&& post == (GameEngine {
                    tableau: post.tableau,
                    waste: post.waste,
                    active: None,
                    ..pre
                })
            } else {
                post == (GameEngine { active: None, ..pre })
            },
            _ => false,
        }
    }
}

/// Selecting a tableau column while a foundation pile is active: the
/// pile's top card moves back onto the column when the placement rule
/// allows it ("take back"); either way the pending selection is dropped,
/// except that an empty pile (or a non-foundation active) leaves
/// everything untouched.
pub open spec fn take_from_foundation_rel(pre: GameEngine, post: GameEngine) -> bool {
    match pre.active {
        Some(Location::Foundation(f)) => if pre.foundation.pile(f as int).len() == 0 {
            post == pre
        } else {
            let card = pre.foundation.pile(f as int).last();
            if (match pre.selected {
                Location::Tableau(t) => pre.tableau.accepts(t as int, card),
                _ => false,
            }) {
                &&& match pre.selected {
                    Location::Tableau(t) => push_rel(pre.tableau, post.tableau, t as int, card),
                    _ => false,
                }
                &&& post.foundation.cards@.len() == 4
                &&& post.foundation.pile(f as int) == pre.foundation.pile(f as int).drop_last()
                &&& forall|i: int|
                    0 <= i < 4 && i != f as int ==> #[trigger] post.foundation.pile(i)
                        == pre.foundation.pile(i)
                &&& post == (GameEngine {
                    tableau: post.tableau,
                    foundation: post.foundation,
                    active: None,
                    ..pre
                })
            } else {
                post == (GameEngine { active: None, ..pre })
            }
        },
        _ => post == pre,
    }
}

/// The foundation gained exactly `card` on its own suit's pile.
pub open spec fn foundation_push_rel(pre: Foundation, post: Foundation, card: Card) -> bool {
    &&& post.cards@.len() == 4
    &&& post.pile(spec_suit_index(card.suit)) == pre.pile(spec_suit_index(card.suit)).push(card)
    &&& forall|i: int|
        0 <= i < 4 && i != spec_suit_index(card.suit) ==> #[trigger] post.pile(i) == pre.pile(i)
}

/// Selecting a foundation pile while the waste or a tableau column is
/// active: the source's top card moves into the addressed pile when the
/// foundation accepts it; either way the pending selection is dropped,
/// except that an empty source (or an active that holds no card) leaves
/// everything untouched.
pub open spec fn place_in_foundation_rel(pre: GameEngine, post: GameEngine) -> bool {
    match pre.selected {
        Location::Foundation(f) => match pre.active {
            Some(Location::Tableau(t)) => if pre.tableau.col(t as int).len() == 0 {
                post == pre
            } else {
                let card = pre.tableau.col(t as int).last();
                if pre.foundation.accepts(card, spec_index_suit(f as int)) {
                    &&& foundation_push_rel(pre.foundation, post.foundation, card)
                    &&& reveal_pop_rel(pre.tableau, post.tableau, t as int)
                    &&& post == (GameEngine {
                        tableau: post.tableau,
                        foundation: post.foundation,
                        active: None,
                        ..pre
                    })
                } else {
                    post == (GameEngine { active: None, ..pre })
                }
            },
            Some(Location::Waste) => if pre.waste.cards@.len() == 0 {
                post == pre
            } else {
                let card = pre.waste.cards@.last();
                if pre.foundation.accepts(card, spec_index_suit(f as int)) {
                    &&& foundation_push_rel(pre.foundation, post.foundation, card)
                    &&& post.waste.cards@ == pre.waste.cards@.drop_last()
                    &&& post == (GameEngine {
                        foundation: post.foundation,
                        waste: post.waste,
                        active: None,
                        ..pre
                    })
                } else {
                    post == (GameEngine { active: None, ..pre })
                }
            },
            _ => post == pre,
        },
        _ => false,
    }
}

/// Selecting a tableau column while another is active: the run-move
/// between the two, then the pending selection is dropped.
pub open spec fn move_between_rel(pre: GameEngine, post: GameEngine) -> bool {
    match (pre.active, pre.selected) {
        (Some(Location::Tableau(a)), Location::Tableau(b)) => {
            &&& move_rel(
                pre.tableau,
                post.tableau,
                a as int,
                b as int,
                pre.tableau.spec_needed_rank(b as int),
                pre.tableau.spec_needed_suit(b as int),
            )
            &&& post == (GameEngine { tableau: post.tableau, active: None, ..pre })
        },
        _ => false,
    }
}

/// Auto-placing: the top card of the selected waste or tableau column
/// moves to its own suit's foundation pile when the foundation accepts it;
/// either way the pending selection is dropped, except that an empty
/// source (or any other selected pile) leaves everything untouched.
pub open spec fn auto_place_rel(pre: GameEngine, post: GameEngine) -> bool {
    match pre.selected {
        Location::Tableau(t) => if pre.tableau.col(t as int).len() == 0 {
            post == pre
        } else {
            let card = pre.tableau.col(t as int).last();
            if pre.foundation.accepts(card, card.suit) {
                &&& foundation_push_rel(pre.foundation, post.foundation, card)
                &&& reveal_pop_rel(pre.tableau, post.tableau, t as int)
                &&& post == (GameEngine {
                    tableau: post.tableau,
                    foundation: post.foundation,
                    active: None,
                    ..pre
                })
            } else {
                post == (GameEngine { active: None, ..pre })
            }
        },
        Location::Waste => if pre.waste.cards@.len() == 0 {
            post == pre
        } else {
            let card = pre.waste.cards@.last();
            if pre.foundation.accepts(card, card.suit) {
                &&& foundation_push_rel(pre.foundation, post.foundation, card)
                &&& post.waste.cards@ == pre.waste.cards@.drop_last()
                &&& post == (GameEngine {
                    foundation: post.foundation,
                    waste: post.waste,
                    active: None,
                    ..pre
                })
            } else {
                post == (GameEngine { active: None, ..pre })
            }
        },
        _ => post == pre,
    }
}

/// The `Select` dispatch table. With nothing active, selecting the stock
/// deals (leaving the waste active) and selecting anything else makes it
/// active. With something active, re-selecting it deselects; otherwise the
/// (selected, active) pair decides which transfer is attempted.
pub open spec fn select_rel(pre: GameEngine, post: GameEngine) -> bool {
    match pre.active {
        Some(active) => if active == pre.selected {
            post == (GameEngine { active: None, ..pre })
        } else {
            match (pre.selected, active) {
                (Location::Stock, _) => {
                    &&& deal_stock_waste(
                        pre.stock.cards@,
                        pre.waste.cards@,
                        post.stock.cards@,
                        post.waste.cards@,
                    )
                    &&& post == (GameEngine { stock: post.stock, waste: post.waste, ..pre })
                },
                (Location::Tableau(_), Location::Waste) => take_from_waste_rel(pre, post),
                (Location::Tableau(_), Location::Foundation(_)) => take_from_foundation_rel(
                    pre,
                    post,
                ),
                (Location::Foundation(_), _) => place_in_foundation_rel(pre, post),
                (Location::Tableau(_), Location::Tableau(_)) => move_between_rel(pre, post),
                _ => post == (GameEngine { active: Some(pre.selected), ..pre }),
            }
        },
        None => if pre.selected == Location::Stock {
            &&& deal_stock_waste(
                pre.stock.cards@,
                pre.waste.cards@,
                post.stock.cards@,
                post.waste.cards@,
            )
            &&& post == (GameEngine {
                stock: post.stock,
                waste: post.waste,
                active: Some(Location::Waste),
                ..pre
            })
        } else {
            post == (GameEngine { active: Some(pre.selected), ..pre })
        },
    }
}

impl GameEngine {
    /// The cursor and pending source address real piles, and every pile is
    /// well formed with valid visible runs.
    pub open spec fn wf(self) -> bool {
        &&& self.selected.wf()
        &&& match self.active {
            Some(location) => location.wf(),
            None => true,
        }
        &&& self.stock.wf()
        &&& self.waste.wf()
        &&& self.tableau.wf()
        &&& self.tableau.runs_ok()
        &&& self.foundation.wf()
    }

    /// Every card of the game, wherever it currently lies.
    pub open spec fn all_cards(self) -> Multiset<Card> {
        self.stock.cards@.to_multiset().add(self.waste.cards@.to_multiset()).add(
            self.tableau.all_cards(),
        ).add(self.foundation.all_cards())
    }

    /// Card conservation: the piles together hold exactly the 52 cards of
    /// the standard deck, no card duplicated or lost. Established by
    /// `initialize` and preserved by every command.
    pub open spec fn holds_full_deck(self) -> bool {
        self.all_cards() == standard_deck().to_multiset()
    }

    /// A fresh game: full shuffled stock, everything else empty, cursor on
    /// the stock. The tableau is dealt by `initialize`.
    pub fn new() -> (engine: GameEngine)
        ensures
            engine.exit == false,
            engine.won == false,
            engine.selected == Location::Stock,
            engine.active is None,
            engine.stock.cards@.to_multiset() == standard_deck().to_multiset(),
            engine.stock.cards@.len() == 52,
            engine.stock.wf(),
            engine.waste.cards@ == Seq::<Card>::empty(),
            engine.tableau.cards@.len() == 0,
            engine.tableau.cutoffs@ == seq![0u8, 1u8, 2u8, 3u8, 4u8, 5u8, 6u8],
            engine.foundation.wf(),
            forall|i: int| 0 <= i < 4 ==> #[trigger] engine.foundation.pile(i).len() == 0,
    {
        GameEngine {
            exit: false,
            selected: Location::Stock,
            active: None,
            stock: Stock::new(),
            waste: Waste::new(),
            tableau: Tableau::new(),
            foundation: Foundation::new(),
            won: false,
        }
    }

    /// Deal the opening tableau from the stock. Called exactly once per
    /// game, on the fresh state `new` returns; afterwards every card of the
    /// 52-card deck lies in exactly one pile.
    pub fn initialize(&mut self)
        requires
            old(self).selected.wf(),
            match old(self).active {
                Some(location) => location.wf(),
                None => true,
            },
            old(self).stock.wf(),
            old(self).stock.cards@.len() == 52,
            old(self).stock.cards@.to_multiset() == standard_deck().to_multiset(),
            old(self).waste.cards@ == Seq::<Card>::empty(),
            old(self).tableau.cutoffs@ == seq![0u8, 1u8, 2u8, 3u8, 4u8, 5u8, 6u8],
            old(self).foundation.wf(),
            forall|i: int| 0 <= i < 4 ==> #[trigger] old(self).foundation.pile(i).len() == 0,
        ensures
            final(self).wf(),
            final(self).holds_full_deck(),
            final(self).all_cards() == standard_deck().to_multiset(),
            final(self).stock.cards@.len() == 24,
            forall|i: int| 0 <= i < 7 ==> #[trigger] final(self).tableau.col(i).len() == i + 1,
            final(self).tableau.cutoffs@ == old(self).tableau.cutoffs@,
            final(self).waste.cards@ == old(self).waste.cards@,
            final(self).foundation.cards@ == old(self).foundation.cards@,
            final(self).selected == old(self).selected,
            final(self).active == old(self).active,
            final(self).won == old(self).won,
            final(self).exit == old(self).exit,
    {
        broadcast use vstd::seq_lib::group_to_multiset_ensures;
        broadcast use vstd::multiset::group_multiset_axioms;
        broadcast use vstd::multiset::lemma_multiset_empty_len;

        self.tableau.initialize(&mut self.stock);
        proof {
            assert(self.waste.cards@.to_multiset().len() == 0);
            lemma_foundation_empty(self.foundation);
            assert(self.tableau.all_cards().add(self.stock.cards@.to_multiset())
                == standard_deck().to_multiset());
            assert(self.all_cards() =~= standard_deck().to_multiset());
        }
    }

    /// Recompute the win flag from the foundation; the run loop calls this
    /// once per tick. A pure read of the piles: nothing else changes.
    pub fn update_won(&mut self)
        ensures
            final(self).won == old(self).foundation.is_won(),
            *final(self) == (GameEngine { won: final(self).won, ..*old(self) }),
    {
        self.won = check_win(&self.foundation);
    }

    /// Drop the pending source selection.
    fn reset_selection(&mut self)
        ensures
            *final(self) == (GameEngine { active: None, ..*old(self) }),
    {
        self.active = None
    }

    /// Deal one card from the stock into the waste; with the stock empty
    /// the waste is folded back (reversed) into the stock first, and with
    /// both empty nothing happens.
    fn deal_from_stock(&mut self)
        requires
            old(self).wf(),
        ensures
            final(self).wf(),
            final(self).all_cards() == old(self).all_cards(),
            deal_stock_waste(
                old(self).stock.cards@,
                old(self).waste.cards@,
                final(self).stock.cards@,
                final(self).waste.cards@,
            ),
            *final(self) == (GameEngine {
                stock: final(self).stock,
                waste: final(self).waste,
                ..*old(self)
            }),
    {
        broadcast use vstd::seq_lib::group_to_multiset_ensures;
        broadcast use vstd::multiset::group_multiset_axioms;
        broadcast use vstd::multiset::lemma_multiset_empty_len;

        if self.stock.cards.len() == 0 && self.waste.cards.len() == 0 {
            return ;
        }

        if self.stock.cards.len() == 0 {
            let ghost w = self.waste.cards@;
            self.stock.reset(&self.waste);
            self.waste.reset();
            proof {
                w.lemma_reverse_to_multiset();
                assert(self.stock.cards@.to_multiset() == w.to_multiset());
            }
            let card = self.stock.deal();
            self.waste.add(card);
            proof {
                let rev = w.reverse();
                assert(card == rev.last());
                assert(card == w[0]);
                assert(self.waste.cards@ =~= seq![w[0]]);
                assert(rev.drop_last() =~= rev.remove(rev.len() - 1));
                assert(self.stock.cards@.to_multiset() =~= w.to_multiset().remove(card));
                assert(rev.contains(card));
                assert(w.to_multiset().count(card) > 0);
                assert(Seq::<Card>::empty().push(card).to_multiset() =~= Seq::<
                    Card,
                >::empty().to_multiset().insert(card));
                assert(self.waste.cards@.to_multiset() =~= Multiset::<Card>::empty().insert(
                    card,
                ));
                assert forall|c: Card| #[trigger]
                    self.all_cards().count(c) == old(self).all_cards().count(c) by {
                    assert(Multiset::singleton(card).count(c) == (if c == card {
                        1int
                    } else {
                        0int
                    }));
                    assert(old(self).stock.cards@.to_multiset().len() == 0);
                }
                assert(self.all_cards() =~= old(self).all_cards());
            }
            return ;
        }

        let card = self.stock.deal();
        self.waste.add(card);
        proof {
            let s = old(self).stock.cards@;
            assert(card == s.last());
            assert(s.drop_last() =~= s.remove(s.len() - 1));
            assert(self.stock.cards@.to_multiset() =~= s.to_multiset().remove(card));
            assert(s.contains(card));
            assert(s.to_multiset().count(card) > 0);
            assert(self.waste.cards@.to_multiset() =~= old(
                self,
            ).waste.cards@.to_multiset().insert(card));
            assert forall|c: Card| #[trigger]
                self.all_cards().count(c) == old(self).all_cards().count(c) by {
                assert(Multiset::singleton(card).count(c) == (if c == card {
                    1int
                } else {
                    0int
                }));
            }
            assert(self.all_cards() =~= old(self).all_cards());
        }
    }

    /// Try to place the waste's top card on the selected tableau column;
    /// on success the card leaves the waste. The pending selection is
    /// dropped unless the waste was empty.
    fn take_from_waste(&mut self)
        requires
            old(self).wf(),
            old(self).selected matches Location::Tableau(t) && t < 7,
        ensures
            final(self).wf(),
            final(self).all_cards() == old(self).all_cards(),
            take_from_waste_rel(*old(self), *final(self)),
            final(self).foundation == old(self).foundation,
    {
        broadcast use vstd::seq_lib::group_to_multiset_ensures;
        broadcast use vstd::multiset::group_multiset_axioms;

        let card_to_place = match self.waste.get_top_card() {
            Some(card) => card,
            _ => {
                return ;
            },
        };
        proof {
            let w = old(self).waste.cards@;
            assert(card_to_place == w[w.len() - 1]);
            assert(card_to_place.wf());
        }

        if self.tableau.add_card(self.selected, card_to_place) {
            self.waste.cards.pop();
            proof {
                let card = card_to_place;
                let w = old(self).waste.cards@;
                assert(w =~= self.waste.cards@.push(card));
                assert(self.waste.cards@.push(card).to_multiset()
                    =~= self.waste.cards@.to_multiset().insert(card));
                assert forall|c: Card| #[trigger]
                    self.all_cards().count(c) == old(self).all_cards().count(c) by {
                    assert(Multiset::singleton(card).count(c) == (if c == card {
                        1int
                    } else {
                        0int
                    }));
                }
                assert(self.all_cards() =~= old(self).all_cards());
            }
        }

        self.reset_selection();
    }

    /// Try to take the active foundation pile's top card back onto the
    /// selected tableau column; on success the card leaves its pile. The
    /// pending selection is dropped unless the pile held no card.
    fn take_from_foundation(&mut self)
        requires
            old(self).wf(),
        ensures
            final(self).wf(),
            final(self).all_cards() == old(self).all_cards(),
            take_from_foundation_rel(*old(self), *final(self)),
    {
        broadcast use vstd::seq_lib::group_to_multiset_ensures;
        broadcast use vstd::multiset::group_multiset_axioms;

        let active_location: Location;
        let foundation_card = match self.active {
            Some(position) => {
                active_location = position;
                match self.foundation.get_top_card(position) {
                    Some(card) => card,
                    _ => {
                        return ;
                    },
                }
            },
            _ => {
                return ;
            },
        };
        let ghost f = (match active_location {
            Location::Foundation(x) => x as int,
            _ => 0,
        });
        proof {
            assert(active_location matches Location::Foundation(_));
            assert(foundation_card == old(self).foundation.pile(f).last());
            assert(foundation_card.wf()) by {
                let pile = old(self).foundation.pile(f);
                assert(pile[pile.len() - 1].rank == pile.len());
            }
        }

        if self.tableau.add_card(self.selected, foundation_card) {
            self.foundation.remove_card(active_location);
            proof {
                let card = foundation_card;
                assert(old(self).foundation.all_cards() == self.foundation.all_cards().insert(
                    card,
                ));
                assert forall|c: Card| #[trigger]
                    self.all_cards().count(c) == old(self).all_cards().count(c) by {
                    assert(Multiset::singleton(card).count(c) == (if c == card {
                        1int
                    } else {
                        0int
                    }));
                }
                assert(self.all_cards() =~= old(self).all_cards());
            }
        }

        self.reset_selection();
    }

    /// Try to move the active pile's top card into the selected foundation
    /// pile; on success it leaves its source, a tableau source revealing
    /// the card beneath. The pending selection is dropped unless the
    /// source held no card.
    fn place_in_foundation(&mut self)
        requires
            old(self).wf(),
            old(self).selected matches Location::Foundation(f) && f < 4,
        ensures
            final(self).wf(),
            final(self).all_cards() == old(self).all_cards(),
            place_in_foundation_rel(*old(self), *final(self)),
            forall|i: int|
                0 <= i < 4 ==> #[trigger] final(self).foundation.pile(i).len() >= old(
                    self,
                ).foundation.pile(i).len(),
    {
        broadcast use vstd::seq_lib::group_to_multiset_ensures;
        broadcast use vstd::multiset::group_multiset_axioms;

        let card: Card = match self.active {
            Some(active) => match active {
                Location::Tableau(_) => match self.tableau.get_top_card(active) {
                    Some(tableau_card) => tableau_card,
                    _ => {
                        return ;
                    },
                },
                Location::Waste => match self.waste.get_top_card() {
                    Some(waste_card) => waste_card,
                    _ => {
                        return ;
                    },
                },
                _ => {
                    return ;
                },
            },
            _ => {
                return ;
            },
        };
        proof {
            match old(self).active {
                Some(Location::Tableau(t)) => {
                    assert(card == old(self).tableau.col(t as int).last());
                    assert(card.wf());
                },
                Some(Location::Waste) => {
                    let w = old(self).waste.cards@;
                    assert(card == w[w.len() - 1]);
                    assert(card.wf());
                },
                _ => {
                    assert(false);
                },
            }
        }

        if let Location::Foundation(index) = self.selected {
            let to_suit = get_suit_by_card_suit_index(index);
            if self.foundation.add_card(card, to_suit) {
                match self.active {
                    Some(Location::Waste) => {
                        self.waste.remove();
                        proof {
                            let w = old(self).waste.cards@;
                            assert(w =~= self.waste.cards@.push(card));
                            assert(self.waste.cards@.push(card).to_multiset()
                                =~= self.waste.cards@.to_multiset().insert(card));
                        }
                    },
                    Some(Location::Tableau(t)) => {
                        let ghost t_mid = self.tableau;
                        self.tableau.update_cutoffs(t);
                        let ghost t_rev = self.tableau;
                        self.tableau.cards[t].pop();
                        proof {
                            assert(self.tableau.col(t as int) == old(self).tableau.col(
                                t as int,
                            ).drop_last());
                            lemma_remove_top_after_reveal(
                                old(self).tableau,
                                self.tableau,
                                t as int,
                            );
                            lemma_pop_multiset(old(self).tableau, self.tableau, t as int);
                        }
                    },
                    _ => {},
                }
                proof {
                    assert forall|c: Card| #[trigger]
                        self.all_cards().count(c) == old(self).all_cards().count(c) by {
                        assert(Multiset::singleton(card).count(c) == (if c == card {
                            1int
                        } else {
                            0int
                        }));
                    }
                    assert(self.all_cards() =~= old(self).all_cards());
                }
            }
        }

        self.reset_selection();
    }

    /// Move the run between the active and the selected tableau columns,
    /// then drop the pending selection.
    fn move_between_tableau(&mut self)
        requires
            old(self).wf(),
            old(self).active matches Some(Location::Tableau(a)) && a < 7,
            old(self).selected matches Location::Tableau(b) && b < 7,
        ensures
            final(self).wf(),
            final(self).all_cards() == old(self).all_cards(),
            move_between_rel(*old(self), *final(self)),
            final(self).foundation == old(self).foundation,
    {
        let active_location = match self.active {
            Some(active) => active,
            _ => {
                return ;
            },
        };

        self.tableau.try_to_move_between_tableau(active_location, self.selected);

        self.reset_selection();
    }

    /// Try to auto-place the selected pile's top card onto its own suit's
    /// foundation pile; on success it leaves its source, a tableau source
    /// revealing the card beneath. Consults only the cursor, never the
    /// pending selection, which is dropped unless the source held no card.
    fn try_to_place_in_foundation(&mut self)
        requires
            old(self).wf(),
        ensures
            final(self).wf(),
            final(self).all_cards() == old(self).all_cards(),
            auto_place_rel(*old(self), *final(self)),
            forall|i: int|
                0 <= i < 4 ==> #[trigger] final(self).foundation.pile(i).len() >= old(
                    self,
                ).foundation.pile(i).len(),
    {
        broadcast use vstd::seq_lib::group_to_multiset_ensures;
        broadcast use vstd::multiset::group_multiset_axioms;

        let card_to_place = match self.selected {
            Location::Tableau(_) => match self.tableau.get_top_card(self.selected) {
                Some(tableau_card) => tableau_card,
                _ => {
                    return ;
                },
            },
            Location::Waste => match self.waste.get_top_card() {
                Some(card) => card,
                _ => {
                    return ;
                },
            },
            _ => {
                return ;
            },
        };
        proof {
            match old(self).selected {
                Location::Tableau(t) => {
                    assert(card_to_place == old(self).tableau.col(t as int).last());
                    assert(card_to_place.wf());
                },
                Location::Waste => {
                    let w = old(self).waste.cards@;
                    assert(card_to_place == w[w.len() - 1]);
                    assert(card_to_place.wf());
                },
                _ => {
                    assert(false);
                },
            }
        }

        if self.foundation.snap_add(card_to_place) {
            let card = card_to_place;
            match self.selected {
                Location::Tableau(index) => {
                    self.tableau.update_cutoffs(index);
                    self.tableau.cards[index].pop();
                    proof {
                        assert(self.tableau.col(index as int) == old(self).tableau.col(
                            index as int,
                        ).drop_last());
                        lemma_remove_top_after_reveal(
                            old(self).tableau,
                            self.tableau,
                            index as int,
                        );
                        lemma_pop_multiset(old(self).tableau, self.tableau, index as int);
                    }
                },
                Location::Waste => {
                    self.waste.cards.pop();
                    proof {
                        let w = old(self).waste.cards@;
                        assert(w =~= self.waste.cards@.push(card));
                        assert(self.waste.cards@.push(card).to_multiset()
                            =~= self.waste.cards@.to_multiset().insert(card));
                    }
                },
                _ => {},
            }
            proof {
                assert forall|c: Card| #[trigger]
                    self.all_cards().count(c) == old(self).all_cards().count(c) by {
                    assert(Multiset::singleton(card).count(c) == (if c == card {
                        1int
                    } else {
                        0int
                    }));
                }
                assert(self.all_cards() =~= old(self).all_cards());
            }
        }

        self.reset_selection();
    }

    /// Interpret one command against the current state: cursor movement on
    /// the fixed two-row grid, the `Select` dispatch table, auto-placement,
    /// or quitting. Card conservation, pile well-formedness, and the win
    /// flag's monotonicity outside explicit take-backs all hold across
    /// every command.
    pub fn apply_command(&mut self, cmd: Command)
        requires
            old(self).wf(),
        ensures
            final(self).wf(),
            final(self).all_cards() == old(self).all_cards(),
            old(self).holds_full_deck() ==> final(self).holds_full_deck(),
            final(self).won == old(self).won,
            final(self).exit == (cmd == Command::Quit || old(self).exit),
            cmd == Command::Quit ==> *final(self) == (GameEngine {
                exit: true,
                ..*old(self)
            }),
            cmd == Command::MoveLeft ==> *final(self) == (GameEngine {
                selected: nav_left(old(self).selected),
                ..*old(self)
            }),
            cmd == Command::MoveRight ==> *final(self) == (GameEngine {
                selected: nav_right(old(self).selected),
                ..*old(self)
            }),
            cmd == Command::MoveUp ==> *final(self) == (GameEngine {
                selected: nav_up(old(self).selected),
                ..*old(self)
            }),
            cmd == Command::MoveDown ==> *final(self) == (GameEngine {
                selected: nav_down(old(self).selected),
                ..*old(self)
            }),
            cmd == Command::Select ==> select_rel(*old(self), *final(self)),
            cmd == Command::AutoPlace ==> auto_place_rel(*old(self), *final(self)),
            cmd == Command::Select && old(self).active == Some(old(self).selected)
                ==> *final(self) == (GameEngine { active: None, ..*old(self) }),
            !(cmd == Command::Select && (old(self).selected matches Location::Tableau(_)) && (old(
                self,
            ).active matches Some(Location::Foundation(_)))) ==> forall|i: int|
                0 <= i < 4 ==> #[trigger] final(self).foundation.pile(i).len() >= old(
                    self,
                ).foundation.pile(i).len(),
            old(self).foundation.is_won() && !(cmd == Command::Select && (old(
                self,
            ).selected matches Location::Tableau(_)) && (old(self).active matches Some(
                Location::Foundation(_),
            ))) ==> final(self).foundation.is_won(),
    {
        match cmd {
            Command::AutoPlace => self.try_to_place_in_foundation(),
            Command::Quit => self.exit = true,
            Command::Select => match self.active {
                Some(active) => {
                    if active == self.selected {
                        self.reset_selection();
                    } else {
                        match (self.selected, active) {
                            (Location::Stock, _) => {
                                self.deal_from_stock();
                            },
                            (Location::Tableau(_), Location::Waste) => {
                                self.take_from_waste();
                            },
                            (Location::Tableau(_), Location::Foundation(_)) => {
                                self.take_from_foundation();
                            },
                            (Location::Foundation(_), _) => {
                                self.place_in_foundation();
                            },
                            (Location::Tableau(_), Location::Tableau(_)) => {
                                self.move_between_tableau();
                            },
                            _ => {
                                self.active = Some(self.selected);
                            },
                        }
                    }
                },
                _ => {
                    self.active = if self.selected == Location::Stock {
                        self.deal_from_stock();
                        Some(Location::Waste)
                    } else {
                        Some(self.selected)
                    };
                },
            },
            Command::MoveDown => match self.selected {
                Location::Stock => self.selected = Location::Tableau(0),
                Location::Waste => self.selected = Location::Tableau(1),
                Location::Foundation(index) => self.selected = Location::Tableau(3 + index),
                Location::Tableau(_) => (),
            },
            Command::MoveLeft => match self.selected {
                Location::Stock => (),
                Location::Waste => self.selected = Location::Stock,
                Location::Foundation(index) => {
                    if index == 0 {
                        self.selected = Location::Waste
                    } else {
                        self.selected = Location::Foundation(index - 1)
                    }
                },
                Location::Tableau(index) => {
                    if index != 0 {
                        self.selected = Location::Tableau(index - 1)
                    }
                },
            },
            Command::MoveRight => match self.selected {
                Location::Stock => self.selected = Location::Waste,
                Location::Waste => self.selected = Location::Foundation(0),
                Location::Foundation(index) => {
                    if index != 3 {
                        self.selected = Location::Foundation(index + 1)
                    }
                },
                Location::Tableau(index) => {
                    if index != 6 {
                        self.selected = Location::Tableau(index + 1)
                    }
                },
            },
            Command::MoveUp => match self.selected {
                Location::Stock => (),
                Location::Waste => (),
                Location::Foundation(_) => (),
                Location::Tableau(index) => {
                    if index == 0 {
                        self.selected = Location::Stock
                    } else if index == 1 || index == 2 {
                        self.selected = Location::Waste
                    } else {
                        self.selected = Location::Foundation(index - 3)
                    }
                },
            },
        }
        proof {
            if old(self).foundation.is_won() && !(cmd == Command::Select && (old(
                self,
            ).selected matches Location::Tableau(_)) && (old(self).active matches Some(
                Location::Foundation(_),
            ))) {
                crate::foundation::lemma_win_monotone(old(self).foundation, self.foundation);
            }
        }
    }
}

/// A foundation whose four piles are all empty holds no cards.
proof fn lemma_foundation_empty(foundation: Foundation)
    requires
        foundation.cards@.len() == 4,
        forall|i: int| 0 <= i < 4 ==> #[trigger] foundation.pile(i).len() == 0,
    ensures
        foundation.all_cards() == Multiset::<Card>::empty(),
{
    broadcast use vstd::seq_lib::group_to_multiset_ensures;
    broadcast use vstd::multiset::group_multiset_axioms;
    broadcast use vstd::multiset::lemma_multiset_empty_len;

    let views = crate::utils::pile_views(foundation.cards@);
    assert(views.len() == 4);
    assert forall|i: int| 0 <= i < 4 implies (#[trigger] views[i]).to_multiset().len() == 0 by {
        assert(views[i] == foundation.pile(i));
        assert(foundation.pile(i).len() == 0);
    }
    let v3 = views.drop_last();
    let v2 = v3.drop_last();
    let v1 = v2.drop_last();
    let v0 = v1.drop_last();
    assert(views.last() == views[3]);
    assert(v3.last() == views[2]);
    assert(v2.last() == views[1]);
    assert(v1.last() == views[0]);
    assert(v0.len() == 0);
    assert(crate::utils::piles_multiset(v0) == Multiset::<Card>::empty());
    assert(crate::utils::piles_multiset(v1) == crate::utils::piles_multiset(v0).add(
        views[0].to_multiset(),
    ));
    assert(crate::utils::piles_multiset(v2) == crate::utils::piles_multiset(v1).add(
        views[1].to_multiset(),
    ));
    assert(crate::utils::piles_multiset(v3) == crate::utils::piles_multiset(v2).add(
        views[2].to_multiset(),
    ));
    assert(crate::utils::piles_multiset(views) == crate::utils::piles_multiset(v3).add(
        views[3].to_multiset(),
    ));
    assert(foundation.all_cards().len() == 0);
}

} // verus!
