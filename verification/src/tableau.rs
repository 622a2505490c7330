//! The tableau: seven columns of cards with a per-column face-down boundary
//! (the cutoff), and the run-move algorithm between columns.

use vstd::multiset::Multiset;
use vstd::prelude::*;

use crate::card::{is_red, suit_is_red, Card, Suit};
use crate::location::Location;
use crate::stock::Stock;
use crate::utils::{
    lemma_multiset_add_insert, lemma_multiset_exchange, lemma_multiset_insert_exchange,
    lemma_piles_multiset_push, lemma_piles_multiset_update, pile_views, piles_multiset,
};

verus! {

/// `child` may lie directly on `parent` in a tableau column: exactly one
/// rank lower and of the opposite color.
pub open spec fn valid_child(parent: Card, child: Card) -> bool {
    child.rank + 1 == parent.rank && is_red(child.suit) != is_red(parent.suit)
}

/// A descending, alternating-color sequence of cards. The visible part of
/// every column is such a run, because every visible card either was
/// revealed as a fresh single card or entered through a legal placement.
pub open spec fn valid_run(run: Seq<Card>) -> bool {
    forall|k: int| 1 <= k < run.len() ==> valid_child(run[k - 1], #[trigger] run[k])
}

/// Does `card` have rank `rank` and, when a suit is given, the color of
/// that suit?
pub open spec fn card_matches(card: Card, rank: u8, suit: Option<Suit>) -> bool {
    &&& card.rank == rank
    &&& match suit {
        Some(s) => is_red(card.suit) == is_red(s),
        None => true,
    }
}

/// The first position at or after `start` whose card matches the
/// requirement, if any.
pub open spec fn first_match(
    col: Seq<Card>,
    start: int,
    rank: u8,
    suit: Option<Suit>,
) -> Option<int>
    decreases col.len() - start,
{
    if start < 0 || start >= col.len() {
        None
    } else if card_matches(col[start], rank, suit) {
        Some(start)
    } else {
        first_match(col, start + 1, rank, suit)
    }
}

/// 1 + 2 + ... + i: how many cards the initial deal puts into the columns
/// left of column i.
pub open spec fn tri(i: int) -> int
    decreases i,
{
    if i <= 0 {
        0
    } else {
        tri(i - 1) + i
    }
}

/// Unfolding the deal total by one column.
pub proof fn lemma_tri_step(i: int)
    requires
        i >= 0,
    ensures
        tri(i + 1) == tri(i) + i + 1,
{
}

/// The deal totals grow with the column index.
pub proof fn lemma_tri_mono(a: int, b: int)
    requires
        0 <= a <= b,
    ensures
        tri(a) <= tri(b),
    decreases b - a,
{
    if a < b {
        lemma_tri_mono(a, b - 1);
    }
}

/// Any contiguous part of a valid run is itself a valid run.
pub proof fn lemma_valid_run_subrange(run: Seq<Card>, a: int, b: int)
    requires
        valid_run(run),
        0 <= a <= b <= run.len(),
    ensures
        valid_run(run.subrange(a, b)),
{
    let sub = run.subrange(a, b);
    assert forall|k: int| 1 <= k < sub.len() implies valid_child(sub[k - 1], #[trigger] sub[k]) by {
        assert(sub[k] == run[a + k]);
        assert(sub[k - 1] == run[a + k - 1]);
        assert(valid_child(run[a + k - 1], run[a + k]));
    }
}

/// In a valid run the ranks descend one by one towards the top, so every
/// card's rank exceeds the top card's rank by its distance from the top.
pub proof fn lemma_run_rank_at(run: Seq<Card>, k: int)
    requires
        valid_run(run),
        0 <= k < run.len(),
    ensures
        run[k].rank as int == run.last().rank + (run.len() - 1 - k),
    decreases run.len() - k,
{
    if k < run.len() - 1 {
        lemma_run_rank_at(run, k + 1);
        assert(valid_child(run[k], run[k + 1]));
    }
}

/// A found match lies in the searched range and satisfies the requirement.
pub proof fn lemma_first_match_some(col: Seq<Card>, start: int, rank: u8, suit: Option<Suit>)
    ensures
        match first_match(col, start, rank, suit) {
            Some(k) => start <= k < col.len() && card_matches(col[k], rank, suit),
            None => true,
        },
    decreases col.len() - start,
{
    if start < 0 || start >= col.len() {
    } else if card_matches(col[start], rank, suit) {
    } else {
        lemma_first_match_some(col, start + 1, rank, suit);
    }
}

/// Extending a valid run with a valid child of its last card keeps it
/// valid; so does starting a run with a single card.
pub proof fn lemma_valid_run_push(run: Seq<Card>, card: Card)
    requires
        valid_run(run),
        run.len() == 0 || valid_child(run.last(), card),
    ensures
        valid_run(run.push(card)),
{
    let ext = run.push(card);
    assert forall|k: int| 1 <= k < ext.len() implies valid_child(ext[k - 1], #[trigger] ext[k]) by {
        if k < run.len() {
            assert(ext[k] == run[k]);
            assert(ext[k - 1] == run[k - 1]);
            assert(valid_child(run[k - 1], run[k]));
        } else {
            assert(ext[k] == card);
            assert(ext[k - 1] == run.last());
        }
    }
}

/// What the destination column demands of a run's bottom card: a King for
/// an empty column; otherwise one rank below the top card and, through the
/// suit, the opposite color.
pub open spec fn req_for_dest(dest: Seq<Card>, rank: u8, suit: Option<Suit>) -> bool {
    if dest.len() == 0 {
        rank == 13
    } else {
        &&& rank + 1 == dest.last().rank
        &&& match suit {
            Some(s) => is_red(s) != is_red(dest.last().suit),
            None => false,
        }
    }
}

/// How one attempted run move changes the tableau: either no visible card
/// of the source column satisfies the requirement and nothing changes, or
/// the source column is split at the first match and the whole run lands on
/// the destination, revealing a source card when the split falls on the
/// face-down boundary. (A match inside the destination column itself is
/// impossible: its own visible cards all outrank the requirement.)
pub open spec fn move_rel(
    pre: Tableau,
    post: Tableau,
    a: int,
    b: int,
    rank: u8,
    suit: Option<Suit>,
) -> bool {
    match first_match(pre.col(a), pre.cutoff(a), rank, suit) {
        None => post == pre,
        Some(k) => if a == b {
            post == pre
        } else {
            &&& post.cards@.len() == 7
            &&& post.cutoffs@.len() == 7
            &&& post.col(a) == pre.col(a).take(k)
            &&& post.col(b) == pre.col(b) + pre.col(a).skip(k)
            &&& post.cutoff(a) == (if k == pre.cutoff(a) && k > 0 {
                k - 1
            } else {
                pre.cutoff(a)
            })
            &&& post.cutoff(b) == pre.cutoff(b)
            &&& forall|c: int|
                0 <= c < 7 && c != a && c != b ==> #[trigger] post.col(c) == pre.col(c)
                    && post.cutoff(c) == pre.cutoff(c)
        },
    }
}

/// Seven columns of cards, bottom (dealt first) to top, and one cutoff per
/// column: the number of cards, counted from the bottom, that lie face
/// down. Cards at positions >= cutoff are face up.
pub struct Tableau {
    pub cards: Vec<Vec<Card>>,
    pub cutoffs: Vec<u8>,
}

impl Tableau {
    /// Column `i`, bottom to top.
    pub open spec fn col(self, i: int) -> Seq<Card> {
        self.cards@[i]@
    }

    /// The face-down count of column `i`.
    pub open spec fn cutoff(self, i: int) -> int {
        self.cutoffs@[i] as int
    }

    /// The face-up part of column `i`.
    pub open spec fn visible(self, i: int) -> Seq<Card> {
        self.col(i).skip(self.cutoff(i))
    }

    /// Seven columns and seven cutoffs; each cutoff lies within its column
    /// (`0 <= cutoff <= len`), a non-empty column always shows at least its
    /// top card, and every card is a real card.
    pub open spec fn wf(self) -> bool {
        &&& self.cards@.len() == 7
        &&& self.cutoffs@.len() == 7
        &&& forall|i: int| 0 <= i < 7 ==> 0 <= #[trigger] self.cutoff(i) <= self.col(i).len()
        &&& forall|i: int|
            0 <= i < 7 && self.col(i).len() > 0 ==> #[trigger] self.cutoff(i) < self.col(i).len()
        &&& forall|i: int, j: int|
            0 <= i < 7 && 0 <= j < self.col(i).len() ==> (#[trigger] self.col(i)[j]).wf()
    }

    /// The visible part of every column is a valid run.
    pub open spec fn runs_ok(self) -> bool {
        forall|i: int| 0 <= i < 7 ==> valid_run(#[trigger] self.visible(i))
    }

    /// Every card currently held by the seven columns, as one multiset.
    pub open spec fn all_cards(self) -> Multiset<Card> {
        piles_multiset(pile_views(self.cards@))
    }

    /// Does column `i` accept `card` under the placement rule: a King on an
    /// empty column, otherwise a valid child of the top card?
    pub open spec fn accepts(self, i: int, card: Card) -> bool {
        if self.col(i).len() == 0 {
            card.rank == 13
        } else {
            valid_child(self.col(i).last(), card)
        }
    }

    /// The rank a run's bottom card must have to land on column `b`.
    pub open spec fn spec_needed_rank(self, b: int) -> u8 {
        if self.col(b).len() == 0 {
            13
        } else {
            (self.col(b).last().rank - 1) as u8
        }
    }

    /// The suit standing for the color a run's bottom card must have to
    /// land on column `b`; `None` when any color is welcome.
    pub open spec fn spec_needed_suit(self, b: int) -> Option<Suit> {
        if self.col(b).len() == 0 {
            None
        } else if is_red(self.col(b).last().suit) {
            Some(Suit::Spades)
        } else {
            Some(Suit::Hearts)
        }
    }

    pub fn new() -> (tableau: Tableau)
        ensures
            tableau.cards@.len() == 0,
            tableau.cutoffs@ == seq![0u8, 1u8, 2u8, 3u8, 4u8, 5u8, 6u8],
    {
        let mut cutoffs: Vec<u8> = Vec::new();
        cutoffs.push(0);
        cutoffs.push(1);
        cutoffs.push(2);
        cutoffs.push(3);
        cutoffs.push(4);
        cutoffs.push(5);
        cutoffs.push(6);
        proof {
            assert(cutoffs@ =~= seq![0u8, 1u8, 2u8, 3u8, 4u8, 5u8, 6u8]);
        }
        Tableau { cards: Vec::new(), cutoffs }
    }

    /// Deal the opening layout: column i receives i+1 cards from the stock,
    /// in dealt order, with all but the newest face down. Called exactly
    /// once per game, right after the stock is built.
    pub fn initialize(&mut self, stock: &mut Stock)
        requires
            old(self).cutoffs@ == seq![0u8, 1u8, 2u8, 3u8, 4u8, 5u8, 6u8],
            old(stock).cards@.len() >= 28,
            old(stock).wf(),
        ensures
            final(self).wf(),
            final(self).runs_ok(),
            final(self).cutoffs@ == old(self).cutoffs@,
            final(stock).cards@ == old(stock).cards@.take(old(stock).cards@.len() - 28),
            final(stock).wf(),
            forall|i: int| 0 <= i < 7 ==> #[trigger] final(self).col(i).len() == i + 1,
            forall|i: int, j: int|
                0 <= i < 7 && 0 <= j <= i ==> #[trigger] final(self).col(i)[j] == old(
                    stock,
                ).cards@[old(stock).cards@.len() - 1 - tri(i) - j],
            final(self).all_cards().add(final(stock).cards@.to_multiset()) == old(
                stock,
            ).cards@.to_multiset(),
    {
        broadcast use vstd::seq_lib::group_to_multiset_ensures;
        broadcast use vstd::multiset::group_multiset_axioms;

        let ghost s = old(stock).cards@;
        let ghost slen = s.len() as int;
        proof {
            lemma_tri_values();
            assert(piles_multiset(pile_views(Seq::<Vec<Card>>::empty())) =~= Multiset::<
                Card,
            >::empty()) by {
                assert(pile_views(Seq::<Vec<Card>>::empty()) =~= Seq::<Seq<Card>>::empty());
            }
        }

        self.cards.clear();
        let mut i: usize = 0;
        while i < 7
            invariant
                0 <= i <= 7,
                slen == s.len(),
                slen >= 28,
                self.cards@.len() == i,
                self.cutoffs@ == seq![0u8, 1u8, 2u8, 3u8, 4u8, 5u8, 6u8],
                0 <= tri(i as int) <= 28,
                stock.cards@ == s.take(slen - tri(i as int)),
                stock.wf(),
                forall|k: int| 0 <= k < slen ==> (#[trigger] s[k]).wf(),
                forall|c: int| 0 <= c < i ==> #[trigger] self.col(c).len() == c + 1,
                forall|c: int, m: int|
                    0 <= c < i && 0 <= m <= c ==> #[trigger] self.col(c)[m] == s[slen - 1 - tri(c)
                        - m],
                self.all_cards().add(stock.cards@.to_multiset()) =~= s.to_multiset(),
            decreases 7 - i,
        {
            proof {
                lemma_tri_values();
                lemma_tri_step(i as int);
                lemma_tri_mono(i as int + 1, 7);
                assert(0 <= tri(i as int));
                assert(tri(i as int) + i + 1 <= 28);
            }
            let ghost cards_before = self.cards@;
            let ghost stock_before = stock.cards@;
            proof {
                assert forall|c: int, m: int| 0 <= c < i && 0 <= m <= c implies #[trigger]
                    cards_before[c]@[m] == s[slen - 1 - tri(c) - m] by {
                    assert(self.col(c)[m] == s[slen - 1 - tri(c) - m]);
                }
                assert forall|c: int| 0 <= c < i implies #[trigger] cards_before[c]@.len() == c
                    + 1 by {
                    assert(self.col(c).len() == c + 1);
                }
            }
            let mut row: Vec<Card> = Vec::new();
            proof {
                broadcast use vstd::seq_lib::group_to_multiset_ensures;
                broadcast use vstd::multiset::group_multiset_axioms;
                broadcast use vstd::multiset::lemma_multiset_empty_len;

                assert(row@.to_multiset().len() == 0);
                assert(row@.to_multiset().add(stock.cards@.to_multiset())
                    =~= stock_before.to_multiset());
            }
            let mut j: usize = 0;
            while j < i + 1
                invariant
                    0 <= i < 7,
                    0 <= j <= i + 1,
                    slen == s.len(),
                    slen >= 28,
                    0 <= tri(i as int),
                    tri(i as int) + i + 1 <= 28,
                    stock_before == s.take(slen - tri(i as int)),
                    stock.cards@ == s.take(slen - tri(i as int) - j),
                    stock.wf(),
                    forall|k: int| 0 <= k < slen ==> (#[trigger] s[k]).wf(),
                    row@.len() == j,
                    forall|m: int|
                        0 <= m < j ==> #[trigger] row@[m] == s[slen - 1 - tri(i as int) - m],
                    row@.to_multiset().add(stock.cards@.to_multiset())
                        =~= stock_before.to_multiset(),
                decreases i + 1 - j,
            {
                let ghost stock_mid = stock.cards@;
                proof {
                    assert(0 <= slen - tri(i as int) - j <= slen);
                    assert(stock_mid.len() == slen - tri(i as int) - j);
                    assert(stock_mid.len() > 0);
                }
                let card = stock.deal();
                proof {
                    broadcast use vstd::seq_lib::group_to_multiset_ensures;
                    broadcast use vstd::multiset::group_multiset_axioms;

                    assert(card == s[slen - 1 - tri(i as int) - j]);
                    assert(stock.cards@ =~= s.take(slen - tri(i as int) - (j + 1)));
                    assert(stock_mid.drop_last() =~= stock_mid.remove(stock_mid.len() - 1));
                    assert(stock_mid.remove(stock_mid.len() - 1).to_multiset()
                        =~= stock_mid.to_multiset().remove(card));
                    assert(stock_mid.contains(card));
                    assert(stock_mid.to_multiset().count(card) > 0);
                    assert(stock.cards@.to_multiset() =~= stock_mid.to_multiset().remove(card));
                    assert(row@.push(card).to_multiset() =~= row@.to_multiset().insert(card));
                    assert(row@.push(card).to_multiset().add(stock.cards@.to_multiset())
                        =~= stock_before.to_multiset());
                }
                row.push(card);
                j += 1;
            }
            proof {
                assert(pile_views(cards_before.push(row)) =~= pile_views(cards_before).push(row@));
                lemma_piles_multiset_push(pile_views(cards_before), row@);
            }
            let ghost row_view = row@;
            self.cards.push(row);
            proof {
                broadcast use vstd::multiset::group_multiset_axioms;

                assert(stock.cards@ == s.take(slen - tri(i as int + 1)));
                assert(self.all_cards() == piles_multiset(pile_views(cards_before)).add(
                    row_view.to_multiset(),
                ));
                assert(self.all_cards().add(stock.cards@.to_multiset()) =~= s.to_multiset());
                assert forall|c: int, m: int|
                    0 <= c < i + 1 && 0 <= m <= c implies #[trigger] self.col(c)[m] == s[slen - 1
                    - tri(c) - m] by {
                    if c < i {
                        assert(self.col(c) == cards_before[c]@);
                        assert(cards_before[c]@[m] == s[slen - 1 - tri(c) - m]);
                    } else {
                        assert(self.col(c) == row_view);
                        assert(row_view[m] == s[slen - 1 - tri(c) - m]);
                    }
                }
            }
            i += 1;
        }
        proof {
            assert(final(stock).cards@ == s.take(slen - 28));
            assert forall|c: int| 0 <= c < 7 implies valid_run(#[trigger] self.visible(c)) by {
                assert(self.cutoff(c) == c);
                assert(self.visible(c).len() == 1);
            }
        }
    }

    /// The top card of the addressed column, or `None` for an empty column.
    /// Addressing anything but a tableau column is a caller bug.
    pub fn get_top_card(&mut self, location: Location) -> (top: Option<Card>)
        requires
            old(self).wf(),
            location matches Location::Tableau(index) && index < 7,
        ensures
            *final(self) == *old(self),
            top == (match location {
                Location::Tableau(index) => if old(self).col(index as int).len() == 0 {
                    None::<Card>
                } else {
                    Some(old(self).col(index as int).last())
                },
                _ => None::<Card>,
            }),
    {
        if let Location::Tableau(index) = location {
            let column = &self.cards[index];
            if column.len() == 0 {
                None
            } else {
                Some(column[column.len() - 1])
            }
        } else {
            None
        }
    }

    /// The face-up cards of a column, boundary first: a read-only view for
    /// rendering.
    pub fn get_visible_cards(&self, column: usize) -> (cards: Vec<Card>)
        requires
            self.wf(),
            column < 7,
        ensures
            cards@ == self.visible(column as int),
    {
        let mut cards: Vec<Card> = Vec::new();
        let mut k = self.cutoffs[column] as usize;
        let ghost start = k as int;
        proof {
            assert(0 <= self.cutoff(column as int) <= self.col(column as int).len());
            assert(cards@ =~= self.col(column as int).subrange(start, start));
        }
        while k < self.cards[column].len()
            invariant
                self.wf(),
                column < 7,
                start == self.cutoff(column as int),
                start <= k as int <= self.col(column as int).len(),
                cards@ =~= self.col(column as int).subrange(start, k as int),
            decreases self.col(column as int).len() - k,
        {
            let card = self.cards[column][k];
            cards.push(card);
            proof {
                assert(cards@ =~= self.col(column as int).subrange(start, k + 1));
            }
            k += 1;
        }
        proof {
            assert(cards@ =~= self.visible(column as int));
        }
        cards
    }

    /// Reveal the card under the top card when the boundary sits exactly one
    /// below it. Callers must invoke this immediately before removing a
    /// column's top card through any path other than `take_cards_at_index`,
    /// so that the removal exposes a face-up card.
    pub fn update_cutoffs(&mut self, index: usize)
        requires
            old(self).wf(),
        ensures
            final(self).wf(),
            final(self).cards@ == old(self).cards@,
            final(self).cutoffs@ == (if index < 7 && old(self).cutoff(index as int) > 0 && old(
                self,
            ).col(index as int).len() > 0 && old(self).cutoff(index as int) == old(self).col(
                index as int,
            ).len() - 1 {
                old(self).cutoffs@.update(
                    index as int,
                    (old(self).cutoff(index as int) - 1) as u8,
                )
            } else {
                old(self).cutoffs@
            }),
    {
        if index >= self.cutoffs.len() || index >= self.cards.len() {
            return ;
        }

        let cutoff = self.cutoffs[index];
        let column_len = self.cards[index].len();

        if cutoff > 0 && column_len > 0 && cutoff as usize == column_len - 1 {
            self.cutoffs[index] = cutoff - 1;
            proof {
                assert forall|i: int| 0 <= i < 7 implies 0 <= #[trigger] self.cutoff(i)
                    <= self.col(i).len() by {
                    if i != index as int {
                        assert(self.cutoff(i) == old(self).cutoff(i));
                    }
                }
                assert forall|i: int|
                    0 <= i < 7 && self.col(i).len() > 0 implies #[trigger] self.cutoff(i)
                    < self.col(i).len() by {
                    if i != index as int {
                        assert(self.cutoff(i) == old(self).cutoff(i));
                    }
                }
                assert forall|i: int, j: int|
                    0 <= i < 7 && 0 <= j < self.col(i).len() implies (
                #[trigger] self.col(i)[j]).wf() by {
                    assert(self.col(i) == old(self).col(i));
                }
            }
        }
    }

    /// The lowest visible position in the addressed column whose card has
    /// the required rank and, when a suit is given, that suit's color.
    fn find_card(&self, location: Location, rank: u8, suit: Option<Suit>) -> (found: Option<
        usize,
    >)
        requires
            self.wf(),
            location matches Location::Tableau(index) && index < 7,
        ensures
            match location {
                Location::Tableau(index) => match found {
                    Some(k) => first_match(
                        self.col(index as int),
                        self.cutoff(index as int),
                        rank,
                        suit,
                    ) == Some(k as int),
                    None => first_match(
                        self.col(index as int),
                        self.cutoff(index as int),
                        rank,
                        suit,
                    ) is None,
                },
                _ => false,
            },
    {
        if let Location::Tableau(index) = location {
            let column_len = self.cards[index].len();
            let start = self.cutoffs[index] as usize;
            let ghost col = self.col(index as int);
            let mut k = start;
            while k < column_len
                invariant
                    self.wf(),
                    index < 7,
                    location == Location::Tableau(index),
                    col == self.col(index as int),
                    column_len == col.len(),
                    start == self.cutoff(index as int),
                    start <= k <= column_len,
                    first_match(col, start as int, rank, suit) == first_match(
                        col,
                        k as int,
                        rank,
                        suit,
                    ),
                decreases column_len - k,
            {
                let card = self.cards[index][k];
                let rank_matches = card.rank == rank;
                let color_matches = match suit {
                    Some(parent_suit) => suit_is_red(parent_suit) == suit_is_red(card.suit),
                    None => true,
                };
                if rank_matches && color_matches {
                    proof {
                        assert(card_matches(col[k as int], rank, suit));
                        assert(first_match(col, k as int, rank, suit) == Some(k as int));
                    }
                    return Some(k);
                }
                proof {
                    assert(!card_matches(col[k as int], rank, suit));
                    assert(first_match(col, k as int, rank, suit) == first_match(
                        col,
                        k as int + 1,
                        rank,
                        suit,
                    ));
                }
                k += 1;
            }
            proof {
                assert(first_match(col, column_len as int, rank, suit) is None);
            }
            None
        } else {
            None
        }
    }

    /// Split the addressed column at a visible position, removing and
    /// returning that card and everything above it as one ordered run. When
    /// the split exposes the face-down region's top card, that card is
    /// revealed. An out-of-range position removes nothing.
    pub fn take_cards_at_index(&mut self, location: Location, index: usize) -> (taken: Vec<
        Card,
    >)
        requires
            old(self).wf(),
            location matches Location::Tableau(column) && column < 7 && index as int >= old(
                self,
            ).cutoff(column as int),
        ensures
            final(self).wf(),
            match location {
                Location::Tableau(column) => {
                    let c = column as int;
                    if index as int <= old(self).col(c).len() {
                        &&& taken@ == old(self).col(c).skip(index as int)
                        &&& final(self).col(c) == old(self).col(c).take(index as int)
                        &&& final(self).cutoff(c) == (if index as int == old(self).cutoff(c)
                            && index > 0 {
                            index - 1
                        } else {
                            old(self).cutoff(c)
                        })
                        &&& forall|d: int|
                            0 <= d < 7 && d != c ==> #[trigger] final(self).col(d) == old(
                                self,
                            ).col(d) && final(self).cutoff(d) == old(self).cutoff(d)
                    } else {
                        &&& taken@ == Seq::<Card>::empty()
                        &&& *final(self) == *old(self)
                    }
                },
                _ => false,
            },
            old(self).runs_ok() ==> final(self).runs_ok() && valid_run(taken@),
            final(self).all_cards().add(taken@.to_multiset()) == old(self).all_cards(),
    {
        broadcast use vstd::seq_lib::group_to_multiset_ensures;
        broadcast use vstd::multiset::group_multiset_axioms;
        broadcast use vstd::multiset::lemma_multiset_empty_len;

        if let Location::Tableau(column) = location {
            if index > self.cards[column].len() {
                return Vec::new();
            }

            let ghost pre = *old(self);
            let ghost c = column as int;
            let cutoff = self.cutoffs[column];
            if cutoff > 0 && index <= cutoff as usize {
                self.cutoffs[column] = cutoff - 1;
            }
            let taken = self.cards[column].split_off(index);
            proof {
                let colseq = pre.col(c);
                assert(taken@ == colseq.skip(index as int));
                assert(self.col(c) == colseq.take(index as int));
                assert forall|d: int|
                    0 <= d < 7 && d != c implies #[trigger] self.col(d) == pre.col(d)
                    && self.cutoff(d) == pre.cutoff(d) by {}

                // the cutoff moved only when the split lands exactly on it
                assert(index as int >= pre.cutoff(c));
                assert(self.cutoff(c) == (if index as int == pre.cutoff(c) && index > 0 {
                    index - 1
                } else {
                    pre.cutoff(c)
                }));

                // well-formedness
                assert forall|i: int| 0 <= i < 7 implies 0 <= #[trigger] self.cutoff(i)
                    <= self.col(i).len() by {}
                assert forall|i: int|
                    0 <= i < 7 && self.col(i).len() > 0 implies #[trigger] self.cutoff(i)
                    < self.col(i).len() by {}
                assert forall|i: int, j: int|
                    0 <= i < 7 && 0 <= j < self.col(i).len() implies (
                #[trigger] self.col(i)[j]).wf() by {
                    if i == c {
                        assert(self.col(i)[j] == pre.col(i)[j]);
                    }
                }

                // runs stay valid: what remains visible is a part of the
                // old visible run, or the single card just revealed
                if pre.runs_ok() {
                    lemma_valid_run_subrange(
                        pre.visible(c),
                        index - pre.cutoff(c),
                        pre.visible(c).len() as int,
                    );
                    assert(taken@ =~= pre.visible(c).subrange(
                        index - pre.cutoff(c),
                        pre.visible(c).len() as int,
                    ));
                    assert(valid_run(taken@));
                    assert forall|i: int| 0 <= i < 7 implies valid_run(
                        #[trigger] self.visible(i),
                    ) by {
                        if i == c {
                            if index as int == pre.cutoff(c) && index > 0 {
                                assert(self.visible(i).len() == 1);
                            } else {
                                lemma_valid_run_subrange(
                                    pre.visible(c),
                                    0,
                                    index - pre.cutoff(c),
                                );
                                assert(self.visible(i) =~= pre.visible(c).subrange(
                                    0,
                                    index - pre.cutoff(c),
                                ));
                            }
                        } else {
                            assert(self.visible(i) == pre.visible(i));
                        }
                    }
                }

                // card conservation
                assert(pile_views(self.cards@) =~= pile_views(pre.cards@).update(
                    c,
                    self.col(c),
                ));
                lemma_piles_multiset_update(pile_views(pre.cards@), c, self.col(c));
                assert(pile_views(pre.cards@)[c] == pre.col(c));
                assert(self.all_cards().add(pre.col(c).to_multiset()) =~= pre.all_cards().add(
                    self.col(c).to_multiset(),
                ));
                vstd::seq_lib::lemma_multiset_commutative(
                    pre.col(c).take(index as int),
                    pre.col(c).skip(index as int),
                );
                assert(pre.col(c).take(index as int) + pre.col(c).skip(index as int)
                    =~= pre.col(c));
                assert(pre.col(c).to_multiset() =~= self.col(c).to_multiset().add(
                    taken@.to_multiset(),
                ));
                lemma_multiset_exchange(
                    self.all_cards(),
                    pre.all_cards(),
                    pre.col(c).to_multiset(),
                    self.col(c).to_multiset(),
                    taken@.to_multiset(),
                );
            }
            taken
        } else {
            Vec::new()
        }
    }

    /// The legality gate for any card entering a tableau column: an empty
    /// column accepts only a King; a non-empty column accepts only a card of
    /// the opposite color ranked one below its top card. On success the card
    /// is appended and `true` returned; otherwise nothing changes.
    pub fn add_card(&mut self, to: Location, card: Card) -> (added: bool)
        requires
            old(self).wf(),
            card.wf(),
            to matches Location::Tableau(index) ==> index < 7,
        ensures
            final(self).wf(),
            match to {
                Location::Tableau(index) => {
                    let i = index as int;
                    &&& added == (if old(self).col(i).len() == 0 {
                        card.rank == 13
                    } else {
                        valid_child(old(self).col(i).last(), card)
                    })
                    &&& (added ==> final(self).col(i) == old(self).col(i).push(card)
                        && final(self).cutoffs@ == old(self).cutoffs@ && forall|c: int|
                        0 <= c < 7 && c != i ==> #[trigger] final(self).col(c) == old(self).col(
                            c,
                        ))
                    &&& (!added ==> *final(self) == *old(self))
                },
                _ => !added && *final(self) == *old(self),
            },
            old(self).runs_ok() ==> final(self).runs_ok(),
            added ==> final(self).all_cards() == old(self).all_cards().insert(card),
            !added ==> final(self).all_cards() == old(self).all_cards(),
    {
        broadcast use vstd::seq_lib::group_to_multiset_ensures;
        broadcast use vstd::multiset::group_multiset_axioms;

        if let Location::Tableau(index) = to {
            let ghost pre = *old(self);
            let ghost i = index as int;
            let parent_card = match self.get_top_card(to) {
                Some(parent) => parent,
                _ => {
                    if card.rank == 13 {
                        self.cards[index].push(card);
                        proof {
                            lemma_tableau_push(pre, *self, card, i);
                        }
                        return true;
                    }
                    return false;
                },
            };

            if suit_is_red(parent_card.suit) == suit_is_red(card.suit) {
                return false;
            }

            if card.rank != parent_card.rank - 1 {
                return false;
            }

            self.cards[index].push(card);
            proof {
                lemma_tableau_push(pre, *self, card, i);
            }
            return true;
        }
        false
    }

    /// Move the run starting at the first visible card of `from` that meets
    /// the given requirement onto `to`; no card meeting it means no move.
    fn move_cards(
        &mut self,
        needed_rank: u8,
        needed_suit: Option<Suit>,
        from: Location,
        to: Location,
    )
        requires
            old(self).wf(),
            old(self).runs_ok(),
            from matches Location::Tableau(a) && a < 7,
            to matches Location::Tableau(b) && b < 7,
            match to {
                Location::Tableau(b) => req_for_dest(
                    old(self).col(b as int),
                    needed_rank,
                    needed_suit,
                ),
                _ => false,
            },
        ensures
            final(self).wf(),
            final(self).runs_ok(),
            final(self).all_cards() == old(self).all_cards(),
            match (from, to) {
                (Location::Tableau(a), Location::Tableau(b)) => move_rel(
                    *old(self),
                    *final(self),
                    a as int,
                    b as int,
                    needed_rank,
                    needed_suit,
                ),
                _ => false,
            },
    {
        let ghost pre = *old(self);
        let ghost a = (match from {
            Location::Tableau(x) => x as int,
            _ => 0,
        });
        let ghost b = (match to {
            Location::Tableau(x) => x as int,
            _ => 0,
        });

        let card_index = match self.find_card(from, needed_rank, needed_suit) {
            Some(index) => index,
            _ => {
                return ;
            },
        };
        let ghost k = card_index as int;

        proof {
            lemma_first_match_some(pre.col(a), pre.cutoff(a), needed_rank, needed_suit);
            assert(pre.cutoff(a) <= k < pre.col(a).len());
            assert(card_matches(pre.col(a)[k], needed_rank, needed_suit));
            if a == b {
                // The destination's own visible cards all outrank the
                // requirement, so no match could have been found there.
                assert(pre.col(b).len() > 0);
                let vis = pre.visible(a);
                let kv = k - pre.cutoff(a);
                assert(vis[kv] == pre.col(a)[k]);
                assert(vis.last() == pre.col(a).last());
                lemma_run_rank_at(vis, kv);
                assert(vis[kv].rank as int >= vis.last().rank);
                assert(false);
            }
        }

        let cards_to_move = self.take_cards_at_index(from, card_index);
        let ghost mid = *self;
        let ghost run = cards_to_move@;

        proof {
            assert(run == pre.col(a).skip(k));
            assert(valid_run(run));
            assert(run.len() == pre.col(a).len() - k >= 1);
            assert forall|m: int| 0 <= m < run.len() implies (#[trigger] run[m]).wf() by {
                assert(run[m] == pre.col(a)[k + m]);
            }
            assert(mid.col(b) == pre.col(b));
            assert(run.take(0) =~= Seq::<Card>::empty());
            assert(mid.col(b) + run.take(0) =~= mid.col(b));
            broadcast use vstd::seq_lib::group_to_multiset_ensures;
            broadcast use vstd::multiset::lemma_multiset_empty_len;

            assert(run.take(0).to_multiset().len() == 0);
            assert(mid.all_cards().add(run.take(0).to_multiset()) =~= mid.all_cards());
        }

        let total = cards_to_move.len();
        let mut m: usize = 0;
        while m < total
            invariant
                self.wf(),
                self.runs_ok(),
                a == (match from {
                    Location::Tableau(x) => x as int,
                    _ => 0,
                }),
                b == (match to {
                    Location::Tableau(x) => x as int,
                    _ => 0,
                }),
                to matches Location::Tableau(x) && x < 7,
                0 <= a < 7,
                0 <= b < 7,
                a != b,
                total == run.len(),
                cards_to_move@ == run,
                valid_run(run),
                forall|i: int| 0 <= i < run.len() ==> (#[trigger] run[i]).wf(),
                0 <= m <= total,
                self.col(b) == mid.col(b) + run.take(m as int),
                mid.col(b) == pre.col(b),
                req_for_dest(pre.col(b), needed_rank, needed_suit),
                card_matches(run[0], needed_rank, needed_suit),
                self.cutoffs@ == mid.cutoffs@,
                forall|c: int| 0 <= c < 7 && c != b ==> #[trigger] self.col(c) == mid.col(c),
                self.all_cards() == mid.all_cards().add(run.take(m as int).to_multiset()),
            decreases total - m,
        {
            let card = cards_to_move[m];
            let ghost before = *self;
            let added = self.add_card(to, card);
            proof {
                broadcast use vstd::seq_lib::group_to_multiset_ensures;

                if m == 0 {
                    assert(before.col(b) =~= pre.col(b));
                    if pre.col(b).len() == 0 {
                        assert(card.rank == 13);
                    } else {
                        assert(before.col(b).last() == pre.col(b).last());
                        assert(valid_child(before.col(b).last(), card));
                    }
                } else {
                    assert(before.col(b).last() == run[m - 1]);
                    assert(valid_child(run[m - 1], run[m as int]));
                }
                assert(added);
                assert(run.take(m + 1) =~= run.take(m as int).push(card));
                assert(self.col(b) =~= mid.col(b) + run.take(m + 1));
                assert(run.take(m as int).push(card).to_multiset() =~= run.take(
                    m as int,
                ).to_multiset().insert(card));
                lemma_multiset_add_insert(
                    mid.all_cards(),
                    run.take(m as int).to_multiset(),
                    card,
                );
                assert(self.all_cards() == mid.all_cards().add(run.take(m + 1).to_multiset()));
            }
            m += 1;
        }

        proof {
            assert(run.take(total as int) =~= run);
            assert(self.col(b) == pre.col(b) + pre.col(a).skip(k));
            assert(self.all_cards() == mid.all_cards().add(run.to_multiset()));
            assert(self.all_cards() == pre.all_cards());
            assert(move_rel(pre, *self, a, b, needed_rank, needed_suit));
        }
    }

    /// The run-move between two tableau columns. The destination's top card
    /// (or emptiness) fixes the required rank and color; the lowest visible
    /// card of the source meeting it starts the run that moves, and without
    /// such a card the move is silently a no-op.
    pub fn try_to_move_between_tableau(&mut self, from: Location, to: Location)
        requires
            old(self).wf(),
            old(self).runs_ok(),
            from matches Location::Tableau(a) && a < 7,
            to matches Location::Tableau(b) && b < 7,
        ensures
            final(self).wf(),
            final(self).runs_ok(),
            final(self).all_cards() == old(self).all_cards(),
            match (from, to) {
                (Location::Tableau(a), Location::Tableau(b)) => move_rel(
                    *old(self),
                    *final(self),
                    a as int,
                    b as int,
                    old(self).spec_needed_rank(b as int),
                    old(self).spec_needed_suit(b as int),
                ),
                _ => false,
            },
    {
        let ghost b = (match to {
            Location::Tableau(x) => x as int,
            _ => 0,
        });

        let to_card: Card = match self.get_top_card(to) {
            Some(card) => card,
            _ => {
                proof {
                    assert(req_for_dest(self.col(b), 13u8, None::<Suit>));
                }
                self.move_cards(13, None, from, to);
                return ;
            },
        };

        let needed_rank = to_card.rank - 1;
        let needed_suit = match to_card.suit {
            Suit::Clubs | Suit::Spades => Suit::Hearts,
            Suit::Hearts | Suit::Diamonds => Suit::Spades,
        };

        proof {
            assert(req_for_dest(self.col(b), needed_rank, Some(needed_suit)));
        }
        self.move_cards(needed_rank, Some(needed_suit), from, to);
    }
}

/// After a legal push onto column `i`, the tableau is still well formed,
/// its runs are still valid, and exactly `card` was added.
proof fn lemma_tableau_push(pre: Tableau, post: Tableau, card: Card, i: int)
    requires
        pre.wf(),
        card.wf(),
        0 <= i < 7,
        pre.col(i).len() == 0 || valid_child(pre.col(i).last(), card),
        post.cards@ == pre.cards@.update(i, post.cards@[i]),
        post.col(i) == pre.col(i).push(card),
        post.cutoffs@ == pre.cutoffs@,
    ensures
        post.wf(),
        pre.runs_ok() ==> post.runs_ok(),
        post.all_cards() == pre.all_cards().insert(card),
        forall|c: int| 0 <= c < 7 && c != i ==> #[trigger] post.col(c) == pre.col(c),
{
    broadcast use vstd::seq_lib::group_to_multiset_ensures;
    broadcast use vstd::multiset::group_multiset_axioms;

    assert forall|c: int| 0 <= c < 7 && c != i implies #[trigger] post.col(c) == pre.col(c) by {}
    assert forall|c: int| 0 <= c < 7 implies 0 <= #[trigger] post.cutoff(c) <= post.col(
        c,
    ).len() by {
        assert(post.cutoff(c) == pre.cutoff(c));
    }
    assert forall|c: int|
        0 <= c < 7 && post.col(c).len() > 0 implies #[trigger] post.cutoff(c) < post.col(
        c,
    ).len() by {
        assert(post.cutoff(c) == pre.cutoff(c));
    }
    assert forall|c: int, j: int|
        0 <= c < 7 && 0 <= j < post.col(c).len() implies (#[trigger] post.col(c)[j]).wf() by {
        if c == i && j == pre.col(i).len() {
            assert(post.col(c)[j] == card);
        } else {
            assert(post.col(c)[j] == pre.col(c)[j]);
        }
    }
    if pre.runs_ok() {
        assert forall|c: int| 0 <= c < 7 implies valid_run(#[trigger] post.visible(c)) by {
            if c == i {
                lemma_valid_run_push(pre.visible(i), card);
                assert(post.visible(i) =~= pre.visible(i).push(card));
            } else {
                assert(post.visible(c) == pre.visible(c));
            }
        }
    }
    assert(pile_views(post.cards@) =~= pile_views(pre.cards@).update(i, post.col(i)));
    lemma_piles_multiset_update(pile_views(pre.cards@), i, post.col(i));
    assert(pile_views(pre.cards@)[i] == pre.col(i));
    assert(post.all_cards().add(pre.col(i).to_multiset()) =~= pre.all_cards().add(
        post.col(i).to_multiset(),
    ));
    assert(pre.col(i).push(card).to_multiset() =~= pre.col(i).to_multiset().insert(card));
    lemma_multiset_insert_exchange(
        post.all_cards(),
        pre.all_cards(),
        pre.col(i).to_multiset(),
        post.col(i).to_multiset(),
        card,
    );
}

/// `post` is `pre` with `card` appended to column `i` and nothing else
/// changed.
pub open spec fn push_rel(pre: Tableau, post: Tableau, i: int, card: Card) -> bool {
    &&& post.cards@.len() == 7
    &&& post.cutoffs@ == pre.cutoffs@
    &&& post.col(i) == pre.col(i).push(card)
    &&& forall|c: int| 0 <= c < 7 && c != i ==> #[trigger] post.col(c) == pre.col(c)
}

/// `post` is `pre` with column `i`'s top card removed and, when the
/// face-down boundary sat one below the top, the boundary lowered: the
/// combined effect of `update_cutoffs` followed by removing the top card.
pub open spec fn reveal_pop_rel(pre: Tableau, post: Tableau, i: int) -> bool {
    &&& post.cards@.len() == 7
    &&& post.cutoffs@.len() == 7
    &&& post.col(i) == pre.col(i).drop_last()
    &&& post.cutoff(i) == (if pre.cutoff(i) > 0 && pre.cutoff(i) == pre.col(i).len() - 1 {
        pre.cutoff(i) - 1
    } else {
        pre.cutoff(i)
    })
    &&& forall|c: int|
        0 <= c < 7 && c != i ==> #[trigger] post.col(c) == pre.col(c) && post.cutoff(c)
            == pre.cutoff(c)
}

/// Removing a column's top card takes exactly that card out of the
/// tableau's combined multiset.
pub proof fn lemma_pop_multiset(pre: Tableau, post: Tableau, i: int)
    requires
        pre.cards@.len() == 7,
        post.cards@.len() == 7,
        0 <= i < 7,
        pre.col(i).len() > 0,
        post.col(i) == pre.col(i).drop_last(),
        forall|c: int| 0 <= c < 7 && c != i ==> #[trigger] post.col(c) == pre.col(c),
    ensures
        pre.all_cards() == post.all_cards().insert(pre.col(i).last()),
{
    broadcast use vstd::seq_lib::group_to_multiset_ensures;
    broadcast use vstd::multiset::group_multiset_axioms;

    let card = pre.col(i).last();
    assert forall|c: int| 0 <= c < 7 implies pile_views(post.cards@)[c] == pile_views(
        pre.cards@,
    ).update(i, post.col(i))[c] by {
        assert(pile_views(post.cards@)[c] == post.col(c));
        if c != i {
            assert(pile_views(pre.cards@).update(i, post.col(i))[c] == pre.col(c));
        }
    }
    assert(pile_views(post.cards@) =~= pile_views(pre.cards@).update(i, post.col(i)));
    lemma_piles_multiset_update(pile_views(pre.cards@), i, post.col(i));
    assert(pile_views(pre.cards@)[i] == pre.col(i));
    assert(pre.col(i) =~= post.col(i).push(card));
    assert(post.col(i).push(card).to_multiset() =~= post.col(i).to_multiset().insert(card));
    lemma_multiset_insert_exchange(
        pre.all_cards(),
        post.all_cards(),
        post.col(i).to_multiset(),
        pre.col(i).to_multiset(),
        card,
    );
}

/// Removing a column's top card directly after `update_cutoffs` leaves the
/// tableau well formed and its runs valid: either the shortened visible run
/// is a prefix of the old one, or the removal exposes exactly the card that
/// the cutoff decrement just revealed.
pub proof fn lemma_remove_top_after_reveal(pre: Tableau, post: Tableau, i: int)
    requires
        pre.wf(),
        pre.runs_ok(),
        0 <= i < 7,
        pre.col(i).len() > 0,
        post.cards@.len() == 7,
        post.cutoffs@.len() == 7,
        forall|c: int|
            0 <= c < 7 && c != i ==> #[trigger] post.col(c) == pre.col(c) && post.cutoff(c)
                == pre.cutoff(c),
        post.col(i) == pre.col(i).drop_last(),
        post.cutoff(i) == (if pre.cutoff(i) > 0 && pre.cutoff(i) == pre.col(i).len() - 1 {
            pre.cutoff(i) - 1
        } else {
            pre.cutoff(i)
        }),
    ensures
        post.wf(),
        post.runs_ok(),
{
    let n = pre.col(i).len() as int;
    assert(pre.cutoff(i) < n);
    assert forall|c: int| 0 <= c < 7 implies 0 <= #[trigger] post.cutoff(c) <= post.col(
        c,
    ).len() by {}
    assert forall|c: int|
        0 <= c < 7 && post.col(c).len() > 0 implies #[trigger] post.cutoff(c) < post.col(
        c,
    ).len() by {}
    assert forall|c: int, j: int|
        0 <= c < 7 && 0 <= j < post.col(c).len() implies (#[trigger] post.col(c)[j]).wf() by {
        if c == i {
            assert(post.col(c)[j] == pre.col(c)[j]);
        }
    }
    assert forall|c: int| 0 <= c < 7 implies valid_run(#[trigger] post.visible(c)) by {
        if c == i {
            if pre.cutoff(i) > 0 && pre.cutoff(i) == n - 1 {
                assert(post.visible(i).len() == 1);
            } else {
                lemma_valid_run_subrange(pre.visible(i), 0, pre.visible(i).len() - 1);
                assert(post.visible(i) =~= pre.visible(i).subrange(
                    0,
                    pre.visible(i).len() - 1,
                ));
            }
        } else {
            assert(post.visible(c) == pre.visible(c));
        }
    }
}

/// The running deal totals for the seven columns.
proof fn lemma_tri_values()
    ensures
        tri(0) == 0,
        tri(1) == 1,
        tri(2) == 3,
        tri(3) == 6,
        tri(4) == 10,
        tri(5) == 15,
        tri(6) == 21,
        tri(7) == 28,
{
    assert(tri(0) == 0);
    assert(tri(1) == 1);
    assert(tri(2) == 3);
    assert(tri(3) == 6);
    assert(tri(4) == 10);
    assert(tri(5) == 15);
    assert(tri(6) == 21);
    assert(tri(7) == 28);
}

} // verus!
