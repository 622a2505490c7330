//! Addressing of piles: every operation names its source or destination
//! through a `Location`, never through raw coordinates.

use vstd::prelude::*;

verus! {

/// A reference to one of the four pile kinds. Tableau columns are numbered
/// 0..=6, foundation piles 0..=3 (one per suit, see `spec_index_suit`).
/// A `Location` only addresses piles; it never stores cards.
#[derive(Copy, Clone, Debug, PartialEq, Eq, Structural)]
pub enum Location {
    Stock,
    Waste,
    Tableau(usize),
    Foundation(usize),
}

impl Location {
    /// The index carried by a tableau or foundation location is in range.
    pub open spec fn wf(self) -> bool {
        match self {
            Location::Tableau(index) => index < 7,
            Location::Foundation(index) => index < 4,
            _ => true,
        }
    }
}

} // verus!
