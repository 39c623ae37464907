//! The gem colors of the combat prototype, which takes its palette from a
//! registry of color definitions and refers to each color by its id.

use vstd::prelude::*;

use crate::refilling::RefillableGem;
use crate::{MatchColor, SimpleGem};

verus! {

/// The registry id of a gem color definition.
#[derive(Debug, Clone, Copy, Eq, PartialEq, Hash, Structural)]
pub struct GemColorId(pub u64);

/// A combat gem color: empty, or one of the registry's colors.
#[derive(Debug, Clone, Copy, Default, Eq, PartialEq, Structural)]
pub enum GemColor {
    #[default]
    Empty,
    Color(GemColorId),
}

impl MatchColor for GemColor {
    open spec fn spec_matches(self, other: Self) -> bool {
        match (self, other) {
            (GemColor::Color(c1), GemColor::Color(c2)) => c1 == c2,
            _ => false,
        }
    }

    open spec fn spec_can_start_match(self) -> bool {
        self is Color
    }

    open spec fn spec_hint_is_unmatchable(self) -> bool {
        self is Empty
    }

    proof fn lemma_matches_commutative(a: Self, b: Self) {
    }

    fn matches(&self, other: &Self) -> (r: bool) {
        match (self, other) {
            (GemColor::Color(c1), GemColor::Color(c2)) => c1.0 == c2.0,
            _ => false,
        }
    }

    fn can_start_match(&self) -> (r: bool) {
        match self {
            GemColor::Empty => false,
            GemColor::Color(_) => true,
        }
    }

    fn hint_is_unmatchable(&self) -> (r: bool) {
        match self {
            GemColor::Empty => true,
            GemColor::Color(_) => false,
        }
    }
}

impl RefillableGem for GemColor {
    open spec fn spec_is_empty(self) -> bool {
        self is Empty
    }

    fn is_empty(&self) -> (r: bool) {
        matches!(self, GemColor::Empty)
    }
}

/// Combat matching is an equivalence on the registry colors: a color matches
/// itself and matching is transitive, so the matcher never returns two groups
/// that share a cell on combat boards.
pub proof fn lemma_combat_matching_well_behaved()
    ensures
        crate::line::matching_well_behaved::<GemColor>(),
{
}

/// A board token of the combat prototype.
pub type Gem = SimpleGem<GemColor>;

} // verus!
