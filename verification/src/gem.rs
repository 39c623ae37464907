//! The fixed gem palette of the first board prototype.

use vstd::prelude::*;

use crate::{MatchColor, SimpleGem};

verus! {

/// A gem color from the fixed palette; `Empty` marks a vacated cell.
#[derive(Debug, Clone, Copy, Default, Eq, PartialEq, Structural)]
pub enum GemColor {
    #[default]
    Empty,
    Red,
    Green,
    Blue,
    Light,
    Dark,
}

impl MatchColor for GemColor {
    open spec fn spec_matches(self, other: Self) -> bool {
        self == other
    }

    open spec fn spec_can_start_match(self) -> bool {
        self != GemColor::Empty
    }

    open spec fn spec_hint_is_unmatchable(self) -> bool {
        false
    }

    proof fn lemma_matches_commutative(a: Self, b: Self) {
    }

    fn matches(&self, other: &Self) -> (r: bool) {
        *self == *other
    }

    fn can_start_match(&self) -> (r: bool) {
        *self != GemColor::Empty
    }

    fn hint_is_unmatchable(&self) -> (r: bool) {
        false
    }
}

/// This palette's matching is an equivalence: every color matches itself and
/// matching is transitive, so the matcher never returns two groups that share
/// a cell on boards of these gems.
pub proof fn lemma_palette_matching_well_behaved()
    ensures
        crate::line::matching_well_behaved::<GemColor>(),
{
}

/// A board token of this palette.
pub type Gem = SimpleGem<GemColor>;

/// The ways a gem can be drawn while it sits on the board.
#[derive(Debug, Clone, Copy, Default, Eq, PartialEq, Structural)]
pub enum GemVisuals {
    #[default]
    Normal,
    Faded,
    Held,
    Cracking,
}

impl GemVisuals {
    /// Whether the gem is drawn normally.
    pub fn is_normal(&self) -> (r: bool)
        ensures
            r == (*self is Normal),
    {
        matches!(self, GemVisuals::Normal)
    }

    /// Whether the gem is drawn faded out.
    pub fn is_faded(&self) -> (r: bool)
        ensures
            r == (*self is Faded),
    {
        matches!(self, GemVisuals::Faded)
    }

    /// Whether the gem is drawn held by the pointer.
    pub fn is_held(&self) -> (r: bool)
        ensures
            r == (*self is Held),
    {
        matches!(self, GemVisuals::Held)
    }

    /// Whether the gem is drawn cracking away.
    pub fn is_cracking(&self) -> (r: bool)
        ensures
            r == (*self is Cracking),
    {
        matches!(self, GemVisuals::Cracking)
    }
}

} // verus!
