//! A match-3 puzzle-board engine: line matching with group merging, match
//! removal, and gravity-driven refilling over a rectangular board.

#![verifier::loop_isolation(false)]

use vstd::prelude::*;

pub mod char_board;
pub mod combat_gem;
pub mod gem;
pub mod line;
pub mod luck;
pub mod rect_board;
pub mod refilling;
pub mod staggerer;

verus! {

/// The capability a board token's color must provide so that the matcher can
/// compare cells: an equality-like `matches` test, a check whether a run may
/// start on the color, and a conservative skip hint for unmatchable cells.
pub trait MatchColor: Sized + Copy {
    /// What `matches` returns, as a mathematical predicate.
    spec fn spec_matches(self, other: Self) -> bool;

    /// What `can_start_match` returns.
    spec fn spec_can_start_match(self) -> bool;

    /// What `hint_is_unmatchable` returns.
    spec fn spec_hint_is_unmatchable(self) -> bool;

    /// `matches` must be commutative; implementations discharge this law once
    /// and every user of the trait may rely on it.
    proof fn lemma_matches_commutative(a: Self, b: Self)
        ensures
            a.spec_matches(b) == b.spec_matches(a),
    ;

    /// Checks whether two colors match.
    fn matches(&self, other: &Self) -> (r: bool)
        ensures
            r == self.spec_matches(*other),
    ;

    /// Checks whether a match run may start with a gem of this color.
    /// False for wildcard and empty colors.
    fn can_start_match(&self) -> (r: bool)
        ensures
            r == self.spec_can_start_match(),
    ;

    /// Hints that the color can be skipped entirely while scanning.
    /// Must stay false for any color that could extend a neighbouring run.
    fn hint_is_unmatchable(&self) -> (r: bool)
        ensures
            r == self.spec_hint_is_unmatchable(),
    ;
}

/// A board cell: an arbitrary payload exposing a matchable color.
pub trait BoardGem: Sized {
    type Color: MatchColor;

    /// The color `color` returns.
    spec fn spec_color(self) -> Self::Color;

    /// The color the matcher inspects.
    fn color(&self) -> (c: Self::Color)
        ensures
            c == self.spec_color(),
    ;
}

/// Two mutable references into one vector, at two distinct indices.
///
/// The original panics when the indices are equal or out of bounds, so those
/// inputs are excluded here.
pub fn get_two_mut<T>(slice: &mut Vec<T>, i1: usize, i2: usize) -> (r: (&mut T, &mut T))
    requires
        i1 != i2,
        i1 < old(slice).len(),
        i2 < old(slice).len(),
    ensures
        *r.0 == old(slice)@[i1 as int],
        *r.1 == old(slice)@[i2 as int],
        final (slice)@.len() == old(slice)@.len(),
        final (slice)@[i1 as int] == *final (r.0),
        final (slice)@[i2 as int] == *final (r.1),
        forall|k: int|
            0 <= k < old(slice)@.len() && k != i1 && k != i2 ==> final (slice)@[k] == old(
                slice,
            )@[k],
{
    let s = slice.as_mut_slice();
    if i1 < i2 {
        let (l, rest) = s.split_at_mut(i2);
        let (_, m) = l.split_at_mut(i1);
        let e1 = m.first_mut().unwrap();
        let e2 = rest.first_mut().unwrap();
        (e1, e2)
    } else {
        let (l, rest) = s.split_at_mut(i1);
        let (_, m) = l.split_at_mut(i2);
        let e2 = m.first_mut().unwrap();
        let e1 = rest.first_mut().unwrap();
        (e1, e2)
    }
}

/// The simplest gem: nothing but a color.
#[derive(Debug, Clone, Copy, Default, Eq, PartialEq)]
pub struct SimpleGem<C: MatchColor>(pub C);

impl<C: MatchColor> BoardGem for SimpleGem<C> {
    type Color = C;

    open spec fn spec_color(self) -> C {
        self.0
    }

    fn color(&self) -> C {
        self.0
    }
}

/// A group of matched cells: the shared color plus the claimed cell indices.
pub struct BoardMatch<Color: MatchColor> {
    color: Color,
    cells: Vec<usize>,
}

impl<Color: MatchColor> BoardMatch<Color> {
    /// The group's color, as seen by specifications.
    pub closed spec fn spec_color(self) -> Color {
        self.color
    }

    /// The group's cell indices, as seen by specifications.
    pub closed spec fn spec_cells(self) -> Seq<usize> {
        self.cells@
    }

    /// An empty group of the given color.
    pub fn new(color: Color) -> (r: Self)
        ensures
            r.spec_color() == color,
            r.spec_cells() == Seq::<usize>::empty(),
    {
        BoardMatch { color, cells: Vec::new() }
    }

    /// A group made of the given cells.
    pub fn from_cells(color: Color, cells: Vec<usize>) -> (r: Self)
        ensures
            r.spec_color() == color,
            r.spec_cells() == cells@,
    {
        BoardMatch { color, cells }
    }

    /// The group's color.
    pub fn color(&self) -> (r: &Color)
        ensures
            *r == self.spec_color(),
    {
        &self.color
    }

    /// The claimed cell indices.
    pub fn cells(&self) -> (r: &Vec<usize>)
        ensures
            r@ == self.spec_cells(),
    {
        &self.cells
    }

    /// Mutable access to the claimed cell indices; the color never changes.
    pub fn cells_mut(&mut self) -> (r: &mut Vec<usize>)
        ensures
            r@ == old(self).spec_cells(),
            final (self).spec_cells() == final (r)@,
            final (self).spec_color() == old(self).spec_color(),
    {
        &mut self.cells
    }
}

} // verus!
