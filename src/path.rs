//! What the search needs from a path of moves: its value, length, legal extensions,
//! bounding-shape comparisons and the preference between exact matches.

use vstd::prelude::*;
use crate::estimate::ESTIMATE_MOVE_LIMIT;
use crate::ratio::UnsignedRatio;

verus! {

/// A sequence of moves from an empty root, as a value: extending one makes a new one.
///
/// The spec functions describe the path; each executable method returns what they say.
pub trait LatticePath: Sized {
    /// One move.
    type Direction;

    /// The magnitude of the path's value.
    spec fn spec_value(&self) -> UnsignedRatio;

    /// Whether the path's value is taken below zero (the sign its root was biased by).
    spec fn spec_negative(&self) -> bool;

    /// The number of moves.
    spec fn spec_len(&self) -> nat;

    /// The most moves any path can have.
    spec fn max_moves() -> nat;

    /// Every direction, in the order they are tried.
    spec fn spec_directions() -> Seq<Self::Direction>;

    /// The empty path, biased below zero when `negative`.
    spec fn spec_zero(negative: bool) -> Self;

    /// The path extended by `d`, or `None` where `d` is no legal continuation.
    spec fn spec_extend(&self, d: Self::Direction) -> Option<Self>;

    /// The compactness score of the path's bounding shape: smaller is better.
    spec fn spec_quasi_area(&self) -> u64;

    /// The path's bounding shape is at least as good as that of `other`.
    spec fn spec_better_bounds(&self, other: &Self) -> bool;

    /// The path should take the place of `best` (always so when there is none).
    spec fn spec_should_replace(&self, best: Option<Self>) -> bool;

    /// Paths are short enough for their estimates to be computed.
    proof fn lemma_max_moves()
        ensures
            Self::max_moves() <= ESTIMATE_MOVE_LIMIT,
    ;

    /// The empty path has no moves and value zero.
    proof fn lemma_zero(negative: bool)
        ensures
            Self::spec_zero(negative).spec_len() == 0,
            Self::spec_zero(negative).spec_value().wf(),
            Self::spec_zero(negative).spec_value().numer == 0,
            Self::spec_zero(negative).spec_negative() == negative,
    ;

    /// An extension has one move more, keeps the sign bias and stays within `max_moves`.
    proof fn lemma_extend(&self, d: Self::Direction)
        requires
            self.spec_len() <= Self::max_moves(),
        ensures
            self.spec_extend(d) matches Some(c) ==> {
                &&& c.spec_len() == self.spec_len() + 1
                &&& c.spec_len() <= Self::max_moves()
                &&& c.spec_value().wf()
                &&& c.spec_negative() == self.spec_negative()
            },
    ;

    fn zero(negative: bool) -> (r: Self)
        ensures
            r == Self::spec_zero(negative),
    ;

    fn directions() -> (r: Vec<Self::Direction>)
        ensures
            r@ == Self::spec_directions(),
    ;

    fn with_angle(&self, d: &Self::Direction) -> (r: Option<Self>)
        ensures
            r == self.spec_extend(*d),
    ;

    fn value(&self) -> (r: UnsignedRatio)
        ensures
            r == self.spec_value(),
    ;

    fn len(&self) -> (r: usize)
        ensures
            r == self.spec_len(),
    ;

    fn quasi_area(&self) -> (r: u64)
        ensures
            r == self.spec_quasi_area(),
    ;

    fn is_better_than(&self, other: &Self) -> (r: bool)
        ensures
            r == self.spec_better_bounds(other),
    ;

    fn should_replace(&self, best: &Option<Self>) -> (r: bool)
        ensures
            r == self.spec_should_replace(*best),
    ;

    fn duplicate(&self) -> (r: Self)
        ensures
            r == *self,
    ;
}

} // verus!
