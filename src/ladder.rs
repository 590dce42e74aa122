//! A small path model over whole numbers: each move adds one, doubles or takes one away.
//! The first move starts from one rather than from zero.

use vstd::prelude::*;
use crate::estimate::ESTIMATE_MOVE_LIMIT;
use crate::path::LatticePath;
use crate::ratio::UnsignedRatio;

verus! {

/// The most moves a ladder path can have.
pub const LADDER_MAX_MOVES: usize = 8;

/// The largest number a move may start from.
pub const LADDER_VALUE_CAP: u64 = 0x1_0000_0000;

/// One move on the ladder.
#[derive(Clone, Copy, Debug, PartialEq, Eq, Structural)]
pub enum Step {
    /// Adds one.
    Increment,
    /// Doubles.
    Double,
    /// Takes one away; legal only from a number above one.
    Decrement,
}

/// A path of ladder moves: its value, its length and how many moves of each kind it holds.
///
/// Its quasi-area is the number of doublings; one path's bounds are at least as good as
/// another's when it has no more doublings. A path should replace the best one when it
/// has fewer moves, or as many and fewer doublings.
#[derive(Clone, Copy, Debug, PartialEq, Eq, Structural)]
pub struct LadderPath {
    pub value: u64,
    pub moves: usize,
    pub increments: usize,
    pub doublings: usize,
    pub decrements: usize,
    pub negative: bool,
}

impl LadderPath {
    /// The number the next move starts from.
    pub open spec fn spec_base(&self) -> int {
        if self.moves == 0 {
            1
        } else {
            self.value as int
        }
    }
}

impl LatticePath for LadderPath {
    type Direction = Step;

    open spec fn spec_value(&self) -> UnsignedRatio {
        UnsignedRatio { numer: self.value, denom: 1 }
    }

    open spec fn spec_negative(&self) -> bool {
        self.negative
    }

    open spec fn spec_len(&self) -> nat {
        self.moves as nat
    }

    open spec fn max_moves() -> nat {
        LADDER_MAX_MOVES as nat
    }

    open spec fn spec_directions() -> Seq<Step> {
        seq![Step::Increment, Step::Double, Step::Decrement]
    }

    open spec fn spec_zero(negative: bool) -> Self {
        LadderPath { value: 0, moves: 0, increments: 0, doublings: 0, decrements: 0, negative }
    }

    open spec fn spec_extend(&self, d: Step) -> Option<Self> {
        let b = self.spec_base();
        if self.moves >= LADDER_MAX_MOVES || b > LADDER_VALUE_CAP || self.increments >= LADDER_MAX_MOVES
            || self.doublings >= LADDER_MAX_MOVES || self.decrements >= LADDER_MAX_MOVES {
            None
        } else {
            match d {
                Step::Increment => Some(
                    LadderPath {
                        value: (b + 1) as u64,
                        moves: (self.moves + 1) as usize,
                        increments: (self.increments + 1) as usize,
                        ..*self
                    },
                ),
                Step::Double => Some(
                    LadderPath {
                        value: (2 * b) as u64,
                        moves: (self.moves + 1) as usize,
                        doublings: (self.doublings + 1) as usize,
                        ..*self
                    },
                ),
                Step::Decrement => if b > 1 {
                    Some(
                        LadderPath {
                            value: (b - 1) as u64,
                            moves: (self.moves + 1) as usize,
                            decrements: (self.decrements + 1) as usize,
                            ..*self
                        },
                    )
                } else {
                    None
                },
            }
        }
    }

    open spec fn spec_quasi_area(&self) -> u64 {
        self.doublings as u64
    }

    open spec fn spec_better_bounds(&self, other: &Self) -> bool {
        self.doublings <= other.doublings
    }

    open spec fn spec_should_replace(&self, best: Option<Self>) -> bool {
        match best {
            None => true,
            Some(b) => self.moves < b.moves || (self.moves == b.moves && self.doublings < b.doublings),
        }
    }

    proof fn lemma_max_moves() {
    }

    proof fn lemma_zero(negative: bool) {
    }

    proof fn lemma_extend(&self, d: Step) {
    }

    fn zero(negative: bool) -> (r: Self) {
        LadderPath { value: 0, moves: 0, increments: 0, doublings: 0, decrements: 0, negative }
    }

    fn directions() -> (r: Vec<Step>) {
        let r = vec![Step::Increment, Step::Double, Step::Decrement];
        proof {
            assert(r@ =~= seq![Step::Increment, Step::Double, Step::Decrement]);
        }
        r
    }

    fn with_angle(&self, d: &Step) -> (r: Option<Self>) {
        let b: u64 = if self.moves == 0 { 1 } else { self.value };
        if self.moves >= LADDER_MAX_MOVES || b > LADDER_VALUE_CAP || self.increments >= LADDER_MAX_MOVES
            || self.doublings >= LADDER_MAX_MOVES || self.decrements >= LADDER_MAX_MOVES {
            return None;
        }
        match d {
            Step::Increment => Some(
                LadderPath { value: b + 1, moves: self.moves + 1, increments: self.increments + 1, ..*self },
            ),
            Step::Double => Some(
                LadderPath { value: 2 * b, moves: self.moves + 1, doublings: self.doublings + 1, ..*self },
            ),
            Step::Decrement => if b > 1 {
                Some(
                    LadderPath { value: b - 1, moves: self.moves + 1, decrements: self.decrements + 1, ..*self },
                )
            } else {
                None
            },
        }
    }

    fn value(&self) -> (r: UnsignedRatio) {
        UnsignedRatio { numer: self.value, denom: 1 }
    }

    fn len(&self) -> (r: usize) {
        self.moves
    }

    fn quasi_area(&self) -> (r: u64) {
        self.doublings as u64
    }

    fn is_better_than(&self, other: &Self) -> (r: bool) {
        self.doublings <= other.doublings
    }

    fn should_replace(&self, best: &Option<Self>) -> (r: bool) {
        match best {
            None => true,
            Some(b) => self.moves < b.moves || (self.moves == b.moves && self.doublings < b.doublings),
        }
    }

    fn duplicate(&self) -> (r: Self) {
        *self
    }
}

} // verus!
