//! Best-first search for the shortest move sequence whose value equals a rational target.
//!
//! [`engine::AStarPathGenerator`] runs the search over any [`path::LatticePath`];
//! [`ladder::LadderPath`] is a small path model to run it on.

pub mod engine;
pub mod estimate;
pub mod ladder;
pub mod path;
pub mod ratio;

pub use engine::AStarPathGenerator;
pub use ladder::{LadderPath, Step};
pub use path::LatticePath;
pub use ratio::{SignedRatio, UnsignedRatio};
