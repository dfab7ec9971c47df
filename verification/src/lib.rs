//! A branch-and-bound search for an exact tiling of an 8x8 grid by a fixed
//! library of thirteen polyomino-like pieces, each placeable in any of its
//! rotated or mirrored orientations, such that the placed symbols reproduce
//! a known target pattern exactly.

pub mod board;
pub mod search;
pub mod shapes;
pub mod target;
