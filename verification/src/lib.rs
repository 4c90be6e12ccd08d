//! Solver for the "cell tower" word-placement puzzle: a rectangular grid of
//! letters is partitioned into rook-connected regions, each of which spells a
//! dictionary word when its cells are read in row-major order.

pub mod bitset;
pub mod board;
pub mod connectivity;
pub mod dictionary;
pub mod point;
pub mod search;

pub use bitset::Bitset;
pub use board::{Board, ParseError};
pub use dictionary::Node;
pub use point::{Point, PointSet};
