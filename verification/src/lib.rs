//! An Othello (Reversi) board engine whose rules are stated as mathematics and
//! proved of the executable code.
//!
//! Squares are addressed by 1-based coordinates: `Point { x: 1, y: 1 }` is the
//! top-left square, `x` grows to the right and `y` grows downwards.

pub mod cell;
pub mod count;
pub mod game;
pub mod laws;
pub mod othello;
pub mod point;
pub mod rules;
pub mod text;
