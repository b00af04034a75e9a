//! Grid games: a maze with animated path searches, the Game of Life, and a duck.

pub mod conway_gol;
pub mod error;
pub mod evade_duck;
pub mod grid;
pub mod maze;
pub mod parse;
pub mod pathfinding;
pub mod random;
