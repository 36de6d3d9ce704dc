//! A 2048 game engine on packed bit-boards: the board primitives, the move
//! tables, the search helpers and the move-choosing strategies.

pub mod board;
pub mod line;
pub mod tables;
pub mod endgame;
pub mod algorithms;
pub mod engine;
