//! A falling-block puzzle engine: pieces with authored rotation tables and
//! a board that places, moves, drops and clears them.

pub mod screen;
pub mod shape;
