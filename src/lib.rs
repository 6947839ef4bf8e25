//! A verified rules engine for the board game Tak.
//!
//! - `types`: colours, pieces, directions, squares and moves.
//! - `notation`: reading and writing a single move.
//! - `game`: the game state, its mathematical view, and the result of a position.
//! - `rules`: which moves are legal, what playing one does, and the list of legal moves.
//! - `symmetry`: the eight symmetries of the board, on squares, moves and games.
//! - `tps`: position text, and the canonical orientation of a game.
//! - `ptn`: game records with tags, moves, comments and a result.
//! - `laws`: properties proved of the whole: reserve conservation, the round trips of
//!   move and position text, and idempotence of the canonical orientation.
mod text;
pub mod types;
pub mod notation;
pub mod game;
pub mod rules;
pub mod symmetry;
pub mod tps;
pub mod ptn;
pub mod laws;
