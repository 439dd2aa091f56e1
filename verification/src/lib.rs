//! Chess positions on bitboards: sets of squares as 64-bit words, the twelve
//! sets of pieces of a position and the check that they agree, positions in
//! Forsyth-Edwards notation, the squares that pieces attack, moves and their
//! test, and a seeded generator of 64-bit numbers.

pub mod api;
pub mod attacks;
pub mod bitboard;
pub mod board;
pub mod enums;
pub mod fen;
pub mod fen_encode;
pub mod movegen;
pub mod moves;
pub mod play;
pub mod rnd;
pub mod state;
pub mod utils;
