//! The core of a chess engine: moves packed in sixteen bits, bitboards, the
//! squares pieces attack, positions, legal and pseudo-legal move generation,
//! the transposition table that maps Zobrist keys to search results, and the
//! decisions of the search threads.

pub mod templates;
pub mod bitboard;
pub mod piece_move;
pub mod attacks;
pub mod board;
pub mod movegen;
pub mod move_properties;
pub mod tt;
pub mod threads;
