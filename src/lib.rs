//! A chess position engine: bitboards, precomputed attack tables with magic
//! slider lookups, a position with incremental make/unmake, pseudo-legal move
//! generation and a perft leaf counter.
//!
//! - `bitboard`: 64-bit square sets and the lemmas that read them bit by bit.
//! - `types`: colours, squares, piece kinds and pieces.
//! - `moves`: 16-bit packed moves.
//! - `attack`: knight, king and pawn tables, and the bundle of all tables.
//! - `magics`: relevant masks, the multiplier search and the flat slider tables.
//! - `fen`: the position text, read from its bytes.
//! - `board`: the position, make/unmake and attack queries.
//! - `movegen`: pseudo-legal move generation.
//! - `perft`: the leaf counter.
pub mod attack;
pub mod bitboard;
pub mod board;
pub mod fen;
pub mod magics;
pub mod movegen;
pub mod moves;
pub mod perft;
pub mod types;
