//! A chess rules engine: board positions, pieces, and per-kind move
//! generation, including captures, pawn promotion, and king-safety
//! filtering.

pub mod board;
pub mod color;
pub mod laws;
pub mod piece;
pub mod session;

pub use board::Board;
pub use color::Color;
pub use piece::{Piece, PieceKind, Position};
