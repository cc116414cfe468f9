//! Decoding of chess positions written in Forsyth-Edwards Notation (FEN).
//!
//! A FEN record is one line of six whitespace-separated fields: piece
//! placement, side to move, castling rights, en-passant target, halfmove
//! clock and fullmove number. [`fen::Fen::to_position`] turns such a line
//! into a [`board::Position`], or reports the first field that is wrong.
//!
//! - [`text`]: characters, white space, fields and numerals.
//! - [`board`]: pieces, castling rights, squares, the board and the position.
//! - [`fen`]: the piece placement and the record as a whole.
//! - [`error`]: why a record is rejected.

pub mod board;
pub mod error;
pub mod fen;
pub mod text;
