pub mod bitboard;
pub mod codec;
pub mod zobrist;
pub mod chess;
pub mod attacks;
pub mod movegen;
pub mod fen;
pub mod min_max;
