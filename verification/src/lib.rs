//! A two-player chess rules engine: board representation, per-piece
//! pseudo-legal move generation, move legality, check and checkmate
//! detection, and the two supported special moves (castling and pawn
//! promotion to queen).

pub mod board;
pub mod chess_move;
pub mod game;
pub mod notation;
pub mod piece;
