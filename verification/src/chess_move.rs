use vstd::prelude::*;

use crate::piece::{Piece, PieceType};

verus! {

/// A record of a single move: the squares involved, the piece moved,
/// what it captured, and any special-move markers.
pub struct Move {
    pub from: (usize, usize),
    pub to: (usize, usize),
    pub piece_moved: Piece,
    pub piece_captured: Option<Piece>,
    pub is_castling_move: bool,
    pub is_en_passant_move: bool,
    pub promoted_to: Option<PieceType>,
}

impl Move {
    /// A record of a regular move: no castling, no en passant, no
    /// promotion.
    pub fn new(
        from: (usize, usize),
        to: (usize, usize),
        piece_moved: Piece,
        piece_captured: Option<Piece>,
    ) -> (m: Move)
        ensures
            m.from == from,
            m.to == to,
            m.piece_moved == piece_moved,
            m.piece_captured == piece_captured,
            !m.is_castling_move,
            !m.is_en_passant_move,
            m.promoted_to is None,
    {
        Move {
            from,
            to,
            piece_moved,
            piece_captured,
            is_castling_move: false,
            is_en_passant_move: false,
            promoted_to: None,
        }
    }
}

} // verus!
