use vstd::prelude::*;

use crate::board::{
    cell_of, empty_at, idx, initial_cell, moved_board, on_board, piece_at, Board, Cell,
};
use crate::piece::{lemma_piece_reaches_on_board, piece_reaches, Color, Piece, PieceType};

verus! {

/// The five possible game states. The engine itself only ever constructs
/// `Ongoing`; check and checkmate are exposed as point-in-time queries
/// rather than written back into this field.
#[derive(Clone, Copy, Debug, PartialEq, Eq, Structural)]
pub enum GameState {
    Ongoing,
    Check,
    Checkmate,
    Stalemate,
    Draw,
}

/// The color that moves after `col`.
pub open spec fn opponent(col: Color) -> Color {
    match col {
        Color::White => Color::Black,
        Color::Black => Color::White,
    }
}

/// A piece opposing `col` stands at `(r, c)` and its pseudo-legal move
/// set contains `(tr, tc)`.
pub open spec fn attacker_at(b: Seq<Cell>, col: Color, r: int, c: int, tr: int, tc: int) -> bool {
    &&& on_board(r, c)
    &&& cell_of(b, r, c) matches Cell::Occupied(p) && p.color != col && piece_reaches(
        b,
        p,
        r,
        c,
        tr,
        tc,
    )
}

/// Some piece opposing `col` has `(tr, tc)` in its pseudo-legal move set.
pub open spec fn attacks_square(b: Seq<Cell>, col: Color, tr: int, tc: int) -> bool {
    exists|r: int, c: int| attacker_at(b, col, r, c, tr, tc)
}

/// A king of color `col` stands at `(r, c)`.
pub open spec fn king_square_at(b: Seq<Cell>, col: Color, r: int, c: int) -> bool {
    &&& on_board(r, c)
    &&& cell_of(b, r, c) matches Cell::Occupied(p) && p.color == col && p.piece_type
        == PieceType::King
}

/// `(r, c)` is the first square in row-major scan order holding a king of
/// color `col`.
pub open spec fn first_king_at(b: Seq<Cell>, col: Color, r: int, c: int) -> bool {
    &&& king_square_at(b, col, r, c)
    &&& forall|r2: int, c2: int|
        idx(r2, c2) < idx(r, c) ==> !#[trigger] king_square_at(b, col, r2, c2)
}

/// The player of color `col` is in check: their king square (the first
/// one found in scan order, if several exist) is a pseudo-legal
/// destination of some opposing piece. A player without a king on the
/// board is not in check.
pub open spec fn in_check(b: Seq<Cell>, col: Color) -> bool {
    exists|r: int, c: int|
        #![trigger first_king_at(b, col, r, c)]
        first_king_at(b, col, r, c) && attacks_square(b, col, r, c)
}

/// The player of color `col` has a piece at `(r, c)` whose pseudo-legal
/// move to `(tr, tc)`, tried on a copy of the board by unconditional
/// relocation, leaves that player out of check.
pub open spec fn escape_move(b: Seq<Cell>, col: Color, r: int, c: int, tr: int, tc: int) -> bool {
    &&& on_board(r, c)
    &&& cell_of(b, r, c) matches Cell::Occupied(p) && p.color == col && piece_reaches(
        b,
        p,
        r,
        c,
        tr,
        tc,
    )
    &&& !in_check(moved_board(b, r, c, tr, tc), col)
}

/// The player of color `col` is checkmated: in check, and no pseudo-legal
/// move of any of that player's pieces removes the check.
pub open spec fn in_checkmate(b: Seq<Cell>, col: Color) -> bool {
    &&& in_check(b, col)
    &&& !(exists|r: int, c: int, tr: int, tc: int| escape_move(b, col, r, c, tr, tc))
}

/// The move from `(fr, fc)` to `(tr, tc)` is accepted for the player of
/// color `col`: both squares are on the board, the origin holds a piece
/// of that color, and the destination is in that piece's pseudo-legal
/// move set. Check-safety of the mover's own king is not considered.
pub open spec fn valid_move_spec(b: Seq<Cell>, col: Color, fr: int, fc: int, tr: int, tc: int) -> bool {
    &&& on_board(fr, fc)
    &&& on_board(tr, tc)
    &&& piece_at(b, fr, fc) matches Some(p) && p.color == col && piece_reaches(b, p, fr, fc, tr, tc)
}

/// `x` lies strictly between `a` and `b2`.
pub open spec fn col_between(a: int, b2: int, x: int) -> bool {
    (a < x && x < b2) || (b2 < x && x < a)
}

/// Castling from `(fr, fc)` toward column `tc` is allowed for the player
/// of color `col`: the origin square holds an unmoved king; the home
/// square of the chosen side's rook (column 7 when the destination
/// column is beyond the king's, else column 0) holds an unmoved rook;
/// every square strictly between king and rook in that row is empty;
/// the player is not in check; and none of those between squares is a
/// pseudo-legal destination of an opposing piece.
pub open spec fn can_castle_spec(b: Seq<Cell>, col: Color, fr: int, fc: int, tr: int, tc: int) -> bool {
    let king_side = tc > fc;
    let rc = if king_side {
        7int
    } else {
        0int
    };
    &&& cell_of(b, fr, fc) matches Cell::Occupied(k) && k.piece_type == PieceType::King
        && !k.has_moved
    &&& cell_of(b, fr, rc) matches Cell::Occupied(rk) && rk.piece_type == PieceType::Rook
        && !rk.has_moved
    &&& forall|c2: int| col_between(fc, rc, c2) ==> #[trigger] empty_at(b, fr, c2)
    &&& !in_check(b, col)
    &&& !(exists|c2: int| col_between(fc, rc, c2) && #[trigger] attacks_square(b, col, fr, c2))
}

/// The board after a legal castling move from `(fr, fc)` to `(tr, tc)`:
/// the king is written to the destination and its origin emptied, then
/// the rook of the chosen side is written to the square beside the
/// king's origin on that side and the rook's origin emptied.
pub open spec fn castle_result(b: Seq<Cell>, fr: int, fc: int, tr: int, tc: int) -> Seq<Cell> {
    let king_side = tc > fc;
    let rfc = if king_side {
        7int
    } else {
        0int
    };
    let rtc = if king_side {
        fc + 1
    } else {
        fc - 1
    };
    let b1 = match cell_of(b, fr, fc) {
        Cell::Occupied(k) => b.update(idx(tr, tc), Cell::Occupied(k)).update(
            idx(fr, fc),
            Cell::Empty,
        ),
        Cell::Empty => b,
    };
    match cell_of(b1, fr, rfc) {
        Cell::Occupied(rk) => b1.update(idx(fr, rtc), Cell::Occupied(rk)).update(
            idx(fr, rfc),
            Cell::Empty,
        ),
        Cell::Empty => b1,
    }
}

/// Where a legal castling move puts the pieces: for a king castling two
/// columns toward the chosen rook, the king lands on the destination,
/// the rook lands beside the king's origin on the rook's side, both
/// origin squares are emptied, and every other square keeps its
/// content. (A king standing one column short of the rook's own home
/// square is left out: there the destination and the rook's home square
/// coincide and the relocations overlap.)
pub proof fn lemma_castle_places_pieces(b: Seq<Cell>, col: Color, fr: int, fc: int, tr: int, tc: int)
    requires
        b.len() == 64,
        on_board(fr, fc),
        on_board(tr, tc),
        can_castle_spec(b, col, fr, fc, tr, tc),
        tr == fr,
        (tc == fc + 2 && fc < 5) || (tc == fc - 2 && fc > 2),
    ensures
        ({
            let king_side = tc > fc;
            let rfc = if king_side {
                7int
            } else {
                0int
            };
            let rtc = if king_side {
                fc + 1
            } else {
                fc - 1
            };
            let after = castle_result(b, fr, fc, tr, tc);
            &&& cell_of(after, tr, tc) == cell_of(b, fr, fc)
            &&& cell_of(after, fr, rtc) == cell_of(b, fr, rfc)
            &&& cell_of(after, fr, fc) is Empty
            &&& cell_of(after, fr, rfc) is Empty
            &&& forall|r2: int, c2: int|
                on_board(r2, c2) && !(r2 == fr && (c2 == fc || c2 == tc || c2 == rfc || c2 == rtc))
                    ==> #[trigger] cell_of(after, r2, c2) == cell_of(b, r2, c2)
        }),
{
    let king_side = tc > fc;
    let rfc = if king_side {
        7int
    } else {
        0int
    };
    let rtc = if king_side {
        fc + 1
    } else {
        fc - 1
    };
    let after = castle_result(b, fr, fc, tr, tc);
    assert forall|r2: int, c2: int|
        on_board(r2, c2) && !(r2 == fr && (c2 == fc || c2 == tc || c2 == rfc || c2 == rtc))
            implies #[trigger] cell_of(after, r2, c2) == cell_of(b, r2, c2) by {
        if idx(r2, c2) == idx(fr, fc) {
            crate::board::lemma_idx_injective(r2, c2, fr, fc);
        }
        if idx(r2, c2) == idx(tr, tc) {
            crate::board::lemma_idx_injective(r2, c2, tr, tc);
        }
        if idx(r2, c2) == idx(fr, rfc) {
            crate::board::lemma_idx_injective(r2, c2, fr, rfc);
        }
        if idx(r2, c2) == idx(fr, rtc) {
            crate::board::lemma_idx_injective(r2, c2, fr, rtc);
        }
    }
}

/// The farthest row for a pawn of the given color.
pub open spec fn promotion_row(col: Color) -> int {
    match col {
        Color::White => 7,
        Color::Black => 0,
    }
}

/// The square at `(tr, tc)` holds a pawn standing on the farthest row
/// for its color.
pub open spec fn is_promo_spec(b: Seq<Cell>, tr: int, tc: int) -> bool {
    cell_of(b, tr, tc) matches Cell::Occupied(p) && p.piece_type == PieceType::Pawn && tr
        == promotion_row(p.color)
}

/// The board after promotion is resolved at `(tr, tc)`: a pawn on its
/// farthest row is replaced by a queen of the same color with the moved
/// flag set; any other square is left alone.
pub open spec fn promo_result(b: Seq<Cell>, tr: int, tc: int) -> Seq<Cell> {
    match cell_of(b, tr, tc) {
        Cell::Occupied(p) => if p.piece_type == PieceType::Pawn && tr == promotion_row(p.color) {
            b.update(
                idx(tr, tc),
                Cell::Occupied(
                    Piece { piece_type: PieceType::Queen, color: p.color, has_moved: true },
                ),
            )
        } else {
            b
        },
        Cell::Empty => b,
    }
}

/// The board after special moves are resolved for a just-committed move
/// from `(fr, fc)` to `(tr, tc)`: dispatch on the piece that moved, now
/// standing at the destination — a king attempts castling, a pawn
/// attempts promotion, anything else leaves the board alone.
pub open spec fn special_result(b: Seq<Cell>, col: Color, fr: int, fc: int, tr: int, tc: int) -> Seq<
    Cell,
> {
    match cell_of(b, tr, tc) {
        Cell::Occupied(p) => if p.piece_type == PieceType::King {
            if can_castle_spec(b, col, fr, fc, tr, tc) {
                castle_result(b, fr, fc, tr, tc)
            } else {
                b
            }
        } else if p.piece_type == PieceType::Pawn {
            promo_result(b, tr, tc)
        } else {
            b
        },
        Cell::Empty => b,
    }
}

/// A player whose king is absent from the board is never in check.
pub proof fn lemma_no_king_not_in_check(b: Seq<Cell>, col: Color)
    requires
        forall|r: int, c: int| !#[trigger] king_square_at(b, col, r, c),
    ensures
        !in_check(b, col),
{
}

/// Two distinct squares cannot both be the first king square.
proof fn lemma_first_king_unique(b: Seq<Cell>, col: Color, r1: int, c1: int, r2: int, c2: int)
    requires
        first_king_at(b, col, r1, c1),
        first_king_at(b, col, r2, c2),
    ensures
        r1 == r2 && c1 == c2,
{
    if idx(r1, c1) < idx(r2, c2) {
        assert(!king_square_at(b, col, r1, c1));
    } else if idx(r2, c2) < idx(r1, c1) {
        assert(!king_square_at(b, col, r2, c2));
    }
}

/// True of a vector of squares exactly when it holds the given square.
fn contains_square(v: &Vec<(usize, usize)>, t: (usize, usize)) -> (r: bool)
    ensures
        r == v@.contains(t),
{
    let mut i: usize = 0;
    while i < v.len()
        invariant
            i <= v@.len(),
            forall|k: int| 0 <= k < i ==> v@[k] != t,
        decreases v@.len() - i,
    {
        let e = v[i];
        if e.0 == t.0 && e.1 == t.1 {
            proof {
                assert(v@[i as int] == t);
            }
            return true;
        }
        i += 1;
    }
    false
}

/// A game: the board, whose turn it is, and an informational state value.
pub struct Game {
    pub board: Board,
    pub current_player: Color,
    pub state: GameState,
}

impl Game {
    /// The owned board is well formed.
    pub open spec fn wf(&self) -> bool {
        self.board.wf()
    }

    /// A fresh game on the standard starting position.
    pub fn new() -> (g: Game)
        ensures
            g.wf(),
            forall|r: int, c: int| on_board(r, c) ==> cell_of(g.board@, r, c) == initial_cell(r, c),
            g.current_player == Color::Black,
            g.state == GameState::Ongoing,
    {
        Game { board: Board::new(), current_player: Color::Black, state: GameState::Ongoing }
    }

    /// Hands the turn to the other player; nothing else changes.
    pub fn switch_player(&mut self)
        ensures
            final(self).board == old(self).board,
            final(self).state == old(self).state,
            final(self).current_player == opponent(old(self).current_player),
    {
        self.current_player = match self.current_player {
            Color::White => Color::Black,
            Color::Black => Color::White,
        };
    }

    /// Both coordinates lie on the board.
    fn is_within_bounds(&self, position: (usize, usize)) -> (r: bool)
        ensures
            r == on_board(position.0 as int, position.1 as int),
    {
        position.0 < 8 && position.1 < 8
    }

    /// Whether the current player may move the piece at `from` to `to`:
    /// true exactly when both squares are on the board, `from` holds one
    /// of the current player's pieces, and `to` is in that piece's
    /// pseudo-legal move set; check-safety is not consulted.
    pub fn is_valid_move(&self, from: (usize, usize), to: (usize, usize)) -> (r: bool)
        requires
            self.wf(),
        ensures
            r == valid_move_spec(
                self.board@,
                self.current_player,
                from.0 as int,
                from.1 as int,
                to.0 as int,
                to.1 as int,
            ),
    {
        if !self.is_within_bounds(from) || !self.is_within_bounds(to) {
            return false;
        }
        if let Some(piece) = self.board.get_piece_at(from) {
            if piece.color != self.current_player {
                return false;
            }
            let valid_moves = piece.valid_moves(from, &self.board);
            if contains_square(&valid_moves, to) {
                return true;
            }
        }
        false
    }

    /// The first square in row-major scan order holding a king of the
    /// given color, or `None` when that king is absent from the board.
    fn find_king(&self, color: Color) -> (r: Option<(usize, usize)>)
        requires
            self.wf(),
        ensures
            r matches Some(p) ==> first_king_at(self.board@, color, p.0 as int, p.1 as int),
            r is None ==> forall|r2: int, c2: int| !king_square_at(self.board@, color, r2, c2),
    {
        let mut i: usize = 0;
        while i < 8
            invariant
                self.wf(),
                i <= 8,
                forall|r2: int, c2: int|
                    0 <= r2 < i ==> !#[trigger] king_square_at(self.board@, color, r2, c2),
            decreases 8 - i,
        {
            let mut j: usize = 0;
            while j < 8
                invariant
                    self.wf(),
                    i < 8,
                    j <= 8,
                    forall|r2: int, c2: int|
                        0 <= r2 < i ==> !#[trigger] king_square_at(self.board@, color, r2, c2),
                    forall|c2: int|
                        0 <= c2 < j ==> !#[trigger] king_square_at(self.board@, color, i as int, c2),
                decreases 8 - j,
            {
                if let Some(piece) = self.board.get_piece_at((i, j)) {
                    if piece.color == color && matches!(piece.piece_type, PieceType::King) {
                        proof {
                            assert forall|r2: int, c2: int|
                                idx(r2, c2) < idx(i as int, j as int) implies !#[trigger] king_square_at(
                                self.board@,
                                color,
                                r2,
                                c2,
                            ) by {
                                if king_square_at(self.board@, color, r2, c2) {
                                    assert(on_board(r2, c2));
                                }
                            }
                        }
                        return Some((i, j));
                    }
                }
                j += 1;
            }
            i += 1;
        }
        None
    }

    /// Whether the current player is in check: the king square (the first
    /// in scan order, if several kings exist) is a pseudo-legal
    /// destination of some opposing piece; false when the current player
    /// has no king on the board.
    pub fn is_in_check(&self) -> (r: bool)
        requires
            self.wf(),
        ensures
            r == in_check(self.board@, self.current_player),
    {
        let king_pos = match self.find_king(self.current_player) {
            None => {
                return false;
            },
            Some(kp) => kp,
        };
        let kr = king_pos.0;
        let kc = king_pos.1;
        let mut i: usize = 0;
        while i < 8
            invariant
                self.wf(),
                i <= 8,
                kr < 8,
                kc < 8,
                first_king_at(self.board@, self.current_player, kr as int, kc as int),
                forall|r2: int, c2: int|
                    0 <= r2 < i ==> !#[trigger] attacker_at(
                        self.board@,
                        self.current_player,
                        r2,
                        c2,
                        kr as int,
                        kc as int,
                    ),
            decreases 8 - i,
        {
            let mut j: usize = 0;
            while j < 8
                invariant
                    self.wf(),
                    i < 8,
                    j <= 8,
                    kr < 8,
                    kc < 8,
                    first_king_at(self.board@, self.current_player, kr as int, kc as int),
                    forall|r2: int, c2: int|
                        0 <= r2 < i ==> !#[trigger] attacker_at(
                            self.board@,
                            self.current_player,
                            r2,
                            c2,
                            kr as int,
                            kc as int,
                        ),
                    forall|c2: int|
                        0 <= c2 < j ==> !#[trigger] attacker_at(
                            self.board@,
                            self.current_player,
                            i as int,
                            c2,
                            kr as int,
                            kc as int,
                        ),
                decreases 8 - j,
            {
                if let Some(piece) = self.board.get_piece_at((i, j)) {
                    if piece.color != self.current_player {
                        let valid_moves = piece.valid_moves((i, j), &self.board);
                        if contains_square(&valid_moves, (kr, kc)) {
                            proof {
                                assert(attacker_at(
                                    self.board@,
                                    self.current_player,
                                    i as int,
                                    j as int,
                                    kr as int,
                                    kc as int,
                                ));
                            }
                            return true;
                        }
                    }
                }
                j += 1;
            }
            i += 1;
        }
        proof {
            if in_check(self.board@, self.current_player) {
                let (r, c) = choose|r: int, c: int|
                    #![trigger first_king_at(self.board@, self.current_player, r, c)]
                    first_king_at(self.board@, self.current_player, r, c) && attacks_square(
                        self.board@,
                        self.current_player,
                        r,
                        c,
                    );
                lemma_first_king_unique(
                    self.board@,
                    self.current_player,
                    r,
                    c,
                    kr as int,
                    kc as int,
                );
                let (ar, ac) = choose|ar: int, ac: int|
                    attacker_at(self.board@, self.current_player, ar, ac, r, c);
                assert(on_board(ar, ac));
                assert(!attacker_at(self.board@, self.current_player, ar, ac, r, c));
            }
        }
        false
    }

    /// Whether the current player is checkmated: in check, and every
    /// pseudo-legal move of every one of their pieces, tried on a copy of
    /// the board, still leaves them in check.
    pub fn is_in_checkmate(&self) -> (r: bool)
        requires
            self.wf(),
        ensures
            r == in_checkmate(self.board@, self.current_player),
    {
        if !self.is_in_check() {
            return false;
        }
        let mut i: usize = 0;
        while i < 8
            invariant
                self.wf(),
                i <= 8,
                in_check(self.board@, self.current_player),
                forall|r2: int, c2: int, tr: int, tc: int|
                    0 <= r2 < i ==> !#[trigger] escape_move(
                        self.board@,
                        self.current_player,
                        r2,
                        c2,
                        tr,
                        tc,
                    ),
            decreases 8 - i,
        {
            let mut j: usize = 0;
            while j < 8
                invariant
                    self.wf(),
                    i < 8,
                    j <= 8,
                    in_check(self.board@, self.current_player),
                    forall|r2: int, c2: int, tr: int, tc: int|
                        0 <= r2 < i ==> !#[trigger] escape_move(
                            self.board@,
                            self.current_player,
                            r2,
                            c2,
                            tr,
                            tc,
                        ),
                    forall|c2: int, tr: int, tc: int|
                        0 <= c2 < j ==> !#[trigger] escape_move(
                            self.board@,
                            self.current_player,
                            i as int,
                            c2,
                            tr,
                            tc,
                        ),
                decreases 8 - j,
            {
                if let Some(piece) = self.board.get_piece_at((i, j)) {
                    if piece.color == self.current_player {
                        let valid_moves = piece.valid_moves((i, j), &self.board);
                        let mut m: usize = 0;
                        while m < valid_moves.len()
                            invariant
                                self.wf(),
                                i < 8,
                                j < 8,
                                m <= valid_moves@.len(),
                                in_check(self.board@, self.current_player),
                                piece.color == self.current_player,
                                cell_of(self.board@, i as int, j as int) == Cell::Occupied(piece),
                                forall|t: (usize, usize)| #[trigger]
                                    valid_moves@.contains(t) <==> piece_reaches(
                                        self.board@,
                                        piece,
                                        i as int,
                                        j as int,
                                        t.0 as int,
                                        t.1 as int,
                                    ),
                                forall|k: int|
                                    #![trigger valid_moves@[k]]
                                    0 <= k < m ==> in_check(
                                        moved_board(
                                            self.board@,
                                            i as int,
                                            j as int,
                                            valid_moves@[k].0 as int,
                                            valid_moves@[k].1 as int,
                                        ),
                                        self.current_player,
                                    ),
                            decreases valid_moves@.len() - m,
                        {
                            let move_pos = valid_moves[m];
                            proof {
                                assert(valid_moves@.contains(valid_moves@[m as int]));
                                lemma_piece_reaches_on_board(
                                    self.board@,
                                    piece,
                                    i as int,
                                    j as int,
                                    move_pos.0 as int,
                                    move_pos.1 as int,
                                );
                            }
                            let mut temp_board = self.board.duplicate();
                            temp_board.make_move((i, j), move_pos);
                            let temp_game = Game {
                                board: temp_board,
                                current_player: self.current_player,
                                state: self.state,
                            };
                            if !temp_game.is_in_check() {
                                proof {
                                    assert(escape_move(
                                        self.board@,
                                        self.current_player,
                                        i as int,
                                        j as int,
                                        move_pos.0 as int,
                                        move_pos.1 as int,
                                    ));
                                }
                                return false;
                            }
                            m += 1;
                        }
                        proof {
                            assert forall|tr: int, tc: int| !#[trigger] escape_move(
                                self.board@,
                                self.current_player,
                                i as int,
                                j as int,
                                tr,
                                tc,
                            ) by {
                                if escape_move(
                                    self.board@,
                                    self.current_player,
                                    i as int,
                                    j as int,
                                    tr,
                                    tc,
                                ) {
                                    lemma_piece_reaches_on_board(
                                        self.board@,
                                        piece,
                                        i as int,
                                        j as int,
                                        tr,
                                        tc,
                                    );
                                    let t = ((tr as usize), (tc as usize));
                                    assert(piece_reaches(
                                        self.board@,
                                        piece,
                                        i as int,
                                        j as int,
                                        t.0 as int,
                                        t.1 as int,
                                    ));
                                    assert(valid_moves@.contains(t));
                                    let k = choose|k: int|
                                        0 <= k < valid_moves@.len() && valid_moves@[k] == t;
                                    assert(valid_moves@[k] == t);
                                }
                            }
                        }
                    }
                }
                j += 1;
            }
            i += 1;
        }
        proof {
            if exists|r2: int, c2: int, tr: int, tc: int|
                escape_move(self.board@, self.current_player, r2, c2, tr, tc) {
                let (r2, c2, tr, tc) = choose|r2: int, c2: int, tr: int, tc: int|
                    escape_move(self.board@, self.current_player, r2, c2, tr, tc);
                assert(on_board(r2, c2));
                assert(!escape_move(self.board@, self.current_player, r2, c2, tr, tc));
            }
        }
        true
    }

    /// Whether some piece opposing `player_color` has the given square in
    /// its pseudo-legal move set.
    pub fn is_square_under_attack(&self, square: (usize, usize), player_color: Color) -> (r: bool)
        requires
            self.wf(),
            square.0 < 8,
            square.1 < 8,
        ensures
            r == attacks_square(self.board@, player_color, square.0 as int, square.1 as int),
    {
        let mut x: usize = 0;
        while x < 8
            invariant
                self.wf(),
                x <= 8,
                square.0 < 8,
                square.1 < 8,
                forall|r2: int, c2: int|
                    0 <= r2 < x ==> !#[trigger] attacker_at(
                        self.board@,
                        player_color,
                        r2,
                        c2,
                        square.0 as int,
                        square.1 as int,
                    ),
            decreases 8 - x,
        {
            let mut y: usize = 0;
            while y < 8
                invariant
                    self.wf(),
                    x < 8,
                    y <= 8,
                    square.0 < 8,
                    square.1 < 8,
                    forall|r2: int, c2: int|
                        0 <= r2 < x ==> !#[trigger] attacker_at(
                            self.board@,
                            player_color,
                            r2,
                            c2,
                            square.0 as int,
                            square.1 as int,
                        ),
                    forall|c2: int|
                        0 <= c2 < y ==> !#[trigger] attacker_at(
                            self.board@,
                            player_color,
                            x as int,
                            c2,
                            square.0 as int,
                            square.1 as int,
                        ),
                decreases 8 - y,
            {
                if let Some(piece) = self.board.get_piece_at((x, y)) {
                    if piece.color != player_color {
                        let potential_moves = piece.valid_moves((x, y), &self.board);
                        if contains_square(&potential_moves, square) {
                            proof {
                                assert(attacker_at(
                                    self.board@,
                                    player_color,
                                    x as int,
                                    y as int,
                                    square.0 as int,
                                    square.1 as int,
                                ));
                            }
                            return true;
                        }
                    }
                }
                y += 1;
            }
            x += 1;
        }
        proof {
            if attacks_square(self.board@, player_color, square.0 as int, square.1 as int) {
                let (ar, ac) = choose|ar: int, ac: int|
                    attacker_at(
                        self.board@,
                        player_color,
                        ar,
                        ac,
                        square.0 as int,
                        square.1 as int,
                    );
                assert(on_board(ar, ac));
                assert(!attacker_at(
                    self.board@,
                    player_color,
                    ar,
                    ac,
                    square.0 as int,
                    square.1 as int,
                ));
            }
        }
        false
    }

    /// Whether any square of `path` is a pseudo-legal destination of a
    /// piece opposing `player_color`.
    pub fn is_path_under_attack(&self, path: &Vec<(usize, usize)>, player_color: Color) -> (r:
        bool)
        requires
            self.wf(),
            forall|k: int|
                #![trigger path@[k]]
                0 <= k < path@.len() ==> path@[k].0 < 8 && path@[k].1 < 8,
        ensures
            r == exists|k: int|
                #![trigger path@[k]]
                0 <= k < path@.len() && attacks_square(
                    self.board@,
                    player_color,
                    path@[k].0 as int,
                    path@[k].1 as int,
                ),
    {
        let mut k: usize = 0;
        while k < path.len()
            invariant
                self.wf(),
                k <= path@.len(),
                forall|k2: int|
                    #![trigger path@[k2]]
                    0 <= k2 < path@.len() ==> path@[k2].0 < 8 && path@[k2].1 < 8,
                forall|k2: int|
                    #![trigger path@[k2]]
                    0 <= k2 < k ==> !attacks_square(
                        self.board@,
                        player_color,
                        path@[k2].0 as int,
                        path@[k2].1 as int,
                    ),
            decreases path@.len() - k,
        {
            let square = path[k];
            if self.is_square_under_attack(square, player_color) {
                return true;
            }
            k += 1;
        }
        false
    }

    /// Whether the current player may castle by moving the king at `from`
    /// toward `to`: true exactly when `can_castle_spec` holds of the
    /// board, the current player, and the two squares.
    pub fn can_castle(&self, from: (usize, usize), to: (usize, usize)) -> (r: bool)
        requires
            self.wf(),
            from.0 < 8,
            from.1 < 8,
            to.0 < 8,
            to.1 < 8,
        ensures
            r == can_castle_spec(
                self.board@,
                self.current_player,
                from.0 as int,
                from.1 as int,
                to.0 as int,
                to.1 as int,
            ),
    {
        if let Some(piece) = self.board.get_piece_at(from) {
            if !matches!(piece.piece_type, PieceType::King) || piece.has_moved {
                return false;
            }
        } else {
            return false;
        }
        let king_side = to.1 > from.1;
        let y = from.0;
        let rook_x: usize = if king_side {
            7
        } else {
            0
        };
        if let Some(rook) = self.board.get_piece_at((y, rook_x)) {
            if !matches!(rook.piece_type, PieceType::Rook) || rook.has_moved {
                return false;
            }
        } else {
            return false;
        }
        let lo: usize = if king_side {
            from.1 + 1
        } else {
            1
        };
        let hi: usize = if king_side {
            7
        } else {
            from.1
        };
        let mut c2 = lo;
        while c2 < hi
            invariant
                self.wf(),
                y == from.0,
                y < 8,
                from.1 < 8,
                to.1 < 8,
                lo <= c2,
                hi <= 8,
                lo as int == (if to.1 > from.1 {
                    from.1 as int + 1
                } else {
                    1int
                }),
                hi as int == (if to.1 > from.1 {
                    7int
                } else {
                    from.1 as int
                }),
                forall|x: int| lo <= x < c2 ==> #[trigger] empty_at(self.board@, y as int, x),
            decreases hi - c2,
        {
            if self.board.get_piece_at((y, c2)).is_some() {
                proof {
                    assert(!empty_at(self.board@, from.0 as int, c2 as int));
                    assert(col_between(
                        from.1 as int,
                        if to.1 > from.1 {
                            7int
                        } else {
                            0int
                        },
                        c2 as int,
                    ));
                }
                return false;
            }
            c2 += 1;
        }
        if self.is_in_check() {
            return false;
        }
        let mut path: Vec<(usize, usize)> = Vec::new();
        let mut c3 = lo;
        while c3 < hi
            invariant
                lo <= c3,
                hi <= 8,
                lo <= hi ==> c3 <= hi,
                c3 - lo == path@.len(),
                y == from.0,
                forall|k: int|
                    #![trigger path@[k]]
                    0 <= k < path@.len() ==> path@[k] == (y, (lo + k) as usize),
            decreases hi - c3,
        {
            path.push((y, c3));
            c3 += 1;
        }
        proof {
            assert forall|k: int| 0 <= k < path@.len() implies path@[k].0 < 8 && path@[k].1
                < 8 by {
                assert(path@[k] == (y, (lo + k) as usize));
            }
        }
        let path_attacked = self.is_path_under_attack(&path, self.current_player);
        proof {
            let fc = from.1 as int;
            let rc = rook_x as int;
            assert forall|cx: int|
                col_between(fc, rc, cx) implies lo <= cx < hi && path@[cx - lo] == (
                y,
                cx as usize,
            ) by {
                assert(path@[cx - lo] == (y, (lo + (cx - lo)) as usize));
            }
            if path_attacked {
                let k = choose|k: int|
                    #![trigger path@[k]]
                    0 <= k < path@.len() && attacks_square(
                        self.board@,
                        self.current_player,
                        path@[k].0 as int,
                        path@[k].1 as int,
                    );
                assert(path@[k] == (y, (lo + k) as usize));
                assert(col_between(fc, rc, lo + k));
            } else {
                assert forall|cx: int|
                    col_between(fc, rc, cx) implies !attacks_square(
                    self.board@,
                    self.current_player,
                    from.0 as int,
                    cx,
                ) by {
                    assert(path@[cx - lo] == (y, cx as usize));
                }
            }
        }
        !path_attacked
    }

    /// Performs castling for the king moving from `from` toward `to`:
    /// when `can_castle` allows it, the king is written to `to`, the
    /// chosen side's rook to the square beside the king's origin on that
    /// side, and both origin squares are emptied; otherwise nothing
    /// happens.
    pub fn handle_castling(&mut self, from: (usize, usize), to: (usize, usize))
        requires
            old(self).wf(),
            from.0 < 8,
            from.1 < 8,
            to.0 < 8,
            to.1 < 8,
        ensures
            final(self).wf(),
            final(self).current_player == old(self).current_player,
            final(self).state == old(self).state,
            final(self).board@ == (if can_castle_spec(
                old(self).board@,
                old(self).current_player,
                from.0 as int,
                from.1 as int,
                to.0 as int,
                to.1 as int,
            ) {
                castle_result(
                    old(self).board@,
                    from.0 as int,
                    from.1 as int,
                    to.0 as int,
                    to.1 as int,
                )
            } else {
                old(self).board@
            }),
    {
        if !self.can_castle(from, to) {
            return ;
        }
        let king_side = to.1 > from.1;
        let y = from.0;
        proof {
            // The king's and the rook's home squares are distinct, so the
            // rook's landing column stays on the board.
            if king_side {
                assert(cell_of(self.board@, y as int, from.1 as int) != cell_of(
                    self.board@,
                    y as int,
                    7,
                ));
            } else {
                assert(cell_of(self.board@, y as int, from.1 as int) != cell_of(
                    self.board@,
                    y as int,
                    0,
                ));
            }
        }
        let rook_from: (usize, usize) = if king_side {
            (y, 7)
        } else {
            (y, 0)
        };
        let rook_to: (usize, usize) = if king_side {
            (y, from.1 + 1)
        } else {
            (y, from.1 - 1)
        };
        if let Some(king) = self.board.get_piece_at(from) {
            self.board.set_piece_at(to, king);
            self.board.remove_piece_at(from);
        }
        if let Some(rook) = self.board.get_piece_at(rook_from) {
            self.board.set_piece_at(rook_to, rook);
            self.board.remove_piece_at(rook_from);
        }
    }

    /// Whether the square `to` holds a pawn standing on the farthest row
    /// for its color.
    pub fn is_pawn_promotion(&self, to: (usize, usize)) -> (r: bool)
        requires
            self.wf(),
            to.0 < 8,
            to.1 < 8,
        ensures
            r == is_promo_spec(self.board@, to.0 as int, to.1 as int),
    {
        if let Some(piece) = self.board.get_piece_at(to) {
            if matches!(piece.piece_type, PieceType::Pawn) {
                match piece.color {
                    Color::White => to.0 == 7,
                    Color::Black => to.0 == 0,
                }
            } else {
                false
            }
        } else {
            false
        }
    }

    /// Replaces a pawn that has reached its farthest row at `to` by a
    /// queen of the same color with the moved flag set; does nothing
    /// otherwise.
    pub fn handle_pawn_promotion(&mut self, to: (usize, usize))
        requires
            old(self).wf(),
            to.0 < 8,
            to.1 < 8,
        ensures
            final(self).wf(),
            final(self).current_player == old(self).current_player,
            final(self).state == old(self).state,
            final(self).board@ == promo_result(old(self).board@, to.0 as int, to.1 as int),
    {
        if self.is_pawn_promotion(to) {
            if let Some(pawn) = self.board.get_piece_at(to) {
                let promoted_piece = Piece {
                    piece_type: PieceType::Queen,
                    color: pawn.color,
                    has_moved: true,
                };
                self.board.set_piece_at(to, promoted_piece);
            }
        }
    }

    /// Resolves any special move for a just-committed move from `from`
    /// to `to` by dispatching on the piece that moved, now at `to`: a
    /// king attempts castling (on an ordinary king move this is a no-op,
    /// since the origin square no longer holds an unmoved king), a pawn
    /// attempts promotion, anything else leaves the board alone.
    pub fn handle_special_moves(&mut self, from: (usize, usize), to: (usize, usize))
        requires
            old(self).wf(),
            from.0 < 8,
            from.1 < 8,
            to.0 < 8,
            to.1 < 8,
        ensures
            final(self).wf(),
            final(self).current_player == old(self).current_player,
            final(self).state == old(self).state,
            final(self).board@ == special_result(
                old(self).board@,
                old(self).current_player,
                from.0 as int,
                from.1 as int,
                to.0 as int,
                to.1 as int,
            ),
    {
        if let Some(piece) = self.board.get_piece_at(to) {
            match piece.piece_type {
                PieceType::King => self.handle_castling(from, to),
                PieceType::Pawn => self.handle_pawn_promotion(to),
                _ => {},
            }
        }
    }
}

} // verus!
