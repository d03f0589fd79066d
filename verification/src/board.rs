use vstd::prelude::*;

use crate::piece::{Color, Piece, PieceType};

verus! {

/// Number of rows and of columns of the board.
pub const BOARD_SIZE: usize = 8;

/// One square of the board: empty, or holding exactly one piece.
#[derive(Clone, Copy, Debug, PartialEq, Eq, Structural)]
pub enum Cell {
    Empty,
    Occupied(Piece),
}

/// Row-major flat index of the square at row `r`, column `c`.
pub open spec fn idx(r: int, c: int) -> int {
    r * 8 + c
}

/// Both coordinates lie on the 8 x 8 grid.
pub open spec fn on_board(r: int, c: int) -> bool {
    0 <= r < 8 && 0 <= c < 8
}

/// The cell of board `b` at row `r`, column `c`.
pub open spec fn cell_of(b: Seq<Cell>, r: int, c: int) -> Cell {
    b[idx(r, c)]
}

/// The square at `(r, c)` is empty.
pub open spec fn empty_at(b: Seq<Cell>, r: int, c: int) -> bool {
    cell_of(b, r, c) is Empty
}

/// The square at `(r, c)` holds a piece of a color other than `col`.
pub open spec fn enemy_at(b: Seq<Cell>, r: int, c: int, col: Color) -> bool {
    cell_of(b, r, c) matches Cell::Occupied(p) && p.color != col
}

/// The square at `(r, c)` is empty or holds an opposing piece: a piece of
/// color `col` may land there.
pub open spec fn empty_or_enemy_at(b: Seq<Cell>, r: int, c: int, col: Color) -> bool {
    empty_at(b, r, c) || enemy_at(b, r, c, col)
}

/// The piece at `(r, c)`, if the square is occupied.
pub open spec fn piece_at(b: Seq<Cell>, r: int, c: int) -> Option<Piece> {
    match cell_of(b, r, c) {
        Cell::Occupied(p) => Some(p),
        Cell::Empty => None,
    }
}

/// The kind of piece that starts on back-rank column `c`.
pub open spec fn back_rank_piece(c: int) -> PieceType {
    if c == 0 || c == 7 {
        PieceType::Rook
    } else if c == 1 || c == 6 {
        PieceType::Knight
    } else if c == 2 || c == 5 {
        PieceType::Bishop
    } else if c == 3 {
        PieceType::Queen
    } else {
        PieceType::King
    }
}

/// The standard starting position: White's back rank on row 0, White's
/// pawns on row 1, Black's pawns on row 6, Black's back rank on row 7.
pub open spec fn initial_cell(r: int, c: int) -> Cell {
    if r == 0 {
        Cell::Occupied(Piece { piece_type: back_rank_piece(c), color: Color::White, has_moved: false })
    } else if r == 1 {
        Cell::Occupied(Piece { piece_type: PieceType::Pawn, color: Color::White, has_moved: false })
    } else if r == 6 {
        Cell::Occupied(Piece { piece_type: PieceType::Pawn, color: Color::Black, has_moved: false })
    } else if r == 7 {
        Cell::Occupied(Piece { piece_type: back_rank_piece(c), color: Color::Black, has_moved: false })
    } else {
        Cell::Empty
    }
}

/// The board after the unconditional relocation `make_move(from, to)`:
/// the origin square is emptied, then its former content is written to
/// the destination square.
pub open spec fn moved_board(b: Seq<Cell>, fr: int, fc: int, tr: int, tc: int) -> Seq<Cell> {
    b.update(idx(fr, fc), Cell::Empty).update(idx(tr, tc), cell_of(b, fr, fc))
}

/// The board after `move_piece(from, to)`: nothing happens when the origin
/// is empty; otherwise the piece is relocated as by `make_move` and the
/// piece now at the destination, if any, gets its moved flag set.
pub open spec fn move_piece_result(b: Seq<Cell>, fr: int, fc: int, tr: int, tc: int) -> Seq<Cell> {
    match cell_of(b, fr, fc) {
        Cell::Empty => b,
        Cell::Occupied(p) => {
            let b1 = b.update(idx(tr, tc), Cell::Occupied(p)).update(idx(fr, fc), Cell::Empty);
            match cell_of(b1, tr, tc) {
                Cell::Occupied(q) => b1.update(
                    idx(tr, tc),
                    Cell::Occupied(Piece { piece_type: q.piece_type, color: q.color, has_moved: true }),
                ),
                Cell::Empty => b1,
            }
        }
    }
}

/// Distinct on-board squares have distinct row-major indices.
pub proof fn lemma_idx_injective(r1: int, c1: int, r2: int, c2: int)
    requires
        on_board(r1, c1),
        on_board(r2, c2),
        idx(r1, c1) == idx(r2, c2),
    ensures
        r1 == r2 && c1 == c2,
{
}

/// Round trip of committing a move: after `move_piece` relocates a piece
/// between two distinct on-board squares, reading the destination gives
/// back the moved piece with its moved flag set, and reading the origin
/// gives nothing.
pub proof fn lemma_move_piece_round_trip(b: Seq<Cell>, fr: int, fc: int, tr: int, tc: int)
    requires
        b.len() == 64,
        on_board(fr, fc),
        on_board(tr, tc),
        !(fr == tr && fc == tc),
        cell_of(b, fr, fc) is Occupied,
    ensures
        piece_at(move_piece_result(b, fr, fc, tr, tc), fr, fc) is None,
        piece_at(move_piece_result(b, fr, fc, tr, tc), tr, tc) == (match cell_of(b, fr, fc) {
            Cell::Occupied(p) => Some(
                Piece { piece_type: p.piece_type, color: p.color, has_moved: true },
            ),
            Cell::Empty => None,
        }),
{
    if idx(fr, fc) == idx(tr, tc) {
        lemma_idx_injective(fr, fc, tr, tc);
    }
}
pub struct Board {
    grid: Vec<Cell>,
}

impl View for Board {
    type V = Seq<Cell>;

    closed spec fn view(&self) -> Seq<Cell> {
        self.grid@
    }
}

impl Board {
    /// The grid holds one cell for each of the 64 squares.
    pub open spec fn wf(&self) -> bool {
        self@.len() == 64
    }

    /// A board with the 32 standard pieces on their starting squares.
    pub fn new() -> (board: Board)
        ensures
            board.wf(),
            forall|r: int, c: int| on_board(r, c) ==> cell_of(board@, r, c) == initial_cell(r, c),
    {
        let mut grid: Vec<Cell> = Vec::new();
        let mut r: usize = 0;
        while r < 8
            invariant
                r <= 8,
                grid@.len() == r * 8,
                forall|r2: int, c2: int|
                    0 <= r2 < r && 0 <= c2 < 8 ==> grid@[idx(r2, c2)] == initial_cell(r2, c2),
            decreases 8 - r,
        {
            let mut c: usize = 0;
            while c < 8
                invariant
                    r < 8,
                    c <= 8,
                    grid@.len() == r * 8 + c,
                    forall|r2: int, c2: int|
                        0 <= r2 < r && 0 <= c2 < 8 ==> grid@[idx(r2, c2)] == initial_cell(r2, c2),
                    forall|c2: int|
                        0 <= c2 < c ==> grid@[idx(r as int, c2)] == initial_cell(r as int, c2),
                decreases 8 - c,
            {
                grid.push(Board::starting_cell(r, c));
                c += 1;
            }
            r += 1;
        }
        Board { grid }
    }

    /// The starting content of the square at `(r, c)`.
    fn starting_cell(r: usize, c: usize) -> (cell: Cell)
        requires
            r < 8,
            c < 8,
        ensures
            cell == initial_cell(r as int, c as int),
    {
        if r == 0 || r == 7 {
            let color = if r == 0 { Color::White } else { Color::Black };
            let piece_type = if c == 0 || c == 7 {
                PieceType::Rook
            } else if c == 1 || c == 6 {
                PieceType::Knight
            } else if c == 2 || c == 5 {
                PieceType::Bishop
            } else if c == 3 {
                PieceType::Queen
            } else {
                PieceType::King
            };
            Cell::Occupied(Piece { piece_type: piece_type, color: color, has_moved: false })
        } else if r == 1 {
            Cell::Occupied(Piece { piece_type: PieceType::Pawn, color: Color::White, has_moved: false })
        } else if r == 6 {
            Cell::Occupied(Piece { piece_type: PieceType::Pawn, color: Color::Black, has_moved: false })
        } else {
            Cell::Empty
        }
    }

    /// True iff both signed coordinates lie on the board; callers may
    /// probe one step past an edge without clamping first.
    pub fn is_within_bounds(&self, position: (isize, isize)) -> (r: bool)
        ensures
            r == on_board(position.0 as int, position.1 as int),
    {
        position.0 >= 0 && position.0 < BOARD_SIZE as isize && position.1 >= 0
            && position.1 < BOARD_SIZE as isize
    }

    /// The piece at `position`, or `None` when the square is empty.
    pub fn get_piece_at(&self, position: (usize, usize)) -> (r: Option<Piece>)
        requires
            self.wf(),
            position.0 < 8,
            position.1 < 8,
        ensures
            r == piece_at(self@, position.0 as int, position.1 as int),
    {
        match self.grid[position.0 * 8 + position.1] {
            Cell::Occupied(piece) => Some(piece),
            Cell::Empty => None,
        }
    }

    /// Overwrites the cell at `position` with the given piece,
    /// whatever was there before.
    pub fn set_piece_at(&mut self, position: (usize, usize), piece: Piece)
        requires
            old(self).wf(),
            position.0 < 8,
            position.1 < 8,
        ensures
            final(self).wf(),
            final(self)@ == old(self)@.update(
                idx(position.0 as int, position.1 as int),
                Cell::Occupied(piece),
            ),
    {
        self.grid[position.0 * 8 + position.1] = Cell::Occupied(piece);
    }

    /// A reference to the cell at a signed on-board position.
    pub fn cell_at(&self, position: (isize, isize)) -> (cell: &Cell)
        requires
            self.wf(),
            on_board(position.0 as int, position.1 as int),
        ensures
            *cell == cell_of(self@, position.0 as int, position.1 as int),
    {
        &self.grid[(position.0 as usize) * 8 + (position.1 as usize)]
    }

    /// The adjacent square one step from `position` in `direction`, if it
    /// remains on the board.
    pub fn next_square_in_direction(&self, position: (isize, isize), direction: (isize, isize)) -> (r:
        Option<(isize, isize)>)
        ensures
            r is Some <==> on_board(
                position.0 as int + direction.0 as int,
                position.1 as int + direction.1 as int,
            ),
            r matches Some(p) ==> p.0 as int == position.0 as int + direction.0 as int && p.1 as int
                == position.1 as int + direction.1 as int,
    {
        let nr: i128 = position.0 as i128 + direction.0 as i128;
        let nc: i128 = position.1 as i128 + direction.1 as i128;
        if nr >= 0 && nr < 8 && nc >= 0 && nc < 8 {
            Some((nr as isize, nc as isize))
        } else {
            None
        }
    }

    /// Unconditional relocation: copies whatever is at `from` into `to`,
    /// overwriting any occupant, and empties `from`. Does not touch the
    /// moved flag; used for hypothetical check analysis.
    pub fn make_move(&mut self, from: (usize, usize), to: (usize, usize))
        requires
            old(self).wf(),
            from.0 < 8,
            from.1 < 8,
            to.0 < 8,
            to.1 < 8,
        ensures
            final(self).wf(),
            final(self)@ == moved_board(
                old(self)@,
                from.0 as int,
                from.1 as int,
                to.0 as int,
                to.1 as int,
            ),
    {
        let piece = self.grid[from.0 * 8 + from.1];
        self.grid[from.0 * 8 + from.1] = Cell::Empty;
        self.grid[to.0 * 8 + to.1] = piece;
    }

    /// Like `make_move`, but additionally sets the moved flag on the piece
    /// now at `to`; does nothing when `from` is empty. This is the
    /// primitive that commits a player's move.
    pub fn move_piece(&mut self, from: (usize, usize), to: (usize, usize))
        requires
            old(self).wf(),
            from.0 < 8,
            from.1 < 8,
            to.0 < 8,
            to.1 < 8,
        ensures
            final(self).wf(),
            final(self)@ == move_piece_result(
                old(self)@,
                from.0 as int,
                from.1 as int,
                to.0 as int,
                to.1 as int,
            ),
    {
        let piece_to_move = match self.grid[from.0 * 8 + from.1] {
            Cell::Occupied(piece) => piece,
            Cell::Empty => {
                return ;
            },
        };
        self.grid[to.0 * 8 + to.1] = Cell::Occupied(piece_to_move);
        self.grid[from.0 * 8 + from.1] = Cell::Empty;
        match self.grid[to.0 * 8 + to.1] {
            Cell::Occupied(moved_piece) => {
                self.grid[to.0 * 8 + to.1] = Cell::Occupied(
                    Piece {
                        piece_type: moved_piece.piece_type,
                        color: moved_piece.color,
                        has_moved: true,
                    },
                );
            },
            Cell::Empty => {},
        }
    }

    /// Empties the cell at `position`.
    pub fn remove_piece_at(&mut self, position: (usize, usize))
        requires
            old(self).wf(),
            position.0 < 8,
            position.1 < 8,
        ensures
            final(self).wf(),
            final(self)@ == old(self)@.update(
                idx(position.0 as int, position.1 as int),
                Cell::Empty,
            ),
    {
        self.grid[position.0 * 8 + position.1] = Cell::Empty;
    }

    /// A cell-for-cell copy of this board.
    pub fn duplicate(&self) -> (r: Board)
        requires
            self.wf(),
        ensures
            r.wf(),
            r@ == self@,
    {
        let mut grid: Vec<Cell> = Vec::new();
        let mut i: usize = 0;
        while i < 64
            invariant
                self.wf(),
                i <= 64,
                grid@.len() == i,
                forall|k: int| 0 <= k < i ==> grid@[k] == self@[k],
            decreases 64 - i,
        {
            grid.push(self.grid[i]);
            i += 1;
        }
        let r = Board { grid };
        proof {
            assert(r@ =~= self@);
        }
        r
    }
}

} // verus!
