use vstd::prelude::*;

use crate::board::{
    cell_of, empty_at, empty_or_enemy_at, enemy_at, on_board, Board, Cell,
};

verus! {

broadcast use vstd::seq_lib::lemma_seq_contains_after_push;

/// The two sides of the game.
#[derive(Clone, Copy, Debug, PartialEq, Eq, Structural)]
pub enum Color {
    White,
    Black,
}

/// The six kinds of chess piece.
#[derive(Clone, Copy, Debug, PartialEq, Eq, Structural)]
pub enum PieceType {
    Pawn,
    Rook,
    Knight,
    Bishop,
    Queen,
    King,
}

/// A piece value: its kind, its side, and whether it has moved yet.
/// The moved flag starts false and is set the first time the piece is
/// relocated by `Board::move_piece`; it only matters for castling.
#[derive(Clone, Copy, Debug, PartialEq, Eq, Structural)]
pub struct Piece {
    pub piece_type: PieceType,
    pub color: Color,
    pub has_moved: bool,
}

/// A pawn of color `col` standing at `(r, c)` may move to `(tr, tc)`:
/// a single push onto an empty square straight ahead (ahead is toward
/// higher rows for White, lower rows for Black), a double push from the
/// pawn's home row across two empty squares, or a diagonal capture one
/// step ahead onto a square holding an opposing piece.
pub open spec fn pawn_reaches(b: Seq<Cell>, col: Color, r: int, c: int, tr: int, tc: int) -> bool {
    match col {
        Color::White => {
            ||| (tr == r + 1 && tc == c && r + 1 < 8 && empty_at(b, r + 1, c))
            ||| (tr == r + 2 && tc == c && r == 1 && empty_at(b, 3, c) && empty_at(b, 2, c))
            ||| (tr == r + 1 && tc == c + 1 && r + 1 < 8 && c + 1 < 8 && enemy_at(b, r + 1, c + 1, col))
            ||| (tr == r + 1 && tc == c - 1 && r + 1 < 8 && c - 1 >= 0 && enemy_at(b, r + 1, c - 1, col))
        },
        Color::Black => {
            ||| (tr == r - 1 && tc == c && r - 1 >= 0 && empty_at(b, r - 1, c))
            ||| (tr == r - 2 && tc == c && r == 6 && empty_at(b, 4, c) && empty_at(b, 5, c))
            ||| (tr == r - 1 && tc == c + 1 && r - 1 >= 0 && c + 1 < 8 && enemy_at(b, r - 1, c + 1, col))
            ||| (tr == r - 1 && tc == c - 1 && r - 1 >= 0 && c - 1 >= 0 && enemy_at(b, r - 1, c - 1, col))
        },
    }
}

/// A unit direction of sliding movement: one of the eight combinations
/// of row and column steps in {-1, 0, 1}, other than standing still.
pub open spec fn valid_dir(dr: int, dc: int) -> bool {
    -1 <= dr <= 1 && -1 <= dc <= 1 && !(dr == 0 && dc == 0)
}

/// How many steps remain before a walk from `(r, c)` in direction
/// `(dr, dc)` must leave the board; a termination measure for the walk.
pub open spec fn edge_dist(r: int, c: int, dr: int, dc: int) -> int {
    if dr > 0 {
        7 - r
    } else if dr < 0 {
        r
    } else if dc > 0 {
        7 - c
    } else {
        c
    }
}

/// A slider of color `col` standing at `(r, c)` reaches `(tr, tc)` by
/// repeated unit steps in direction `(dr, dc)`: every square strictly
/// before the destination is empty, and the destination itself is empty
/// or holds an opposing piece. The walk never passes the first occupied
/// square and never leaves the board.
pub open spec fn slides_to(
    b: Seq<Cell>,
    col: Color,
    r: int,
    c: int,
    dr: int,
    dc: int,
    tr: int,
    tc: int,
) -> bool
    decreases edge_dist(r, c, dr, dc)
        when valid_dir(dr, dc) && on_board(r, c)
{
    let nr = r + dr;
    let nc = c + dc;
    on_board(nr, nc) && (if tr == nr && tc == nc {
        empty_or_enemy_at(b, nr, nc, col)
    } else {
        empty_at(b, nr, nc) && slides_to(b, col, nr, nc, dr, dc, tr, tc)
    })
}

/// A rook at `(r, c)` reaches `(tr, tc)`: a slide in one of the four
/// orthogonal directions.
pub open spec fn rook_reaches(b: Seq<Cell>, col: Color, r: int, c: int, tr: int, tc: int) -> bool {
    ||| slides_to(b, col, r, c, 1, 0, tr, tc)
    ||| slides_to(b, col, r, c, 0, 1, tr, tc)
    ||| slides_to(b, col, r, c, -1, 0, tr, tc)
    ||| slides_to(b, col, r, c, 0, -1, tr, tc)
}

/// A bishop at `(r, c)` reaches `(tr, tc)`: a slide in one of the four
/// diagonal directions.
pub open spec fn bishop_reaches(b: Seq<Cell>, col: Color, r: int, c: int, tr: int, tc: int) -> bool {
    ||| slides_to(b, col, r, c, 1, 1, tr, tc)
    ||| slides_to(b, col, r, c, 1, -1, tr, tc)
    ||| slides_to(b, col, r, c, -1, 1, tr, tc)
    ||| slides_to(b, col, r, c, -1, -1, tr, tc)
}

/// A queen reaches the union of the rook and bishop destinations.
pub open spec fn queen_reaches(b: Seq<Cell>, col: Color, r: int, c: int, tr: int, tc: int) -> bool {
    rook_reaches(b, col, r, c, tr, tc) || bishop_reaches(b, col, r, c, tr, tc)
}

/// `(tr, tc)` is one knight's jump away from `(r, c)`.
pub open spec fn knight_jump(r: int, c: int, tr: int, tc: int) -> bool {
    ||| (tr == r + 2 && tc == c + 1)
    ||| (tr == r + 2 && tc == c - 1)
    ||| (tr == r - 2 && tc == c + 1)
    ||| (tr == r - 2 && tc == c - 1)
    ||| (tr == r + 1 && tc == c + 2)
    ||| (tr == r + 1 && tc == c - 2)
    ||| (tr == r - 1 && tc == c + 2)
    ||| (tr == r - 1 && tc == c - 2)
}

/// A knight of color `col` at `(r, c)` reaches `(tr, tc)`: one jump to an
/// on-board square that is empty or holds an opposing piece.
pub open spec fn knight_reaches(b: Seq<Cell>, col: Color, r: int, c: int, tr: int, tc: int) -> bool {
    knight_jump(r, c, tr, tc) && on_board(tr, tc) && empty_or_enemy_at(b, tr, tc, col)
}

/// `(tr, tc)` is one king's step away from `(r, c)`.
pub open spec fn king_step(r: int, c: int, tr: int, tc: int) -> bool {
    -1 <= tr - r <= 1 && -1 <= tc - c <= 1 && !(tr == r && tc == c)
}

/// A king of color `col` at `(r, c)` reaches `(tr, tc)`: one step to an
/// on-board square that is empty or holds an opposing piece. Castling is
/// not part of ordinary king movement.
pub open spec fn king_reaches(b: Seq<Cell>, col: Color, r: int, c: int, tr: int, tc: int) -> bool {
    king_step(r, c, tr, tc) && on_board(tr, tc) && empty_or_enemy_at(b, tr, tc, col)
}

/// Piece `p` standing at `(r, c)` on board `b` may move to `(tr, tc)`,
/// ignoring whether the move would leave `p`'s own king in check.
pub open spec fn piece_reaches(b: Seq<Cell>, p: Piece, r: int, c: int, tr: int, tc: int) -> bool {
    match p.piece_type {
        PieceType::Pawn => pawn_reaches(b, p.color, r, c, tr, tc),
        PieceType::Rook => rook_reaches(b, p.color, r, c, tr, tc),
        PieceType::Knight => knight_reaches(b, p.color, r, c, tr, tc),
        PieceType::Bishop => bishop_reaches(b, p.color, r, c, tr, tc),
        PieceType::Queen => queen_reaches(b, p.color, r, c, tr, tc),
        PieceType::King => king_reaches(b, p.color, r, c, tr, tc),
    }
}

/// The square `k` unit steps from `(r, c)` in direction `(dr, dc)`.
pub open spec fn step_n(r: int, c: int, dr: int, dc: int, k: int) -> (int, int)
    decreases k,
{
    if k <= 0 {
        (r, c)
    } else {
        let p = step_n(r, c, dr, dc, k - 1);
        (p.0 + dr, p.1 + dc)
    }
}

/// Stepping once and then `k` times is stepping `k + 1` times.
proof fn lemma_step_n_shift(r: int, c: int, dr: int, dc: int, k: int)
    requires
        k >= 0,
    ensures
        step_n(r + dr, c + dc, dr, dc, k) == step_n(r, c, dr, dc, k + 1),
    decreases k,
{
    if k > 0 {
        lemma_step_n_shift(r, c, dr, dc, k - 1);
    } else {
        assert(step_n(r, c, dr, dc, 0) == (r, c));
    }
}

/// A sliding piece never reaches past the first occupied square in its
/// direction of travel: every destination it reaches lies some `k >= 1`
/// unit steps out, every square strictly before it on that ray is
/// empty, and the destination square itself, if occupied, holds an
/// opposing piece.
pub proof fn lemma_slide_stops_at_first_blocker(
    b: Seq<Cell>,
    col: Color,
    r: int,
    c: int,
    dr: int,
    dc: int,
    tr: int,
    tc: int,
)
    requires
        valid_dir(dr, dc),
        on_board(r, c),
        slides_to(b, col, r, c, dr, dc, tr, tc),
    ensures
        exists|k: int|
            #![trigger step_n(r, c, dr, dc, k)]
            1 <= k && (tr, tc) == step_n(r, c, dr, dc, k) && (forall|j: int|
                #![trigger step_n(r, c, dr, dc, j)]
                1 <= j < k ==> empty_at(b, step_n(r, c, dr, dc, j).0, step_n(r, c, dr, dc, j).1)),
        empty_or_enemy_at(b, tr, tc, col),
    decreases edge_dist(r, c, dr, dc),
{
    let nr = r + dr;
    let nc = c + dc;
    if tr == nr && tc == nc {
        assert(step_n(r, c, dr, dc, 0) == (r, c));
        assert((tr, tc) == step_n(r, c, dr, dc, 1));
    } else {
        lemma_slide_stops_at_first_blocker(b, col, nr, nc, dr, dc, tr, tc);
        let k1 = choose|k1: int|
            #![trigger step_n(nr, nc, dr, dc, k1)]
            1 <= k1 && (tr, tc) == step_n(nr, nc, dr, dc, k1) && (forall|j: int|
                #![trigger step_n(nr, nc, dr, dc, j)]
                1 <= j < k1 ==> empty_at(
                    b,
                    step_n(nr, nc, dr, dc, j).0,
                    step_n(nr, nc, dr, dc, j).1,
                ));
        lemma_step_n_shift(r, c, dr, dc, k1);
        assert forall|j: int|
            #![trigger step_n(r, c, dr, dc, j)]
            1 <= j < k1 + 1 implies empty_at(
            b,
            step_n(r, c, dr, dc, j).0,
            step_n(r, c, dr, dc, j).1,
        ) by {
            if j == 1 {
                assert(step_n(r, c, dr, dc, 0) == (r, c));
                assert(step_n(r, c, dr, dc, 1) == (nr, nc));
            } else {
                lemma_step_n_shift(r, c, dr, dc, j - 1);
                assert(step_n(r, c, dr, dc, j) == step_n(nr, nc, dr, dc, j - 1));
            }
        }
        assert(1 <= k1 + 1 && (tr, tc) == step_n(r, c, dr, dc, k1 + 1));
    }
}

/// Pushing a square that a duplicate-free vector does not yet hold
/// keeps it duplicate-free.
proof fn lemma_push_distinct_keeps_no_duplicates(s: Seq<(usize, usize)>, v: (usize, usize))
    requires
        s.no_duplicates(),
        !s.contains(v),
    ensures
        s.push(v).no_duplicates(),
{
    assert forall|i: int, j: int|
        0 <= i < s.push(v).len() && 0 <= j < s.push(v).len() && i != j implies s.push(v)[i]
        != s.push(v)[j] by {
        if i < s.len() && j < s.len() {
            assert(s.push(v)[i] == s[i] && s.push(v)[j] == s[j]);
        } else if j == s.len() && i < s.len() {
            assert(s.push(v)[i] == s[i]);
            if s[i] == v {
                assert(s.contains(v));
            }
        } else if i == s.len() && j < s.len() {
            assert(s.push(v)[j] == s[j]);
            if s[j] == v {
                assert(s.contains(v));
            }
        }
    }
}

/// A slide in direction `(dr, dc)` moves strictly in that direction:
/// each coordinate of the destination sits on the side of the start
/// that the direction's sign dictates.
pub proof fn lemma_slides_to_ray(
    b: Seq<Cell>,
    col: Color,
    r: int,
    c: int,
    dr: int,
    dc: int,
    tr: int,
    tc: int,
)
    requires
        valid_dir(dr, dc),
        on_board(r, c),
        slides_to(b, col, r, c, dr, dc, tr, tc),
    ensures
        dr > 0 ==> tr > r,
        dr < 0 ==> tr < r,
        dr == 0 ==> tr == r,
        dc > 0 ==> tc > c,
        dc < 0 ==> tc < c,
        dc == 0 ==> tc == c,
    decreases edge_dist(r, c, dr, dc),
{
    let nr = r + dr;
    let nc = c + dc;
    if !(tr == nr && tc == nc) {
        lemma_slides_to_ray(b, col, nr, nc, dr, dc, tr, tc);
    }
}

/// One destination cannot be reached by slides in two different
/// directions from the same square.
proof fn lemma_distinct_dirs_distinct_targets(
    b: Seq<Cell>,
    col: Color,
    r: int,
    c: int,
    d1r: int,
    d1c: int,
    d2r: int,
    d2c: int,
    tr: int,
    tc: int,
)
    requires
        valid_dir(d1r, d1c),
        valid_dir(d2r, d2c),
        on_board(r, c),
        !(d1r == d2r && d1c == d2c),
        slides_to(b, col, r, c, d1r, d1c, tr, tc),
    ensures
        !slides_to(b, col, r, c, d2r, d2c, tr, tc),
{
    lemma_slides_to_ray(b, col, r, c, d1r, d1c, tr, tc);
    if slides_to(b, col, r, c, d2r, d2c, tr, tc) {
        lemma_slides_to_ray(b, col, r, c, d2r, d2c, tr, tc);
    }
}

/// Multiplying by a unit step of -1, 0 or 1 negates, cancels or keeps.
proof fn lemma_mul_unit(k: int, d: int)
    requires
        -1 <= d <= 1,
    ensures
        k * d == (if d == 1 {
            k
        } else if d == -1 {
            -k
        } else {
            0int
        }),
{
    assert(k * d == (if d == 1 {
        k
    } else if d == -1 {
        -k
    } else {
        0int
    })) by (nonlinear_arith)
        requires
            -1 <= d <= 1,
    ;
}

/// Stepping `k` times in direction `(dr, dc)` lands `k * (dr, dc)` away.
proof fn lemma_step_n_coords(r: int, c: int, dr: int, dc: int, k: int)
    requires
        k >= 0,
        -1 <= dr <= 1,
        -1 <= dc <= 1,
    ensures
        step_n(r, c, dr, dc, k) == (r + k * dr, c + k * dc),
    decreases k,
{
    lemma_mul_unit(k, dr);
    lemma_mul_unit(k, dc);
    if k > 0 {
        lemma_mul_unit(k - 1, dr);
        lemma_mul_unit(k - 1, dc);
        lemma_step_n_coords(r, c, dr, dc, k - 1);
    }
}

/// The converse of the stop rule: a square `k >= 1` steps out on the
/// board, with every square strictly before it on the ray empty and the
/// square itself empty or holding an opposing piece, is reached by the
/// slide.
proof fn lemma_clear_ray_slides_to(b: Seq<Cell>, col: Color, r: int, c: int, dr: int, dc: int, k: int)
    requires
        valid_dir(dr, dc),
        on_board(r, c),
        k >= 1,
        on_board(step_n(r, c, dr, dc, k).0, step_n(r, c, dr, dc, k).1),
        forall|j: int|
            #![trigger step_n(r, c, dr, dc, j)]
            1 <= j < k ==> empty_at(b, step_n(r, c, dr, dc, j).0, step_n(r, c, dr, dc, j).1),
        empty_or_enemy_at(b, step_n(r, c, dr, dc, k).0, step_n(r, c, dr, dc, k).1, col),
    ensures
        slides_to(b, col, r, c, dr, dc, step_n(r, c, dr, dc, k).0, step_n(r, c, dr, dc, k).1),
    decreases k,
{
    let nr = r + dr;
    let nc = c + dc;
    assert(step_n(r, c, dr, dc, 0) == (r, c));
    assert(step_n(r, c, dr, dc, 1) == (nr, nc));
    if k == 1 {
    } else {
        lemma_step_n_coords(r, c, dr, dc, k);
        lemma_mul_unit(k, dr);
        lemma_mul_unit(k, dc);
        assert(on_board(nr, nc));
        lemma_step_n_shift(r, c, dr, dc, k - 1);
        assert forall|j: int|
            #![trigger step_n(nr, nc, dr, dc, j)]
            1 <= j < k - 1 implies empty_at(
            b,
            step_n(nr, nc, dr, dc, j).0,
            step_n(nr, nc, dr, dc, j).1,
        ) by {
            lemma_step_n_shift(r, c, dr, dc, j);
            assert(step_n(nr, nc, dr, dc, j) == step_n(r, c, dr, dc, j + 1));
        }
        lemma_clear_ray_slides_to(b, col, nr, nc, dr, dc, k - 1);
        lemma_step_n_coords(r, c, dr, dc, k - 1);
        assert(step_n(r, c, dr, dc, k) != (nr, nc));
    }
}

/// A slide reaches exactly the squares that the stop rule describes:
/// `(tr, tc)` is reached from `(r, c)` in direction `(dr, dc)` if and
/// only if it lies some `k >= 1` unit steps out on the board, every
/// square strictly before it on that ray is empty, and it is itself
/// empty or holds an opposing piece.
pub proof fn lemma_slides_to_exact(
    b: Seq<Cell>,
    col: Color,
    r: int,
    c: int,
    dr: int,
    dc: int,
    tr: int,
    tc: int,
)
    requires
        valid_dir(dr, dc),
        on_board(r, c),
    ensures
        slides_to(b, col, r, c, dr, dc, tr, tc) <==> exists|k: int|
            #![trigger step_n(r, c, dr, dc, k)]
            1 <= k && (tr, tc) == step_n(r, c, dr, dc, k) && on_board(tr, tc) && (forall|j: int|
                #![trigger step_n(r, c, dr, dc, j)]
                1 <= j < k ==> empty_at(b, step_n(r, c, dr, dc, j).0, step_n(r, c, dr, dc, j).1))
                && empty_or_enemy_at(b, tr, tc, col),
{
    if slides_to(b, col, r, c, dr, dc, tr, tc) {
        lemma_slide_stops_at_first_blocker(b, col, r, c, dr, dc, tr, tc);
        lemma_slides_to_on_board(b, col, r, c, dr, dc, tr, tc);
    }
    if exists|k: int|
        #![trigger step_n(r, c, dr, dc, k)]
        1 <= k && (tr, tc) == step_n(r, c, dr, dc, k) && on_board(tr, tc) && (forall|j: int|
            #![trigger step_n(r, c, dr, dc, j)]
            1 <= j < k ==> empty_at(b, step_n(r, c, dr, dc, j).0, step_n(r, c, dr, dc, j).1))
            && empty_or_enemy_at(b, tr, tc, col) {
        let k = choose|k: int|
            #![trigger step_n(r, c, dr, dc, k)]
            1 <= k && (tr, tc) == step_n(r, c, dr, dc, k) && on_board(tr, tc) && (forall|j: int|
                #![trigger step_n(r, c, dr, dc, j)]
                1 <= j < k ==> empty_at(b, step_n(r, c, dr, dc, j).0, step_n(r, c, dr, dc, j).1))
                && empty_or_enemy_at(b, tr, tc, col);
        lemma_clear_ray_slides_to(b, col, r, c, dr, dc, k);
    }
}

/// A slide never leaves the board: its destination is an on-board square.
pub proof fn lemma_slides_to_on_board(
    b: Seq<Cell>,
    col: Color,
    r: int,
    c: int,
    dr: int,
    dc: int,
    tr: int,
    tc: int,
)
    requires
        valid_dir(dr, dc),
        on_board(r, c),
        slides_to(b, col, r, c, dr, dc, tr, tc),
    ensures
        on_board(tr, tc),
    decreases edge_dist(r, c, dr, dc),
{
    let nr = r + dr;
    let nc = c + dc;
    if !(tr == nr && tc == nc) {
        lemma_slides_to_on_board(b, col, nr, nc, dr, dc, tr, tc);
    }
}

/// Every pseudo-legal destination of a piece standing on the board is
/// itself on the board.
pub proof fn lemma_piece_reaches_on_board(b: Seq<Cell>, p: Piece, r: int, c: int, tr: int, tc: int)
    requires
        on_board(r, c),
        piece_reaches(b, p, r, c, tr, tc),
    ensures
        on_board(tr, tc),
{
    if rook_reaches(b, p.color, r, c, tr, tc) || bishop_reaches(b, p.color, r, c, tr, tc) {
        if slides_to(b, p.color, r, c, 1, 0, tr, tc) {
            lemma_slides_to_on_board(b, p.color, r, c, 1, 0, tr, tc);
        }
        if slides_to(b, p.color, r, c, 0, 1, tr, tc) {
            lemma_slides_to_on_board(b, p.color, r, c, 0, 1, tr, tc);
        }
        if slides_to(b, p.color, r, c, -1, 0, tr, tc) {
            lemma_slides_to_on_board(b, p.color, r, c, -1, 0, tr, tc);
        }
        if slides_to(b, p.color, r, c, 0, -1, tr, tc) {
            lemma_slides_to_on_board(b, p.color, r, c, 0, -1, tr, tc);
        }
        if slides_to(b, p.color, r, c, 1, 1, tr, tc) {
            lemma_slides_to_on_board(b, p.color, r, c, 1, 1, tr, tc);
        }
        if slides_to(b, p.color, r, c, 1, -1, tr, tc) {
            lemma_slides_to_on_board(b, p.color, r, c, 1, -1, tr, tc);
        }
        if slides_to(b, p.color, r, c, -1, 1, tr, tc) {
            lemma_slides_to_on_board(b, p.color, r, c, -1, 1, tr, tc);
        }
        if slides_to(b, p.color, r, c, -1, -1, tr, tc) {
            lemma_slides_to_on_board(b, p.color, r, c, -1, -1, tr, tc);
        }
    }
}

/// Appends a square that the vector does not yet hold, keeping it
/// duplicate-free.
fn push_unique(moves: &mut Vec<(usize, usize)>, sq: (usize, usize))
    requires
        !old(moves)@.contains(sq),
    ensures
        final(moves)@ == old(moves)@.push(sq),
        old(moves)@.no_duplicates() ==> final(moves)@.no_duplicates(),
{
    proof {
        if old(moves)@.no_duplicates() {
            lemma_push_distinct_keeps_no_duplicates(old(moves)@, sq);
        }
    }
    moves.push(sq);
}

/// Pushes `(tr, tc)` when it is an on-board square where a piece of color
/// `col` may land: empty, or holding an opposing piece.
fn push_if_reachable(
    moves: &mut Vec<(usize, usize)>,
    board: &Board,
    col: Color,
    tr: isize,
    tc: isize,
)
    requires
        board.wf(),
    ensures
        final(moves)@ == (if on_board(tr as int, tc as int) && empty_or_enemy_at(
            board@,
            tr as int,
            tc as int,
            col,
        ) {
            old(moves)@.push((tr as usize, tc as usize))
        } else {
            old(moves)@
        }),
        old(moves)@.no_duplicates() && !old(moves)@.contains(((tr as usize), (tc as usize)))
            ==> final(moves)@.no_duplicates(),
{
    if tr >= 0 && tr < 8 && tc >= 0 && tc < 8 {
        let r = tr as usize;
        let c = tc as usize;
        let landable = match board.get_piece_at((r, c)) {
            None => true,
            Some(p) => p.color != col,
        };
        if landable {
            proof {
                if old(moves)@.no_duplicates() && !old(moves)@.contains((r, c)) {
                    lemma_push_distinct_keeps_no_duplicates(old(moves)@, (r, c));
                }
            }
            moves.push((r, c));
        }
    }
}

/// Walks from `(cr, cc)` in direction `(dr, dc)`, pushing every empty
/// square passed over and, when the walk meets an opposing piece, that
/// piece's square; stops at the board edge or at the first occupied
/// square.
fn collect_dir(
    moves: &mut Vec<(usize, usize)>,
    board: &Board,
    col: Color,
    cr: usize,
    cc: usize,
    dr: isize,
    dc: isize,
)
    requires
        board.wf(),
        cr < 8,
        cc < 8,
        valid_dir(dr as int, dc as int),
    ensures
        forall|t: (usize, usize)| #[trigger]
            final(moves)@.contains(t) <==> old(moves)@.contains(t) || slides_to(
                board@,
                col,
                cr as int,
                cc as int,
                dr as int,
                dc as int,
                t.0 as int,
                t.1 as int,
            ),
        old(moves)@.no_duplicates() && (forall|t: (usize, usize)| #[trigger]
            old(moves)@.contains(t) ==> !slides_to(
                board@,
                col,
                cr as int,
                cc as int,
                dr as int,
                dc as int,
                t.0 as int,
                t.1 as int,
            )) ==> final(moves)@.no_duplicates(),
    decreases edge_dist(cr as int, cc as int, dr as int, dc as int),
{
    let nr = cr as isize + dr;
    let nc = cc as isize + dc;
    if nr < 0 || nr >= 8 || nc < 0 || nc >= 8 {
        return ;
    }
    let nru = nr as usize;
    let ncu = nc as usize;
    match board.get_piece_at((nru, ncu)) {
        None => {
            proof {
                if old(moves)@.no_duplicates() && (forall|t: (usize, usize)| #[trigger]
                    old(moves)@.contains(t) ==> !slides_to(
                        board@,
                        col,
                        cr as int,
                        cc as int,
                        dr as int,
                        dc as int,
                        t.0 as int,
                        t.1 as int,
                    )) {
                    assert(slides_to(
                        board@,
                        col,
                        cr as int,
                        cc as int,
                        dr as int,
                        dc as int,
                        nru as int,
                        ncu as int,
                    ));
                    assert(!old(moves)@.contains((nru, ncu)));
                    lemma_push_distinct_keeps_no_duplicates(old(moves)@, (nru, ncu));
                }
            }
            moves.push((nru, ncu));
            proof {
                if old(moves)@.no_duplicates() && (forall|t: (usize, usize)| #[trigger]
                    old(moves)@.contains(t) ==> !slides_to(
                        board@,
                        col,
                        cr as int,
                        cc as int,
                        dr as int,
                        dc as int,
                        t.0 as int,
                        t.1 as int,
                    )) {
                    assert forall|t: (usize, usize)| #[trigger]
                        moves@.contains(t) implies !slides_to(
                        board@,
                        col,
                        nru as int,
                        ncu as int,
                        dr as int,
                        dc as int,
                        t.0 as int,
                        t.1 as int,
                    ) by {
                        if slides_to(
                            board@,
                            col,
                            nru as int,
                            ncu as int,
                            dr as int,
                            dc as int,
                            t.0 as int,
                            t.1 as int,
                        ) {
                            if t == (nru, ncu) {
                                lemma_slides_to_ray(
                                    board@,
                                    col,
                                    nru as int,
                                    ncu as int,
                                    dr as int,
                                    dc as int,
                                    t.0 as int,
                                    t.1 as int,
                                );
                            } else {
                                assert(slides_to(
                                    board@,
                                    col,
                                    cr as int,
                                    cc as int,
                                    dr as int,
                                    dc as int,
                                    t.0 as int,
                                    t.1 as int,
                                ));
                                assert(old(moves)@.contains(t));
                            }
                        }
                    }
                }
            }
            collect_dir(moves, board, col, nru, ncu, dr, dc);
        },
        Some(p) => {
            if p.color != col {
                proof {
                    if old(moves)@.no_duplicates() && (forall|t: (usize, usize)| #[trigger]
                        old(moves)@.contains(t) ==> !slides_to(
                            board@,
                            col,
                            cr as int,
                            cc as int,
                            dr as int,
                            dc as int,
                            t.0 as int,
                            t.1 as int,
                        )) {
                        assert(slides_to(
                            board@,
                            col,
                            cr as int,
                            cc as int,
                            dr as int,
                            dc as int,
                            nru as int,
                            ncu as int,
                        ));
                        assert(!old(moves)@.contains((nru, ncu)));
                        lemma_push_distinct_keeps_no_duplicates(old(moves)@, (nru, ncu));
                    }
                }
                moves.push((nru, ncu));
            }
        },
    }
}

impl Piece {
    /// The set of squares this piece standing at `position` could move
    /// to, given the current occupancy, ignoring check-safety: the
    /// returned vector holds a square if and only if `piece_reaches`
    /// admits it.
    pub fn valid_moves(&self, position: (usize, usize), board: &Board) -> (moves: Vec<
        (usize, usize),
    >)
        requires
            board.wf(),
            position.0 < 8,
            position.1 < 8,
        ensures
            forall|t: (usize, usize)| #[trigger]
                moves@.contains(t) <==> piece_reaches(
                    board@,
                    *self,
                    position.0 as int,
                    position.1 as int,
                    t.0 as int,
                    t.1 as int,
                ),
            moves@.no_duplicates(),
    {
        match self.piece_type {
            PieceType::Pawn => self.pawn_moves(position, board),
            PieceType::Rook => self.rook_moves(position, board),
            PieceType::Knight => self.knight_moves(position, board),
            PieceType::Bishop => self.bishop_moves(position, board),
            PieceType::Queen => self.queen_moves(position, board),
            PieceType::King => self.king_moves(position, board),
        }
    }

    fn pawn_moves(&self, position: (usize, usize), board: &Board) -> (moves: Vec<(usize, usize)>)
        requires
            board.wf(),
            position.0 < 8,
            position.1 < 8,
        ensures
            forall|t: (usize, usize)| #[trigger]
                moves@.contains(t) <==> pawn_reaches(
                    board@,
                    self.color,
                    position.0 as int,
                    position.1 as int,
                    t.0 as int,
                    t.1 as int,
                ),
            moves@.no_duplicates(),
    {
        let mut moves: Vec<(usize, usize)> = Vec::new();
        let (x, y) = position;
        match self.color {
            Color::White => {
                if x < 7 && matches!(board.get_piece_at((x + 1, y)), None) {
                    push_unique(&mut moves, (x + 1, y));
                }
                if x == 1 && matches!(board.get_piece_at((x + 2, y)), None) && matches!(
                    board.get_piece_at((x + 1, y)),
                    None,
                ) {
                    push_unique(&mut moves, (x + 2, y));
                }
                if x < 7 && y < 7 {
                    if let Some(piece) = board.get_piece_at((x + 1, y + 1)) {
                        if piece.color != self.color {
                            push_unique(&mut moves, (x + 1, y + 1));
                        }
                    }
                }
                if x < 7 && y > 0 {
                    if let Some(piece) = board.get_piece_at((x + 1, y - 1)) {
                        if piece.color != self.color {
                            push_unique(&mut moves, (x + 1, y - 1));
                        }
                    }
                }
            },
            Color::Black => {
                if x > 0 && matches!(board.get_piece_at((x - 1, y)), None) {
                    push_unique(&mut moves, (x - 1, y));
                }
                if x == 6 && matches!(board.get_piece_at((x - 2, y)), None) && matches!(
                    board.get_piece_at((x - 1, y)),
                    None,
                ) {
                    push_unique(&mut moves, (x - 2, y));
                }
                if x > 0 && y < 7 {
                    if let Some(piece) = board.get_piece_at((x - 1, y + 1)) {
                        if piece.color != self.color {
                            push_unique(&mut moves, (x - 1, y + 1));
                        }
                    }
                }
                if x > 0 && y > 0 {
                    if let Some(piece) = board.get_piece_at((x - 1, y - 1)) {
                        if piece.color != self.color {
                            push_unique(&mut moves, (x - 1, y - 1));
                        }
                    }
                }
            },
        }
        moves
    }

    fn rook_moves(&self, position: (usize, usize), board: &Board) -> (moves: Vec<(usize, usize)>)
        requires
            board.wf(),
            position.0 < 8,
            position.1 < 8,
        ensures
            forall|t: (usize, usize)| #[trigger]
                moves@.contains(t) <==> rook_reaches(
                    board@,
                    self.color,
                    position.0 as int,
                    position.1 as int,
                    t.0 as int,
                    t.1 as int,
                ),
            moves@.no_duplicates(),
    {
        let ghost pr = position.0 as int;
        let ghost pc = position.1 as int;
        let ghost col = self.color;
        let ghost b = board@;
        let mut moves: Vec<(usize, usize)> = Vec::new();
        collect_dir(&mut moves, board, self.color, position.0, position.1, 1, 0);
        proof {
            assert(moves@.no_duplicates());
            assert forall|t: (usize, usize)| #[trigger]
                moves@.contains(t) implies !slides_to(b, col, pr, pc, 0, 1, t.0 as int, t.1 as int) by {
                if slides_to(b, col, pr, pc, 1, 0, t.0 as int, t.1 as int) {
                    lemma_distinct_dirs_distinct_targets(b, col, pr, pc, 1, 0, 0, 1, t.0 as int, t.1 as int);
                }
            }
        }
        collect_dir(&mut moves, board, self.color, position.0, position.1, 0, 1);
        proof {
            assert(moves@.no_duplicates());
            assert forall|t: (usize, usize)| #[trigger]
                moves@.contains(t) implies !slides_to(b, col, pr, pc, -1, 0, t.0 as int, t.1 as int) by {
                if slides_to(b, col, pr, pc, 1, 0, t.0 as int, t.1 as int) {
                    lemma_distinct_dirs_distinct_targets(b, col, pr, pc, 1, 0, -1, 0, t.0 as int, t.1 as int);
                }
                if slides_to(b, col, pr, pc, 0, 1, t.0 as int, t.1 as int) {
                    lemma_distinct_dirs_distinct_targets(b, col, pr, pc, 0, 1, -1, 0, t.0 as int, t.1 as int);
                }
            }
        }
        collect_dir(&mut moves, board, self.color, position.0, position.1, -1, 0);
        proof {
            assert(moves@.no_duplicates());
            assert forall|t: (usize, usize)| #[trigger]
                moves@.contains(t) implies !slides_to(b, col, pr, pc, 0, -1, t.0 as int, t.1 as int) by {
                if slides_to(b, col, pr, pc, 1, 0, t.0 as int, t.1 as int) {
                    lemma_distinct_dirs_distinct_targets(b, col, pr, pc, 1, 0, 0, -1, t.0 as int, t.1 as int);
                }
                if slides_to(b, col, pr, pc, 0, 1, t.0 as int, t.1 as int) {
                    lemma_distinct_dirs_distinct_targets(b, col, pr, pc, 0, 1, 0, -1, t.0 as int, t.1 as int);
                }
                if slides_to(b, col, pr, pc, -1, 0, t.0 as int, t.1 as int) {
                    lemma_distinct_dirs_distinct_targets(b, col, pr, pc, -1, 0, 0, -1, t.0 as int, t.1 as int);
                }
            }
        }
        collect_dir(&mut moves, board, self.color, position.0, position.1, 0, -1);
        proof {
            assert(moves@.no_duplicates());
        }
        moves
    }

    fn bishop_moves(&self, position: (usize, usize), board: &Board) -> (moves: Vec<(usize, usize)>)
        requires
            board.wf(),
            position.0 < 8,
            position.1 < 8,
        ensures
            forall|t: (usize, usize)| #[trigger]
                moves@.contains(t) <==> bishop_reaches(
                    board@,
                    self.color,
                    position.0 as int,
                    position.1 as int,
                    t.0 as int,
                    t.1 as int,
                ),
            moves@.no_duplicates(),
    {
        let ghost pr = position.0 as int;
        let ghost pc = position.1 as int;
        let ghost col = self.color;
        let ghost b = board@;
        let mut moves: Vec<(usize, usize)> = Vec::new();
        collect_dir(&mut moves, board, self.color, position.0, position.1, 1, 1);
        proof {
            assert(moves@.no_duplicates());
            assert forall|t: (usize, usize)| #[trigger]
                moves@.contains(t) implies !slides_to(b, col, pr, pc, 1, -1, t.0 as int, t.1 as int) by {
                if slides_to(b, col, pr, pc, 1, 1, t.0 as int, t.1 as int) {
                    lemma_distinct_dirs_distinct_targets(b, col, pr, pc, 1, 1, 1, -1, t.0 as int, t.1 as int);
                }
            }
        }
        collect_dir(&mut moves, board, self.color, position.0, position.1, 1, -1);
        proof {
            assert(moves@.no_duplicates());
            assert forall|t: (usize, usize)| #[trigger]
                moves@.contains(t) implies !slides_to(b, col, pr, pc, -1, 1, t.0 as int, t.1 as int) by {
                if slides_to(b, col, pr, pc, 1, 1, t.0 as int, t.1 as int) {
                    lemma_distinct_dirs_distinct_targets(b, col, pr, pc, 1, 1, -1, 1, t.0 as int, t.1 as int);
                }
                if slides_to(b, col, pr, pc, 1, -1, t.0 as int, t.1 as int) {
                    lemma_distinct_dirs_distinct_targets(b, col, pr, pc, 1, -1, -1, 1, t.0 as int, t.1 as int);
                }
            }
        }
        collect_dir(&mut moves, board, self.color, position.0, position.1, -1, 1);
        proof {
            assert(moves@.no_duplicates());
            assert forall|t: (usize, usize)| #[trigger]
                moves@.contains(t) implies !slides_to(b, col, pr, pc, -1, -1, t.0 as int, t.1 as int) by {
                if slides_to(b, col, pr, pc, 1, 1, t.0 as int, t.1 as int) {
                    lemma_distinct_dirs_distinct_targets(b, col, pr, pc, 1, 1, -1, -1, t.0 as int, t.1 as int);
                }
                if slides_to(b, col, pr, pc, 1, -1, t.0 as int, t.1 as int) {
                    lemma_distinct_dirs_distinct_targets(b, col, pr, pc, 1, -1, -1, -1, t.0 as int, t.1 as int);
                }
                if slides_to(b, col, pr, pc, -1, 1, t.0 as int, t.1 as int) {
                    lemma_distinct_dirs_distinct_targets(b, col, pr, pc, -1, 1, -1, -1, t.0 as int, t.1 as int);
                }
            }
        }
        collect_dir(&mut moves, board, self.color, position.0, position.1, -1, -1);
        proof {
            assert(moves@.no_duplicates());
        }
        moves
    }

    fn queen_moves(&self, position: (usize, usize), board: &Board) -> (moves: Vec<(usize, usize)>)
        requires
            board.wf(),
            position.0 < 8,
            position.1 < 8,
        ensures
            forall|t: (usize, usize)| #[trigger]
                moves@.contains(t) <==> queen_reaches(
                    board@,
                    self.color,
                    position.0 as int,
                    position.1 as int,
                    t.0 as int,
                    t.1 as int,
                ),
            moves@.no_duplicates(),
    {
        let ghost pr = position.0 as int;
        let ghost pc = position.1 as int;
        let ghost col = self.color;
        let ghost b = board@;
        let mut moves: Vec<(usize, usize)> = Vec::new();
        collect_dir(&mut moves, board, self.color, position.0, position.1, 1, 0);
        proof {
            assert(moves@.no_duplicates());
            assert forall|t: (usize, usize)| #[trigger]
                moves@.contains(t) implies !slides_to(b, col, pr, pc, 0, 1, t.0 as int, t.1 as int) by {
                if slides_to(b, col, pr, pc, 1, 0, t.0 as int, t.1 as int) {
                    lemma_distinct_dirs_distinct_targets(b, col, pr, pc, 1, 0, 0, 1, t.0 as int, t.1 as int);
                }
            }
        }
        collect_dir(&mut moves, board, self.color, position.0, position.1, 0, 1);
        proof {
            assert(moves@.no_duplicates());
            assert forall|t: (usize, usize)| #[trigger]
                moves@.contains(t) implies !slides_to(b, col, pr, pc, -1, 0, t.0 as int, t.1 as int) by {
                if slides_to(b, col, pr, pc, 1, 0, t.0 as int, t.1 as int) {
                    lemma_distinct_dirs_distinct_targets(b, col, pr, pc, 1, 0, -1, 0, t.0 as int, t.1 as int);
                }
                if slides_to(b, col, pr, pc, 0, 1, t.0 as int, t.1 as int) {
                    lemma_distinct_dirs_distinct_targets(b, col, pr, pc, 0, 1, -1, 0, t.0 as int, t.1 as int);
                }
            }
        }
        collect_dir(&mut moves, board, self.color, position.0, position.1, -1, 0);
        proof {
            assert(moves@.no_duplicates());
            assert forall|t: (usize, usize)| #[trigger]
                moves@.contains(t) implies !slides_to(b, col, pr, pc, 0, -1, t.0 as int, t.1 as int) by {
                if slides_to(b, col, pr, pc, 1, 0, t.0 as int, t.1 as int) {
                    lemma_distinct_dirs_distinct_targets(b, col, pr, pc, 1, 0, 0, -1, t.0 as int, t.1 as int);
                }
                if slides_to(b, col, pr, pc, 0, 1, t.0 as int, t.1 as int) {
                    lemma_distinct_dirs_distinct_targets(b, col, pr, pc, 0, 1, 0, -1, t.0 as int, t.1 as int);
                }
                if slides_to(b, col, pr, pc, -1, 0, t.0 as int, t.1 as int) {
                    lemma_distinct_dirs_distinct_targets(b, col, pr, pc, -1, 0, 0, -1, t.0 as int, t.1 as int);
                }
            }
        }
        collect_dir(&mut moves, board, self.color, position.0, position.1, 0, -1);
        proof {
            assert(moves@.no_duplicates());
            assert forall|t: (usize, usize)| #[trigger]
                moves@.contains(t) implies !slides_to(b, col, pr, pc, 1, 1, t.0 as int, t.1 as int) by {
                if slides_to(b, col, pr, pc, 1, 0, t.0 as int, t.1 as int) {
                    lemma_distinct_dirs_distinct_targets(b, col, pr, pc, 1, 0, 1, 1, t.0 as int, t.1 as int);
                }
                if slides_to(b, col, pr, pc, 0, 1, t.0 as int, t.1 as int) {
                    lemma_distinct_dirs_distinct_targets(b, col, pr, pc, 0, 1, 1, 1, t.0 as int, t.1 as int);
                }
                if slides_to(b, col, pr, pc, -1, 0, t.0 as int, t.1 as int) {
                    lemma_distinct_dirs_distinct_targets(b, col, pr, pc, -1, 0, 1, 1, t.0 as int, t.1 as int);
                }
                if slides_to(b, col, pr, pc, 0, -1, t.0 as int, t.1 as int) {
                    lemma_distinct_dirs_distinct_targets(b, col, pr, pc, 0, -1, 1, 1, t.0 as int, t.1 as int);
                }
            }
        }
        collect_dir(&mut moves, board, self.color, position.0, position.1, 1, 1);
        proof {
            assert(moves@.no_duplicates());
            assert forall|t: (usize, usize)| #[trigger]
                moves@.contains(t) implies !slides_to(b, col, pr, pc, 1, -1, t.0 as int, t.1 as int) by {
                if slides_to(b, col, pr, pc, 1, 0, t.0 as int, t.1 as int) {
                    lemma_distinct_dirs_distinct_targets(b, col, pr, pc, 1, 0, 1, -1, t.0 as int, t.1 as int);
                }
                if slides_to(b, col, pr, pc, 0, 1, t.0 as int, t.1 as int) {
                    lemma_distinct_dirs_distinct_targets(b, col, pr, pc, 0, 1, 1, -1, t.0 as int, t.1 as int);
                }
                if slides_to(b, col, pr, pc, -1, 0, t.0 as int, t.1 as int) {
                    lemma_distinct_dirs_distinct_targets(b, col, pr, pc, -1, 0, 1, -1, t.0 as int, t.1 as int);
                }
                if slides_to(b, col, pr, pc, 0, -1, t.0 as int, t.1 as int) {
                    lemma_distinct_dirs_distinct_targets(b, col, pr, pc, 0, -1, 1, -1, t.0 as int, t.1 as int);
                }
                if slides_to(b, col, pr, pc, 1, 1, t.0 as int, t.1 as int) {
                    lemma_distinct_dirs_distinct_targets(b, col, pr, pc, 1, 1, 1, -1, t.0 as int, t.1 as int);
                }
            }
        }
        collect_dir(&mut moves, board, self.color, position.0, position.1, 1, -1);
        proof {
            assert(moves@.no_duplicates());
            assert forall|t: (usize, usize)| #[trigger]
                moves@.contains(t) implies !slides_to(b, col, pr, pc, -1, 1, t.0 as int, t.1 as int) by {
                if slides_to(b, col, pr, pc, 1, 0, t.0 as int, t.1 as int) {
                    lemma_distinct_dirs_distinct_targets(b, col, pr, pc, 1, 0, -1, 1, t.0 as int, t.1 as int);
                }
                if slides_to(b, col, pr, pc, 0, 1, t.0 as int, t.1 as int) {
                    lemma_distinct_dirs_distinct_targets(b, col, pr, pc, 0, 1, -1, 1, t.0 as int, t.1 as int);
                }
                if slides_to(b, col, pr, pc, -1, 0, t.0 as int, t.1 as int) {
                    lemma_distinct_dirs_distinct_targets(b, col, pr, pc, -1, 0, -1, 1, t.0 as int, t.1 as int);
                }
                if slides_to(b, col, pr, pc, 0, -1, t.0 as int, t.1 as int) {
                    lemma_distinct_dirs_distinct_targets(b, col, pr, pc, 0, -1, -1, 1, t.0 as int, t.1 as int);
                }
                if slides_to(b, col, pr, pc, 1, 1, t.0 as int, t.1 as int) {
                    lemma_distinct_dirs_distinct_targets(b, col, pr, pc, 1, 1, -1, 1, t.0 as int, t.1 as int);
                }
                if slides_to(b, col, pr, pc, 1, -1, t.0 as int, t.1 as int) {
                    lemma_distinct_dirs_distinct_targets(b, col, pr, pc, 1, -1, -1, 1, t.0 as int, t.1 as int);
                }
            }
        }
        collect_dir(&mut moves, board, self.color, position.0, position.1, -1, 1);
        proof {
            assert(moves@.no_duplicates());
            assert forall|t: (usize, usize)| #[trigger]
                moves@.contains(t) implies !slides_to(b, col, pr, pc, -1, -1, t.0 as int, t.1 as int) by {
                if slides_to(b, col, pr, pc, 1, 0, t.0 as int, t.1 as int) {
                    lemma_distinct_dirs_distinct_targets(b, col, pr, pc, 1, 0, -1, -1, t.0 as int, t.1 as int);
                }
                if slides_to(b, col, pr, pc, 0, 1, t.0 as int, t.1 as int) {
                    lemma_distinct_dirs_distinct_targets(b, col, pr, pc, 0, 1, -1, -1, t.0 as int, t.1 as int);
                }
                if slides_to(b, col, pr, pc, -1, 0, t.0 as int, t.1 as int) {
                    lemma_distinct_dirs_distinct_targets(b, col, pr, pc, -1, 0, -1, -1, t.0 as int, t.1 as int);
                }
                if slides_to(b, col, pr, pc, 0, -1, t.0 as int, t.1 as int) {
                    lemma_distinct_dirs_distinct_targets(b, col, pr, pc, 0, -1, -1, -1, t.0 as int, t.1 as int);
                }
                if slides_to(b, col, pr, pc, 1, 1, t.0 as int, t.1 as int) {
                    lemma_distinct_dirs_distinct_targets(b, col, pr, pc, 1, 1, -1, -1, t.0 as int, t.1 as int);
                }
                if slides_to(b, col, pr, pc, 1, -1, t.0 as int, t.1 as int) {
                    lemma_distinct_dirs_distinct_targets(b, col, pr, pc, 1, -1, -1, -1, t.0 as int, t.1 as int);
                }
                if slides_to(b, col, pr, pc, -1, 1, t.0 as int, t.1 as int) {
                    lemma_distinct_dirs_distinct_targets(b, col, pr, pc, -1, 1, -1, -1, t.0 as int, t.1 as int);
                }
            }
        }
        collect_dir(&mut moves, board, self.color, position.0, position.1, -1, -1);
        proof {
            assert(moves@.no_duplicates());
        }
        moves
    }

    #[verifier::rlimit(100)]
    fn knight_moves(&self, position: (usize, usize), board: &Board) -> (moves: Vec<(usize, usize)>)
        requires
            board.wf(),
            position.0 < 8,
            position.1 < 8,
        ensures
            forall|t: (usize, usize)| #[trigger]
                moves@.contains(t) <==> knight_reaches(
                    board@,
                    self.color,
                    position.0 as int,
                    position.1 as int,
                    t.0 as int,
                    t.1 as int,
                ),
            moves@.no_duplicates(),
    {
        let mut moves: Vec<(usize, usize)> = Vec::new();
        let x = position.0 as isize;
        let y = position.1 as isize;
        push_if_reachable(&mut moves, board, self.color, x + 2, y + 1);
        proof {
            assert(moves@.no_duplicates());
        }
        push_if_reachable(&mut moves, board, self.color, x + 2, y - 1);
        proof {
            assert(moves@.no_duplicates());
        }
        push_if_reachable(&mut moves, board, self.color, x - 2, y + 1);
        proof {
            assert(moves@.no_duplicates());
        }
        push_if_reachable(&mut moves, board, self.color, x - 2, y - 1);
        proof {
            assert(moves@.no_duplicates());
        }
        push_if_reachable(&mut moves, board, self.color, x + 1, y + 2);
        proof {
            assert(moves@.no_duplicates());
        }
        push_if_reachable(&mut moves, board, self.color, x + 1, y - 2);
        proof {
            assert(moves@.no_duplicates());
        }
        push_if_reachable(&mut moves, board, self.color, x - 1, y + 2);
        proof {
            assert(moves@.no_duplicates());
        }
        push_if_reachable(&mut moves, board, self.color, x - 1, y - 2);
        proof {
            assert(moves@.no_duplicates());
        }
        moves
    }

    #[verifier::rlimit(100)]
    fn king_moves(&self, position: (usize, usize), board: &Board) -> (moves: Vec<(usize, usize)>)
        requires
            board.wf(),
            position.0 < 8,
            position.1 < 8,
        ensures
            forall|t: (usize, usize)| #[trigger]
                moves@.contains(t) <==> king_reaches(
                    board@,
                    self.color,
                    position.0 as int,
                    position.1 as int,
                    t.0 as int,
                    t.1 as int,
                ),
            moves@.no_duplicates(),
    {
        let mut moves: Vec<(usize, usize)> = Vec::new();
        let x = position.0 as isize;
        let y = position.1 as isize;
        push_if_reachable(&mut moves, board, self.color, x + 1, y);
        proof {
            assert(moves@.no_duplicates());
        }
        push_if_reachable(&mut moves, board, self.color, x - 1, y);
        proof {
            assert(moves@.no_duplicates());
        }
        push_if_reachable(&mut moves, board, self.color, x, y + 1);
        proof {
            assert(moves@.no_duplicates());
        }
        push_if_reachable(&mut moves, board, self.color, x, y - 1);
        proof {
            assert(moves@.no_duplicates());
        }
        push_if_reachable(&mut moves, board, self.color, x + 1, y + 1);
        proof {
            assert(moves@.no_duplicates());
        }
        push_if_reachable(&mut moves, board, self.color, x + 1, y - 1);
        proof {
            assert(moves@.no_duplicates());
        }
        push_if_reachable(&mut moves, board, self.color, x - 1, y + 1);
        proof {
            assert(moves@.no_duplicates());
        }
        push_if_reachable(&mut moves, board, self.color, x - 1, y - 1);
        proof {
            assert(moves@.no_duplicates());
        }
        moves
    }
}

} // verus!
