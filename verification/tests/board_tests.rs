use chess::board::{Board, Cell};
use chess::piece::{Color, Piece, PieceType};

fn cleared_board() -> Board {
    let mut board = Board::new();
    for r in 0..8 {
        for c in 0..8 {
            board.remove_piece_at((r, c));
        }
    }
    board
}

#[test]
fn initial_setup_back_ranks_and_pawns() {
    let board = Board::new();
    let back = [
        PieceType::Rook,
        PieceType::Knight,
        PieceType::Bishop,
        PieceType::Queen,
        PieceType::King,
        PieceType::Bishop,
        PieceType::Knight,
        PieceType::Rook,
    ];
    for c in 0..8 {
        assert_eq!(
            board.get_piece_at((0, c)),
            Some(Piece { piece_type: back[c], color: Color::White, has_moved: false })
        );
        assert_eq!(
            board.get_piece_at((1, c)),
            Some(Piece { piece_type: PieceType::Pawn, color: Color::White, has_moved: false })
        );
        assert_eq!(
            board.get_piece_at((6, c)),
            Some(Piece { piece_type: PieceType::Pawn, color: Color::Black, has_moved: false })
        );
        assert_eq!(
            board.get_piece_at((7, c)),
            Some(Piece { piece_type: back[c], color: Color::Black, has_moved: false })
        );
        for r in 2..6 {
            assert_eq!(board.get_piece_at((r, c)), None);
        }
    }
}

#[test]
fn bounds_checking_accepts_signed_probes() {
    let board = Board::new();
    assert!(board.is_within_bounds((0, 0)));
    assert!(board.is_within_bounds((7, 7)));
    assert!(!board.is_within_bounds((-1, 0)));
    assert!(!board.is_within_bounds((0, 8)));
    assert!(!board.is_within_bounds((8, 3)));
}

#[test]
fn set_and_remove_piece() {
    let mut board = cleared_board();
    let knight = Piece { piece_type: PieceType::Knight, color: Color::Black, has_moved: true };
    board.set_piece_at((4, 4), knight);
    assert_eq!(board.get_piece_at((4, 4)), Some(knight));
    board.remove_piece_at((4, 4));
    assert_eq!(board.get_piece_at((4, 4)), None);
}

#[test]
fn next_square_in_direction_stays_on_board() {
    let board = Board::new();
    assert_eq!(board.next_square_in_direction((3, 3), (1, 1)), Some((4, 4)));
    assert_eq!(board.next_square_in_direction((0, 0), (-1, 0)), None);
    assert_eq!(board.next_square_in_direction((7, 7), (0, 1)), None);
    assert_eq!(board.next_square_in_direction((7, 7), (-1, 0)), Some((6, 7)));
}

#[test]
fn cell_at_reads_the_grid() {
    let board = Board::new();
    assert_eq!(*board.cell_at((4, 4)), Cell::Empty);
    assert_eq!(
        *board.cell_at((0, 3)),
        Cell::Occupied(Piece { piece_type: PieceType::Queen, color: Color::White, has_moved: false })
    );
}

#[test]
fn duplicate_copies_every_cell() {
    let mut board = Board::new();
    let copy = board.duplicate();
    board.remove_piece_at((0, 0));
    assert_eq!(board.get_piece_at((0, 0)), None);
    assert_eq!(
        copy.get_piece_at((0, 0)),
        Some(Piece { piece_type: PieceType::Rook, color: Color::White, has_moved: false })
    );
    for r in 0..8 {
        for c in 0..8 {
            if (r, c) != (0, 0) {
                assert_eq!(copy.get_piece_at((r, c)), board.get_piece_at((r, c)));
            }
        }
    }
}

#[test]
fn make_move_relocates_without_marking() {
    let mut board = Board::new();
    board.make_move((1, 4), (3, 4));
    assert_eq!(
        board.get_piece_at((3, 4)),
        Some(Piece { piece_type: PieceType::Pawn, color: Color::White, has_moved: false })
    );
    assert_eq!(board.get_piece_at((1, 4)), None);
}

#[test]
fn make_move_overwrites_destination() {
    let mut board = Board::new();
    board.make_move((0, 0), (1, 0));
    assert_eq!(
        board.get_piece_at((1, 0)),
        Some(Piece { piece_type: PieceType::Rook, color: Color::White, has_moved: false })
    );
    assert_eq!(board.get_piece_at((0, 0)), None);
}

#[test]
fn move_piece_round_trip_marks_moved() {
    let mut board = Board::new();
    board.move_piece((1, 0), (3, 0));
    assert_eq!(
        board.get_piece_at((3, 0)),
        Some(Piece { piece_type: PieceType::Pawn, color: Color::White, has_moved: true })
    );
    assert_eq!(board.get_piece_at((1, 0)), None);
}

#[test]
fn move_piece_from_empty_square_is_a_no_op() {
    let mut board = Board::new();
    board.move_piece((4, 4), (5, 5));
    assert_eq!(board.get_piece_at((4, 4)), None);
    assert_eq!(board.get_piece_at((5, 5)), None);
    assert_eq!(
        board.get_piece_at((0, 0)),
        Some(Piece { piece_type: PieceType::Rook, color: Color::White, has_moved: false })
    );
}
