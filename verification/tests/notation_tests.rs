use chess::chess_move::Move;
use chess::notation::parse_chess_notation;
use chess::piece::{Color, Piece, PieceType};

#[test]
fn parses_lower_case_coordinates() {
    assert_eq!(parse_chess_notation("e2"), Some((6, 4)));
    assert_eq!(parse_chess_notation("a1"), Some((7, 0)));
    assert_eq!(parse_chess_notation("h8"), Some((0, 7)));
    assert_eq!(parse_chess_notation("d5"), Some((3, 3)));
}

#[test]
fn parses_upper_case_files() {
    assert_eq!(parse_chess_notation("E2"), Some((6, 4)));
    assert_eq!(parse_chess_notation("A8"), Some((0, 0)));
}

#[test]
fn rejects_out_of_range_files_and_ranks() {
    assert_eq!(parse_chess_notation("i1"), None);
    assert_eq!(parse_chess_notation("e0"), None);
    assert_eq!(parse_chess_notation("e9"), None);
    assert_eq!(parse_chess_notation("z5"), None);
}

#[test]
fn rejects_malformed_text() {
    assert_eq!(parse_chess_notation(""), None);
    assert_eq!(parse_chess_notation("e"), None);
    assert_eq!(parse_chess_notation("e24"), None);
    assert_eq!(parse_chess_notation("2e"), None);
    assert_eq!(parse_chess_notation("??"), None);
}

#[test]
fn move_record_keeps_its_fields() {
    let pawn = Piece { piece_type: PieceType::Pawn, color: Color::White, has_moved: false };
    let taken = Piece { piece_type: PieceType::Knight, color: Color::Black, has_moved: true };
    let m = Move::new((1, 4), (2, 5), pawn, Some(taken));
    assert_eq!(m.from, (1, 4));
    assert_eq!(m.to, (2, 5));
    assert_eq!(m.piece_moved, pawn);
    assert_eq!(m.piece_captured, Some(taken));
    assert!(!m.is_castling_move);
    assert!(!m.is_en_passant_move);
    assert_eq!(m.promoted_to, None);
}
