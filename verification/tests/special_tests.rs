use chess::board::Board;
use chess::game::{Game, GameState};
use chess::piece::{Color, Piece, PieceType};

fn open_board() -> Board {
    let mut board = Board::new();
    for r in 0..8 {
        for c in 0..8 {
            board.remove_piece_at((r, c));
        }
    }
    board
}

fn put_piece(board: &mut Board, r: usize, c: usize, piece_type: PieceType, color: Color, has_moved: bool) {
    board.set_piece_at((r, c), Piece { piece_type, color, has_moved });
}

fn white_castle_board() -> Board {
    let mut board = open_board();
    put_piece(&mut board, 0, 4, PieceType::King, Color::White, false);
    put_piece(&mut board, 0, 7, PieceType::Rook, Color::White, false);
    put_piece(&mut board, 0, 0, PieceType::Rook, Color::White, false);
    board
}

fn as_game(board: Board, player: Color) -> Game {
    Game { board, current_player: player, state: GameState::Ongoing }
}

#[test]
fn king_side_castling_moves_both_pieces() {
    let mut game = as_game(white_castle_board(), Color::White);
    assert!(game.can_castle((0, 4), (0, 6)));
    game.handle_castling((0, 4), (0, 6));
    assert_eq!(
        game.board.get_piece_at((0, 6)),
        Some(Piece { piece_type: PieceType::King, color: Color::White, has_moved: false })
    );
    assert_eq!(
        game.board.get_piece_at((0, 5)),
        Some(Piece { piece_type: PieceType::Rook, color: Color::White, has_moved: false })
    );
    assert_eq!(game.board.get_piece_at((0, 4)), None);
    assert_eq!(game.board.get_piece_at((0, 7)), None);
}

#[test]
fn queen_side_castling_moves_both_pieces() {
    let mut game = as_game(white_castle_board(), Color::White);
    assert!(game.can_castle((0, 4), (0, 2)));
    game.handle_castling((0, 4), (0, 2));
    assert_eq!(
        game.board.get_piece_at((0, 2)),
        Some(Piece { piece_type: PieceType::King, color: Color::White, has_moved: false })
    );
    assert_eq!(
        game.board.get_piece_at((0, 3)),
        Some(Piece { piece_type: PieceType::Rook, color: Color::White, has_moved: false })
    );
    assert_eq!(game.board.get_piece_at((0, 4)), None);
    assert_eq!(game.board.get_piece_at((0, 0)), None);
}

#[test]
fn castling_refused_when_king_has_moved() {
    let mut board = white_castle_board();
    put_piece(&mut board, 0, 4, PieceType::King, Color::White, true);
    let mut game = as_game(board, Color::White);
    assert!(!game.can_castle((0, 4), (0, 6)));
    game.handle_castling((0, 4), (0, 6));
    assert_eq!(
        game.board.get_piece_at((0, 4)),
        Some(Piece { piece_type: PieceType::King, color: Color::White, has_moved: true })
    );
    assert_eq!(
        game.board.get_piece_at((0, 7)),
        Some(Piece { piece_type: PieceType::Rook, color: Color::White, has_moved: false })
    );
}

#[test]
fn castling_refused_when_rook_has_moved() {
    let mut board = white_castle_board();
    put_piece(&mut board, 0, 7, PieceType::Rook, Color::White, true);
    let game = as_game(board, Color::White);
    assert!(!game.can_castle((0, 4), (0, 6)));
}

#[test]
fn castling_refused_when_rook_is_absent() {
    let mut board = white_castle_board();
    board.remove_piece_at((0, 7));
    let game = as_game(board, Color::White);
    assert!(!game.can_castle((0, 4), (0, 6)));
}

#[test]
fn castling_refused_when_path_is_occupied() {
    let mut board = white_castle_board();
    put_piece(&mut board, 0, 5, PieceType::Bishop, Color::White, false);
    let mut game = as_game(board, Color::White);
    assert!(!game.can_castle((0, 4), (0, 6)));
    game.handle_castling((0, 4), (0, 6));
    assert_eq!(
        game.board.get_piece_at((0, 4)),
        Some(Piece { piece_type: PieceType::King, color: Color::White, has_moved: false })
    );
    // Queen-side path runs from column 1 to column 3.
    put_piece(&mut game.board, 0, 1, PieceType::Knight, Color::White, false);
    assert!(!game.can_castle((0, 4), (0, 2)));
}

#[test]
fn castling_refused_when_king_is_in_check() {
    let mut board = white_castle_board();
    put_piece(&mut board, 5, 4, PieceType::Rook, Color::Black, false);
    let game = as_game(board, Color::White);
    assert!(!game.can_castle((0, 4), (0, 6)));
}

#[test]
fn castling_refused_when_path_is_attacked() {
    let mut board = white_castle_board();
    put_piece(&mut board, 5, 5, PieceType::Rook, Color::Black, false);
    let mut game = as_game(board, Color::White);
    assert!(!game.can_castle((0, 4), (0, 6)));
    game.handle_castling((0, 4), (0, 6));
    assert_eq!(
        game.board.get_piece_at((0, 7)),
        Some(Piece { piece_type: PieceType::Rook, color: Color::White, has_moved: false })
    );
}

#[test]
fn black_king_side_castling() {
    let mut board = open_board();
    put_piece(&mut board, 7, 4, PieceType::King, Color::Black, false);
    put_piece(&mut board, 7, 7, PieceType::Rook, Color::Black, false);
    let mut game = as_game(board, Color::Black);
    assert!(game.can_castle((7, 4), (7, 6)));
    game.handle_castling((7, 4), (7, 6));
    assert_eq!(
        game.board.get_piece_at((7, 6)),
        Some(Piece { piece_type: PieceType::King, color: Color::Black, has_moved: false })
    );
    assert_eq!(
        game.board.get_piece_at((7, 5)),
        Some(Piece { piece_type: PieceType::Rook, color: Color::Black, has_moved: false })
    );
}

#[test]
fn white_pawn_promotes_on_row_seven() {
    let mut board = open_board();
    put_piece(&mut board, 7, 3, PieceType::Pawn, Color::White, true);
    let mut game = as_game(board, Color::White);
    assert!(game.is_pawn_promotion((7, 3)));
    game.handle_pawn_promotion((7, 3));
    assert_eq!(
        game.board.get_piece_at((7, 3)),
        Some(Piece { piece_type: PieceType::Queen, color: Color::White, has_moved: true })
    );
}

#[test]
fn black_pawn_promotes_on_row_zero() {
    let mut board = open_board();
    put_piece(&mut board, 0, 2, PieceType::Pawn, Color::Black, true);
    let mut game = as_game(board, Color::Black);
    assert!(game.is_pawn_promotion((0, 2)));
    game.handle_pawn_promotion((0, 2));
    assert_eq!(
        game.board.get_piece_at((0, 2)),
        Some(Piece { piece_type: PieceType::Queen, color: Color::Black, has_moved: true })
    );
}

#[test]
fn pawn_on_other_rows_is_not_promoted() {
    let mut board = open_board();
    put_piece(&mut board, 5, 3, PieceType::Pawn, Color::White, true);
    put_piece(&mut board, 0, 6, PieceType::Pawn, Color::White, true);
    let mut game = as_game(board, Color::White);
    assert!(!game.is_pawn_promotion((5, 3)));
    assert!(!game.is_pawn_promotion((0, 6)));
    game.handle_pawn_promotion((5, 3));
    game.handle_pawn_promotion((0, 6));
    assert_eq!(
        game.board.get_piece_at((5, 3)),
        Some(Piece { piece_type: PieceType::Pawn, color: Color::White, has_moved: true })
    );
    assert_eq!(
        game.board.get_piece_at((0, 6)),
        Some(Piece { piece_type: PieceType::Pawn, color: Color::White, has_moved: true })
    );
}

#[test]
fn non_pawn_is_never_promoted() {
    let mut board = open_board();
    put_piece(&mut board, 7, 3, PieceType::Rook, Color::White, true);
    let game = as_game(board, Color::White);
    assert!(!game.is_pawn_promotion((7, 3)));
}

#[test]
fn special_moves_dispatch_promotes_a_pawn() {
    // A White pawn has just been moved onto row 7; the origin is empty.
    let mut board = open_board();
    put_piece(&mut board, 7, 3, PieceType::Pawn, Color::White, true);
    let mut game = as_game(board, Color::White);
    game.handle_special_moves((6, 3), (7, 3));
    assert_eq!(
        game.board.get_piece_at((7, 3)),
        Some(Piece { piece_type: PieceType::Queen, color: Color::White, has_moved: true })
    );
}

#[test]
fn committed_pawn_push_promotes_through_the_turn_sequence() {
    // The turn loop's order: move_piece first, then handle_special_moves.
    let mut board = open_board();
    put_piece(&mut board, 6, 3, PieceType::Pawn, Color::White, false);
    let mut game = as_game(board, Color::White);
    game.board.move_piece((6, 3), (7, 3));
    game.handle_special_moves((6, 3), (7, 3));
    assert_eq!(game.board.get_piece_at((6, 3)), None);
    assert_eq!(
        game.board.get_piece_at((7, 3)),
        Some(Piece { piece_type: PieceType::Queen, color: Color::White, has_moved: true })
    );
}

#[test]
fn special_moves_after_ordinary_king_move_are_harmless() {
    // The king has just made an ordinary one-step move: its origin is
    // empty, so the castling attempt is refused and nothing changes.
    let mut board = open_board();
    put_piece(&mut board, 0, 5, PieceType::King, Color::White, true);
    put_piece(&mut board, 0, 7, PieceType::Rook, Color::White, false);
    let mut game = as_game(board, Color::White);
    game.handle_special_moves((0, 4), (0, 5));
    assert_eq!(game.board.get_piece_at((0, 4)), None);
    assert_eq!(
        game.board.get_piece_at((0, 5)),
        Some(Piece { piece_type: PieceType::King, color: Color::White, has_moved: true })
    );
    assert_eq!(
        game.board.get_piece_at((0, 7)),
        Some(Piece { piece_type: PieceType::Rook, color: Color::White, has_moved: false })
    );
}

#[test]
fn special_moves_ignore_other_pieces_and_empty_destinations() {
    let mut board = open_board();
    put_piece(&mut board, 3, 7, PieceType::Rook, Color::White, true);
    let mut game = as_game(board, Color::White);
    game.handle_special_moves((3, 3), (3, 7));
    assert_eq!(
        game.board.get_piece_at((3, 7)),
        Some(Piece { piece_type: PieceType::Rook, color: Color::White, has_moved: true })
    );
    game.handle_special_moves((4, 4), (5, 5));
    assert_eq!(game.board.get_piece_at((5, 5)), None);
}
