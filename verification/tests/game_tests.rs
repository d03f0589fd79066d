use chess::board::Board;
use chess::game::{Game, GameState};
use chess::piece::{Color, Piece, PieceType};

fn bare_board() -> Board {
    let mut board = Board::new();
    for r in 0..8 {
        for c in 0..8 {
            board.remove_piece_at((r, c));
        }
    }
    board
}

fn place(board: &mut Board, r: usize, c: usize, piece_type: PieceType, color: Color) {
    board.set_piece_at((r, c), Piece { piece_type, color, has_moved: false });
}

fn game_of(board: Board, player: Color) -> Game {
    Game { board, current_player: player, state: GameState::Ongoing }
}

#[test]
fn new_game_starts_ongoing() {
    let game = Game::new();
    assert_eq!(game.state, GameState::Ongoing);
    assert_eq!(game.current_player, Color::Black);
    assert_eq!(
        game.board.get_piece_at((0, 4)),
        Some(Piece { piece_type: PieceType::King, color: Color::White, has_moved: false })
    );
}

#[test]
fn switch_player_alternates() {
    let mut game = Game::new();
    assert_eq!(game.current_player, Color::Black);
    game.switch_player();
    assert_eq!(game.current_player, Color::White);
    game.switch_player();
    assert_eq!(game.current_player, Color::Black);
}

#[test]
fn valid_move_rejects_empty_origin() {
    let game = Game::new();
    assert!(!game.is_valid_move((3, 3), (4, 4)));
}

#[test]
fn valid_move_rejects_opponent_piece() {
    let game = Game::new();
    // The fresh game gives Black the move; row 1 holds White pawns.
    assert!(!game.is_valid_move((1, 0), (2, 0)));
}

#[test]
fn valid_move_rejects_destination_outside_move_set() {
    let game = Game::new();
    assert!(!game.is_valid_move((6, 0), (3, 0)));
    assert!(!game.is_valid_move((7, 0), (5, 0)));
}

#[test]
fn valid_move_rejects_off_board_squares() {
    let game = Game::new();
    assert!(!game.is_valid_move((8, 0), (5, 0)));
    assert!(!game.is_valid_move((6, 0), (6, 8)));
}

#[test]
fn valid_move_accepts_pseudo_legal_move() {
    let game = Game::new();
    assert!(game.is_valid_move((6, 0), (5, 0)));
    assert!(game.is_valid_move((6, 0), (4, 0)));
    assert!(game.is_valid_move((7, 1), (5, 2)));
}

#[test]
fn valid_move_ignores_self_check() {
    // Black king and a White rook share column 4 with a Black rook
    // between them: moving the Black rook away exposes the king, yet the
    // move is still accepted.
    let mut board = bare_board();
    place(&mut board, 7, 4, PieceType::King, Color::Black);
    place(&mut board, 5, 4, PieceType::Rook, Color::Black);
    place(&mut board, 0, 4, PieceType::Rook, Color::White);
    let game = game_of(board, Color::Black);
    assert!(game.is_valid_move((5, 4), (5, 0)));
}

#[test]
fn check_detected_along_open_row() {
    let mut board = bare_board();
    place(&mut board, 0, 0, PieceType::King, Color::Black);
    place(&mut board, 0, 7, PieceType::Rook, Color::White);
    let game = game_of(board, Color::Black);
    assert!(game.is_in_check());
}

#[test]
fn check_not_detected_when_ray_is_blocked() {
    let mut board = bare_board();
    place(&mut board, 0, 0, PieceType::King, Color::Black);
    place(&mut board, 0, 7, PieceType::Rook, Color::White);
    place(&mut board, 0, 3, PieceType::Pawn, Color::White);
    let game = game_of(board, Color::Black);
    assert!(!game.is_in_check());
}

#[test]
fn check_ignores_own_pieces_as_attackers() {
    let mut board = bare_board();
    place(&mut board, 0, 0, PieceType::King, Color::Black);
    place(&mut board, 0, 7, PieceType::Rook, Color::Black);
    let game = game_of(board, Color::Black);
    assert!(!game.is_in_check());
}

#[test]
fn absent_king_reports_not_in_check() {
    let mut board = bare_board();
    place(&mut board, 0, 7, PieceType::Rook, Color::White);
    let game = game_of(board, Color::Black);
    assert!(!game.is_in_check());
    assert!(!game.is_in_checkmate());
}

#[test]
fn knight_gives_check_over_blockers() {
    let mut board = bare_board();
    place(&mut board, 4, 4, PieceType::King, Color::White);
    place(&mut board, 3, 4, PieceType::Pawn, Color::White);
    place(&mut board, 2, 3, PieceType::Knight, Color::Black);
    let game = game_of(board, Color::White);
    assert!(game.is_in_check());
}

#[test]
fn cornered_king_is_checkmated() {
    // Back-rank style mate: the rook checks along row 0 and the queen
    // covers every flight square of the cornered king.
    let mut board = bare_board();
    place(&mut board, 0, 0, PieceType::King, Color::Black);
    place(&mut board, 0, 7, PieceType::Rook, Color::White);
    place(&mut board, 2, 1, PieceType::Queen, Color::White);
    let game = game_of(board, Color::Black);
    assert!(game.is_in_check());
    assert!(game.is_in_checkmate());
}

#[test]
fn capture_of_checker_defeats_mate() {
    // Same mating net, but a Black rook can capture the checking rook.
    let mut board = bare_board();
    place(&mut board, 0, 0, PieceType::King, Color::Black);
    place(&mut board, 0, 7, PieceType::Rook, Color::White);
    place(&mut board, 2, 1, PieceType::Queen, Color::White);
    place(&mut board, 5, 7, PieceType::Rook, Color::Black);
    let game = game_of(board, Color::Black);
    assert!(game.is_in_check());
    assert!(!game.is_in_checkmate());
}

#[test]
fn blocking_move_defeats_mate() {
    // A Black rook can interpose on row 0 between king and checker.
    let mut board = bare_board();
    place(&mut board, 0, 0, PieceType::King, Color::Black);
    place(&mut board, 0, 7, PieceType::Rook, Color::White);
    place(&mut board, 2, 1, PieceType::Queen, Color::White);
    place(&mut board, 5, 3, PieceType::Rook, Color::Black);
    let game = game_of(board, Color::Black);
    assert!(game.is_in_check());
    assert!(!game.is_in_checkmate());
}

#[test]
fn king_with_flight_square_is_not_checkmated() {
    let mut board = bare_board();
    place(&mut board, 0, 0, PieceType::King, Color::Black);
    place(&mut board, 0, 7, PieceType::Rook, Color::White);
    let game = game_of(board, Color::Black);
    assert!(game.is_in_check());
    assert!(!game.is_in_checkmate());
}

#[test]
fn square_under_attack_follows_enemy_move_sets() {
    let mut board = bare_board();
    place(&mut board, 0, 0, PieceType::Rook, Color::White);
    let game = game_of(board, Color::Black);
    assert!(game.is_square_under_attack((0, 5), Color::Black));
    assert!(game.is_square_under_attack((4, 0), Color::Black));
    assert!(!game.is_square_under_attack((1, 1), Color::Black));
    // The rook is White, so it does not attack White.
    assert!(!game.is_square_under_attack((0, 5), Color::White));
}

#[test]
fn path_under_attack_reports_any_attacked_square() {
    let mut board = bare_board();
    place(&mut board, 0, 0, PieceType::Rook, Color::White);
    let game = game_of(board, Color::Black);
    let safe = vec![(1, 1), (2, 2)];
    assert!(!game.is_path_under_attack(&safe, Color::Black));
    let exposed = vec![(1, 1), (0, 6)];
    assert!(game.is_path_under_attack(&exposed, Color::Black));
}
