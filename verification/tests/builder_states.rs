use chess_core::board::{Board, Color, Coord, Piece, Square};
use chess_core::position::{Position, PositionError, State};

fn c(row: u8, col: u8) -> Coord {
    Coord { row, col }
}

fn put(b: &mut Board, row: u8, col: u8, piece: Piece, color: Color) {
    assert!(b.set_square(c(row, col), Square::Piece(piece, color)));
}

#[test]
fn two_kings_of_one_color_rejected() {
    let mut b = Board::empty();
    put(&mut b, 0, 0, Piece::King, Color::White);
    put(&mut b, 3, 3, Piece::King, Color::White);
    put(&mut b, 7, 7, Piece::King, Color::Black);
    assert_eq!(Position::build(b, Color::White), Err(PositionError::InvalidKingCount));
}

#[test]
fn missing_king_rejected() {
    let mut b = Board::empty();
    put(&mut b, 0, 0, Piece::King, Color::White);
    assert_eq!(Position::build(b, Color::White), Err(PositionError::InvalidKingCount));
}

#[test]
fn adjacent_kings_rejected() {
    let mut b = Board::empty();
    put(&mut b, 3, 3, Piece::King, Color::White);
    put(&mut b, 3, 4, Piece::King, Color::Black);
    assert_eq!(Position::build(b, Color::White), Err(PositionError::KingsTooClose));
    let mut b2 = Board::empty();
    put(&mut b2, 3, 3, Piece::King, Color::White);
    put(&mut b2, 4, 4, Piece::King, Color::Black);
    assert_eq!(Position::build(b2, Color::Black), Err(PositionError::KingsTooClose));
}

#[test]
fn pawns_on_back_ranks_rejected() {
    let mut b = Board::empty();
    put(&mut b, 0, 0, Piece::King, Color::White);
    put(&mut b, 7, 7, Piece::King, Color::Black);
    put(&mut b, 0, 3, Piece::Pawn, Color::Black);
    assert_eq!(Position::build(b, Color::White), Err(PositionError::PawnsOnBackRank));
    let mut b2 = Board::empty();
    put(&mut b2, 0, 0, Piece::King, Color::White);
    put(&mut b2, 7, 7, Piece::King, Color::Black);
    put(&mut b2, 7, 3, Piece::Pawn, Color::White);
    assert_eq!(Position::build(b2, Color::White), Err(PositionError::PawnsOnBackRank));
}

#[test]
fn both_sides_in_check_rejected() {
    let mut b = Board::empty();
    put(&mut b, 0, 0, Piece::King, Color::White);
    put(&mut b, 0, 7, Piece::Rook, Color::Black);
    put(&mut b, 7, 7, Piece::King, Color::Black);
    put(&mut b, 7, 0, Piece::Rook, Color::White);
    assert_eq!(Position::build(b, Color::White), Err(PositionError::BothInCheck));
}

#[test]
fn opponent_in_check_rejected() {
    // Only the side NOT to move is in check: the mover could capture the
    // king, so the position is rejected before it can go live.
    let mut b = Board::empty();
    put(&mut b, 0, 0, Piece::King, Color::White);
    put(&mut b, 7, 7, Piece::King, Color::Black);
    put(&mut b, 7, 0, Piece::Rook, Color::White);
    assert_eq!(Position::build(b, Color::White), Err(PositionError::OpponentInCheck));
    // With Black to move the same board is a legal check position.
    let mut b2 = Board::empty();
    put(&mut b2, 0, 0, Piece::King, Color::White);
    put(&mut b2, 7, 7, Piece::King, Color::Black);
    put(&mut b2, 7, 0, Piece::Rook, Color::White);
    let pos = Position::build(b2, Color::Black).unwrap();
    assert!(pos.is_in_check());
}

#[test]
fn multiple_checkers_listed_in_row_major_order() {
    let mut b = Board::empty();
    put(&mut b, 4, 4, Piece::King, Color::White);
    put(&mut b, 0, 4, Piece::Rook, Color::Black);
    put(&mut b, 4, 0, Piece::Rook, Color::Black);
    put(&mut b, 7, 7, Piece::King, Color::Black);
    let pos = Position::build(b, Color::White).unwrap();
    assert!(pos.is_in_check());
    assert_eq!(pos.get_attackers(c(4, 4), Color::White), vec![c(0, 4), c(4, 0)]);
}

#[test]
fn standard_position_starts_playing() {
    let pos = Position::standard();
    assert_eq!(pos.state(), State::Playing);
    assert_eq!(pos.to_play(), Color::White);
    assert!(!pos.is_in_check());
    assert_eq!(pos.king_coord(Color::White), c(0, 4));
    assert_eq!(pos.king_coord(Color::Black), c(7, 4));
    let rights = pos.castle_rights(Color::White);
    assert!(rights.king && rights.queen);
    let rights_b = pos.castle_rights(Color::Black);
    assert!(rights_b.king && rights_b.queen);
}

#[test]
fn default_is_standard() {
    let pos = Position::default();
    assert_eq!(pos.state(), State::Playing);
    assert_eq!(pos.board().square(c(0, 4)), Some(Square::Piece(Piece::King, Color::White)));
}

#[test]
fn checkmate_is_detected() {
    // Black king cornered by a queen protected by the white king: every
    // reply leaves the black king attacked.
    let mut b = Board::empty();
    put(&mut b, 7, 7, Piece::King, Color::Black);
    put(&mut b, 6, 6, Piece::Queen, Color::White);
    put(&mut b, 5, 5, Piece::King, Color::White);
    let pos = Position::build(b, Color::Black).unwrap();
    assert!(pos.is_in_check());
    assert_eq!(pos.state(), State::Checkmate(Color::Black));
}

#[test]
fn stalemate_is_detected() {
    // Black king in the corner, not in check, with every escape square
    // watched by the white queen: no legal move at all.
    let mut b = Board::empty();
    put(&mut b, 7, 0, Piece::King, Color::Black);
    put(&mut b, 6, 2, Piece::Queen, Color::White);
    put(&mut b, 0, 7, Piece::King, Color::White);
    let pos = Position::build(b, Color::Black).unwrap();
    assert!(!pos.is_in_check());
    assert_eq!(pos.state(), State::Stalemate(Color::Black));
}

#[test]
fn checkmate_reached_by_a_move() {
    // A rook slides to the back rank and delivers mate to a cornered king.
    let mut b = Board::empty();
    put(&mut b, 7, 7, Piece::King, Color::Black);
    put(&mut b, 6, 6, Piece::Pawn, Color::Black);
    put(&mut b, 6, 7, Piece::Pawn, Color::Black);
    put(&mut b, 3, 0, Piece::Rook, Color::White);
    put(&mut b, 0, 0, Piece::King, Color::White);
    let mut pos = Position::build(b, Color::White).unwrap();
    assert_eq!(pos.state(), State::Playing);
    pos.try_move(c(3, 0), c(7, 0), None).unwrap();
    assert_eq!(pos.state(), State::Checkmate(Color::Black));
    // Terminal: the checkmated side has no legal reply.
    assert!(pos.try_move(c(7, 7), c(6, 7), None).is_err());
    assert!(pos.try_move(c(6, 6), c(5, 6), None).is_err());
}

#[test]
fn built_position_rejects_moves_for_the_wrong_side() {
    let mut b = Board::empty();
    put(&mut b, 0, 0, Piece::King, Color::White);
    put(&mut b, 7, 7, Piece::King, Color::Black);
    put(&mut b, 4, 4, Piece::Rook, Color::Black);
    let mut pos = Position::build(b, Color::Black).unwrap();
    assert!(pos.try_move(c(4, 4), c(4, 0), None).is_ok());
    assert_eq!(pos.to_play(), Color::White);
    // It is White's turn now: Black's rook may not move again at once.
    assert!(pos.try_move(c(4, 0), c(4, 4), None).is_err());
}
