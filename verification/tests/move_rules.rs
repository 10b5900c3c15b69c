use chess_core::board::{Board, Color, Coord, Piece, Square};
use chess_core::position::{MoveErr, Position, State};

fn c(row: u8, col: u8) -> Coord {
    Coord { row, col }
}

fn put(b: &mut Board, row: u8, col: u8, piece: Piece, color: Color) {
    assert!(b.set_square(c(row, col), Square::Piece(piece, color)));
}

fn snapshot(p: &Position) -> Vec<Option<Square>> {
    let mut v = Vec::new();
    for row in 0..8 {
        for col in 0..8 {
            v.push(p.board().square(c(row, col)));
        }
    }
    v
}

#[test]
fn double_step_then_wrong_side_rejected() {
    // A white pawn on the second rank double-steps on an otherwise empty
    // board; trying to move the same pawn again without alternating turns is
    // rejected as NotOwned.
    let mut b = Board::empty();
    put(&mut b, 1, 4, Piece::Pawn, Color::White);
    put(&mut b, 0, 0, Piece::King, Color::White);
    put(&mut b, 7, 7, Piece::King, Color::Black);
    let mut pos = Position::build(b, Color::White).unwrap();
    let info = pos.try_move(c(1, 4), c(3, 4), None).unwrap();
    assert_eq!(info.captures, None);
    assert_eq!(pos.board().square(c(3, 4)), Some(Square::Piece(Piece::Pawn, Color::White)));
    assert_eq!(pos.board().square(c(1, 4)), Some(Square::Empty));
    assert_eq!(pos.to_play(), Color::Black);
    assert_eq!(pos.try_move(c(3, 4), c(4, 4), None), Err(MoveErr::NotOwned));
}

#[test]
fn failed_move_changes_no_square() {
    // Idempotence of failure: a rejected move leaves every square unchanged.
    let mut pos = Position::standard();
    let before = snapshot(&pos);
    assert_eq!(pos.try_move(c(0, 0), c(3, 0), None), Err(MoveErr::PathBlocked));
    assert_eq!(pos.try_move(c(0, 8), c(0, 0), None), Err(MoveErr::OutOfBounds));
    assert_eq!(pos.try_move(c(1, 0), c(2, 1), None), Err(MoveErr::InvalidShape));
    assert_eq!(snapshot(&pos), before);
    assert_eq!(pos.to_play(), Color::White);
}

#[test]
fn error_variants_in_cascade_order() {
    let mut pos = Position::standard();
    assert_eq!(pos.try_move(c(9, 0), c(2, 0), None), Err(MoveErr::OutOfBounds));
    assert_eq!(pos.try_move(c(1, 4), c(1, 4), None), Err(MoveErr::SameSquare));
    assert_eq!(pos.try_move(c(3, 3), c(4, 3), None), Err(MoveErr::OriginEmpty));
    assert_eq!(pos.try_move(c(6, 0), c(5, 0), None), Err(MoveErr::NotOwned));
    assert_eq!(pos.try_move(c(0, 0), c(1, 0), None), Err(MoveErr::OwnsTarget));
    assert_eq!(pos.try_move(c(0, 1), c(2, 1), None), Err(MoveErr::InvalidShape));
    assert_eq!(pos.try_move(c(0, 2), c(2, 4), None), Err(MoveErr::PathBlocked));
    assert_eq!(pos.try_move(c(1, 0), c(2, 0), Some(Piece::Queen)), Err(MoveErr::InvalidPromotion));
}

#[test]
fn exposing_own_king_rejected() {
    // Moving a bishop off the line between an enemy rook and the mover's own
    // king is rejected: the simulated move leaves the king in check.
    let mut b = Board::empty();
    put(&mut b, 0, 4, Piece::King, Color::White);
    put(&mut b, 0, 2, Piece::Bishop, Color::White);
    put(&mut b, 0, 0, Piece::Rook, Color::Black);
    put(&mut b, 7, 7, Piece::King, Color::Black);
    let mut pos = Position::build(b, Color::White).unwrap();
    assert!(!pos.is_in_check());
    assert_eq!(pos.try_move(c(0, 2), c(2, 4), None), Err(MoveErr::KingLeftInCheck));
    assert_eq!(pos.try_move(c(0, 2), c(1, 1), None), Err(MoveErr::KingLeftInCheck));
    // Stepping the king off the pinned line is fine.
    assert!(pos.try_move(c(0, 4), c(1, 4), None).is_ok());
}

#[test]
fn turn_alternates_after_each_successful_move() {
    let mut pos = Position::standard();
    assert_eq!(pos.to_play(), Color::White);
    pos.try_move(c(1, 4), c(3, 4), None).unwrap();
    assert_eq!(pos.to_play(), Color::Black);
    pos.try_move(c(6, 4), c(4, 4), None).unwrap();
    assert_eq!(pos.to_play(), Color::White);
    pos.try_move(c(0, 6), c(2, 5), None).unwrap();
    assert_eq!(pos.to_play(), Color::Black);
}

#[test]
fn capture_reports_prior_contents() {
    let mut b = Board::empty();
    put(&mut b, 0, 0, Piece::Rook, Color::White);
    put(&mut b, 3, 0, Piece::Pawn, Color::Black);
    put(&mut b, 0, 4, Piece::King, Color::White);
    put(&mut b, 7, 7, Piece::King, Color::Black);
    let mut pos = Position::build(b, Color::White).unwrap();
    let info = pos.try_move(c(0, 0), c(3, 0), None).unwrap();
    assert_eq!(info.captures, Some(Piece::Pawn));
    assert_eq!(info.from, (c(0, 0), Square::Piece(Piece::Rook, Color::White)));
    assert_eq!(info.to, (c(3, 0), Square::Piece(Piece::Pawn, Color::Black)));
    assert_eq!(info.promotion, None);
    assert_eq!(pos.board().square(c(3, 0)), Some(Square::Piece(Piece::Rook, Color::White)));
}

#[test]
fn promotion_requires_and_applies_a_piece() {
    let mut b = Board::empty();
    put(&mut b, 6, 0, Piece::Pawn, Color::White);
    put(&mut b, 0, 4, Piece::King, Color::White);
    put(&mut b, 7, 7, Piece::King, Color::Black);
    let mut pos = Position::build(b, Color::White).unwrap();
    assert_eq!(pos.try_move(c(6, 0), c(7, 0), None), Err(MoveErr::InvalidPromotion));
    assert_eq!(pos.try_move(c(6, 0), c(7, 0), Some(Piece::King)), Err(MoveErr::InvalidPromotion));
    assert_eq!(pos.try_move(c(6, 0), c(7, 0), Some(Piece::Pawn)), Err(MoveErr::InvalidPromotion));
    let info = pos.try_move(c(6, 0), c(7, 0), Some(Piece::Queen)).unwrap();
    assert_eq!(info.promotion, Some(Piece::Queen));
    assert_eq!(pos.board().square(c(7, 0)), Some(Square::Piece(Piece::Queen, Color::White)));
    assert_eq!(pos.state(), State::Playing);
}

#[test]
fn pawn_forward_moves_need_empty_squares() {
    let mut b = Board::empty();
    put(&mut b, 1, 4, Piece::Pawn, Color::White);
    put(&mut b, 2, 4, Piece::Knight, Color::Black);
    put(&mut b, 0, 0, Piece::King, Color::White);
    put(&mut b, 7, 7, Piece::King, Color::Black);
    let mut pos = Position::build(b, Color::White).unwrap();
    // The forward square is occupied: both the single and the double step
    // are blocked, and a pawn cannot capture straight ahead.
    assert_eq!(pos.try_move(c(1, 4), c(2, 4), None), Err(MoveErr::PathBlocked));
    assert_eq!(pos.try_move(c(1, 4), c(3, 4), None), Err(MoveErr::PathBlocked));
    // The diagonal capture square is empty: attack-only, not a move.
    assert_eq!(pos.try_move(c(1, 4), c(2, 3), None), Err(MoveErr::InvalidShape));
    // A triple step has no valid shape at all.
    assert_eq!(pos.try_move(c(1, 4), c(4, 4), None), Err(MoveErr::InvalidShape));
}

#[test]
fn can_move_does_not_mutate() {
    let pos = Position::standard();
    let before = snapshot(&pos);
    assert!(pos.can_move(c(1, 4), c(3, 4), None).is_ok());
    assert_eq!(snapshot(&pos), before);
    assert_eq!(pos.to_play(), Color::White);
}
