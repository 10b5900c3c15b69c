use chess_core::board::{Board, Color, Coord, Piece, Square};
use chess_core::position::{CastleError, CastleSide, Position, State};

fn c(row: u8, col: u8) -> Coord {
    Coord { row, col }
}

fn put(b: &mut Board, row: u8, col: u8, piece: Piece, color: Color) {
    assert!(b.set_square(c(row, col), Square::Piece(piece, color)));
}

#[test]
fn initial_position_castle_blocked_by_own_pieces() {
    // In the standard starting position the king-side castle fails with
    // PathBlocked: knight and bishop still occupy the path.
    let mut pos = Position::standard();
    assert_eq!(pos.can_castle(CastleSide::King), Some(CastleError::PathBlocked));
    assert_eq!(pos.try_castle(CastleSide::King), Err(CastleError::PathBlocked));
    assert_eq!(pos.try_castle(CastleSide::Queen), Err(CastleError::PathBlocked));
    assert_eq!(pos.to_play(), Color::White);
}

#[test]
fn rook_check_blocks_castling_and_is_the_only_checker() {
    // A king on its home square attacked by an enemy rook along the rank
    // with no blockers: the checkers are exactly that rook's coordinate, and
    // castling fails with KingInCheck.
    let mut b = Board::empty();
    put(&mut b, 0, 4, Piece::King, Color::White);
    put(&mut b, 0, 7, Piece::Rook, Color::White);
    put(&mut b, 0, 0, Piece::Rook, Color::Black);
    put(&mut b, 7, 6, Piece::King, Color::Black);
    let mut pos = Position::build(b, Color::White).unwrap();
    assert!(pos.is_in_check());
    assert_eq!(pos.get_attackers(pos.king_coord(Color::White), Color::White), vec![c(0, 0)]);
    assert_eq!(pos.can_castle(CastleSide::King), Some(CastleError::KingInCheck));
    assert_eq!(pos.try_castle(CastleSide::King), Err(CastleError::KingInCheck));
}

#[test]
fn castle_without_rights_rejected() {
    // No rook on its corner at validation time: no right was granted.
    let mut b = Board::empty();
    put(&mut b, 0, 4, Piece::King, Color::White);
    put(&mut b, 7, 7, Piece::King, Color::Black);
    let mut pos = Position::build(b, Color::White).unwrap();
    assert_eq!(pos.try_castle(CastleSide::King), Err(CastleError::LacksRights));
    assert_eq!(pos.try_castle(CastleSide::Queen), Err(CastleError::LacksRights));
}

#[test]
fn attacked_transit_square_gates_castling() {
    // The geometry is legal (rights held, path empty, king not in check),
    // but an enemy rook watches the square the king would cross.
    let mut b = Board::empty();
    put(&mut b, 0, 4, Piece::King, Color::White);
    put(&mut b, 0, 7, Piece::Rook, Color::White);
    put(&mut b, 7, 5, Piece::Rook, Color::Black);
    put(&mut b, 7, 0, Piece::King, Color::Black);
    let mut pos = Position::build(b, Color::White).unwrap();
    assert!(!pos.is_in_check());
    assert!(pos.is_square_attacked(c(0, 5), Color::White));
    assert_eq!(pos.can_castle(CastleSide::King), Some(CastleError::PathAttacked));
    assert_eq!(pos.try_castle(CastleSide::King), Err(CastleError::PathAttacked));
}

#[test]
fn king_side_castle_relocates_both_pieces() {
    let mut b = Board::empty();
    put(&mut b, 0, 4, Piece::King, Color::White);
    put(&mut b, 0, 7, Piece::Rook, Color::White);
    put(&mut b, 7, 0, Piece::King, Color::Black);
    let mut pos = Position::build(b, Color::White).unwrap();
    let rights = pos.castle_rights(Color::White);
    assert!(rights.king);
    assert!(!rights.queen);
    let st = pos.try_castle(CastleSide::King).unwrap();
    assert_eq!(st, State::Playing);
    assert_eq!(pos.board().square(c(0, 6)), Some(Square::Piece(Piece::King, Color::White)));
    assert_eq!(pos.board().square(c(0, 5)), Some(Square::Piece(Piece::Rook, Color::White)));
    assert_eq!(pos.board().square(c(0, 4)), Some(Square::Empty));
    assert_eq!(pos.board().square(c(0, 7)), Some(Square::Empty));
    assert_eq!(pos.king_coord(Color::White), c(0, 6));
    let after = pos.castle_rights(Color::White);
    assert!(!after.king && !after.queen);
    // Turn alternation holds for castling too.
    assert_eq!(pos.to_play(), Color::Black);
}

#[test]
fn queen_side_castle_relocates_both_pieces() {
    let mut b = Board::empty();
    put(&mut b, 7, 4, Piece::King, Color::Black);
    put(&mut b, 7, 0, Piece::Rook, Color::Black);
    put(&mut b, 0, 7, Piece::King, Color::White);
    let mut pos = Position::build(b, Color::Black).unwrap();
    assert!(pos.castle_rights(Color::Black).queen);
    pos.try_castle(CastleSide::Queen).unwrap();
    assert_eq!(pos.board().square(c(7, 2)), Some(Square::Piece(Piece::King, Color::Black)));
    assert_eq!(pos.board().square(c(7, 3)), Some(Square::Piece(Piece::Rook, Color::Black)));
    assert_eq!(pos.board().square(c(7, 4)), Some(Square::Empty));
    assert_eq!(pos.board().square(c(7, 0)), Some(Square::Empty));
    assert_eq!(pos.king_coord(Color::Black), c(7, 2));
    assert_eq!(pos.to_play(), Color::White);
}

#[test]
fn castle_can_give_check_to_the_opponent() {
    // The castled rook lands on the open file in front of the enemy king:
    // the checkers of the new side to move are recomputed at once.
    let mut b = Board::empty();
    put(&mut b, 0, 4, Piece::King, Color::White);
    put(&mut b, 0, 7, Piece::Rook, Color::White);
    put(&mut b, 7, 5, Piece::King, Color::Black);
    let mut pos = Position::build(b, Color::White).unwrap();
    let st = pos.try_castle(CastleSide::King).unwrap();
    assert_eq!(st, State::Playing);
    assert_eq!(pos.to_play(), Color::Black);
    assert!(pos.is_in_check());
    assert_eq!(pos.get_attackers(pos.king_coord(Color::Black), Color::Black), vec![c(0, 5)]);
}

#[test]
fn moving_the_rook_clears_one_wing_only() {
    let mut b = Board::empty();
    put(&mut b, 0, 4, Piece::King, Color::White);
    put(&mut b, 0, 0, Piece::Rook, Color::White);
    put(&mut b, 0, 7, Piece::Rook, Color::White);
    put(&mut b, 7, 5, Piece::King, Color::Black);
    let mut pos = Position::build(b, Color::White).unwrap();
    let rights = pos.castle_rights(Color::White);
    assert!(rights.king && rights.queen);
    pos.try_move(c(0, 7), c(3, 7), None).unwrap();
    let after = pos.castle_rights(Color::White);
    assert!(!after.king && after.queen);
}
