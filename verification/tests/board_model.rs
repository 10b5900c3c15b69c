use chess_core::board::{Board, Color, Coord, Piece, Square};

fn c(row: u8, col: u8) -> Coord {
    Coord { row, col }
}

#[test]
fn empty_board_is_empty_everywhere() {
    let b = Board::empty();
    for row in 0..8 {
        for col in 0..8 {
            assert_eq!(b.square(c(row, col)), Some(Square::Empty));
        }
    }
}

#[test]
fn out_of_range_lookup_fails_closed() {
    let b = Board::standard();
    assert_eq!(b.square(c(8, 0)), None);
    assert_eq!(b.square(c(0, 8)), None);
    assert_eq!(b.square(c(255, 255)), None);
}

#[test]
fn standard_board_layout() {
    let b = Board::standard();
    assert_eq!(b.square(c(0, 0)), Some(Square::Piece(Piece::Rook, Color::White)));
    assert_eq!(b.square(c(0, 1)), Some(Square::Piece(Piece::Knight, Color::White)));
    assert_eq!(b.square(c(0, 2)), Some(Square::Piece(Piece::Bishop, Color::White)));
    assert_eq!(b.square(c(0, 3)), Some(Square::Piece(Piece::Queen, Color::White)));
    assert_eq!(b.square(c(0, 4)), Some(Square::Piece(Piece::King, Color::White)));
    assert_eq!(b.square(c(0, 7)), Some(Square::Piece(Piece::Rook, Color::White)));
    for col in 0..8 {
        assert_eq!(b.square(c(1, col)), Some(Square::Piece(Piece::Pawn, Color::White)));
        assert_eq!(b.square(c(6, col)), Some(Square::Piece(Piece::Pawn, Color::Black)));
    }
    for row in 2..6 {
        for col in 0..8 {
            assert_eq!(b.square(c(row, col)), Some(Square::Empty));
        }
    }
    assert_eq!(b.square(c(7, 4)), Some(Square::Piece(Piece::King, Color::Black)));
    assert_eq!(b.square(c(7, 3)), Some(Square::Piece(Piece::Queen, Color::Black)));
}

#[test]
fn move_piece_moves_and_returns_prior_destination() {
    let mut b = Board::empty();
    assert!(b.set_square(c(2, 2), Square::Piece(Piece::Rook, Color::White)));
    assert!(b.set_square(c(2, 5), Square::Piece(Piece::Pawn, Color::Black)));
    let prior = b.move_piece(c(2, 2), c(2, 5));
    assert_eq!(prior, Some(Square::Piece(Piece::Pawn, Color::Black)));
    assert_eq!(b.square(c(2, 2)), Some(Square::Empty));
    assert_eq!(b.square(c(2, 5)), Some(Square::Piece(Piece::Rook, Color::White)));
}

#[test]
fn move_piece_out_of_range_fails_closed() {
    let mut b = Board::standard();
    assert_eq!(b.move_piece(c(9, 0), c(0, 0)), None);
    assert_eq!(b.square(c(0, 0)), Some(Square::Piece(Piece::Rook, Color::White)));
    // An out-of-range destination still empties the origin: the primitive's
    // two writes happen in order.
    assert_eq!(b.move_piece(c(0, 0), c(0, 9)), None);
    assert_eq!(b.square(c(0, 0)), Some(Square::Empty));
}

#[test]
fn set_square_out_of_range_rejected() {
    let mut b = Board::empty();
    assert!(!b.set_square(c(8, 8), Square::Piece(Piece::Queen, Color::White)));
}

#[test]
fn square_helpers() {
    let wq = Square::Piece(Piece::Queen, Color::White);
    assert!(!wq.is_empty());
    assert!(Square::Empty.is_empty());
    assert_eq!(wq.player(), Some(Color::White));
    assert_eq!(wq.piece_kind(), Some(Piece::Queen));
    assert_eq!(Square::Empty.player(), None);
    assert_eq!(Square::Empty.piece_kind(), None);
}

#[test]
fn coordinates_order_lexicographically() {
    assert!(c(0, 7) < c(1, 0));
    assert!(c(3, 2) < c(3, 5));
    assert!(c(3, 2) == c(3, 2));
    assert!(c(4, 0) > c(3, 7));
}

#[test]
fn enemy_swaps_colors() {
    assert_eq!(Color::White.enemy(), Color::Black);
    assert_eq!(Color::Black.enemy(), Color::White);
}
