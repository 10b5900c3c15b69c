use chess_core::attack::{
    can_bishop_attack, can_king_attack, can_knight_attack, can_pawn_attack, can_piece_attack,
    can_queen_attack, can_rook_attack,
};
use chess_core::board::{Board, Color, Coord, Piece, Square};

fn c(row: u8, col: u8) -> Coord {
    Coord { row, col }
}

#[test]
fn rook_rays_on_empty_board_cover_row_and_column_exactly() {
    // Ray symmetry: a rook on an otherwise empty board threatens exactly the
    // squares sharing its row or column.
    let mut b = Board::empty();
    let from = c(3, 3);
    b.set_square(from, Square::Piece(Piece::Rook, Color::White));
    let mut reached: u32 = 0;
    for row in 0..8 {
        for col in 0..8 {
            let to = c(row, col);
            let expected = to != from && (row == 3 || col == 3);
            assert_eq!(can_rook_attack(&b, from, to), expected);
            if expected {
                reached = reached + 1;
            }
        }
    }
    assert_eq!(reached, 14);
}

#[test]
fn blocker_removes_target_beyond_but_stays_capturable() {
    // Path blocking: a piece between a rook and a far target removes the far
    // target and everything beyond it, but the blocking square itself stays
    // reachable.
    let mut b = Board::empty();
    let from = c(3, 0);
    b.set_square(from, Square::Piece(Piece::Rook, Color::White));
    assert!(can_rook_attack(&b, from, c(3, 4)));
    assert!(can_rook_attack(&b, from, c(3, 7)));
    b.set_square(c(3, 4), Square::Piece(Piece::Pawn, Color::Black));
    assert!(can_rook_attack(&b, from, c(3, 4)));
    assert!(!can_rook_attack(&b, from, c(3, 5)));
    assert!(!can_rook_attack(&b, from, c(3, 7)));
    assert!(can_rook_attack(&b, from, c(3, 3)));
}

#[test]
fn bishop_diagonals_and_blocking() {
    let mut b = Board::empty();
    let from = c(0, 0);
    b.set_square(from, Square::Piece(Piece::Bishop, Color::White));
    assert!(can_bishop_attack(&b, from, c(7, 7)));
    assert!(!can_bishop_attack(&b, from, c(0, 5)));
    assert!(!can_bishop_attack(&b, from, c(3, 4)));
    b.set_square(c(2, 2), Square::Piece(Piece::Knight, Color::White));
    assert!(can_bishop_attack(&b, from, c(2, 2)));
    assert!(!can_bishop_attack(&b, from, c(3, 3)));
    assert!(!can_bishop_attack(&b, from, c(7, 7)));
}

#[test]
fn knight_jumps_ignore_blockers() {
    let b = Board::standard();
    // The knight on its home square jumps over the pawn wall.
    assert!(can_knight_attack(c(0, 1), c(2, 2)));
    assert!(can_knight_attack(c(0, 1), c(2, 0)));
    assert!(can_piece_attack(&b, c(0, 1), Piece::Knight, Color::White, c(2, 2)));
    assert!(!can_knight_attack(c(0, 1), c(1, 1)));
    assert!(!can_knight_attack(c(3, 3), c(3, 3)));
    let mut count: u32 = 0;
    for row in 0..8 {
        for col in 0..8 {
            if can_knight_attack(c(3, 3), c(row, col)) {
                count = count + 1;
            }
        }
    }
    assert_eq!(count, 8);
}

#[test]
fn king_attacks_unit_ring() {
    let mut count: u32 = 0;
    for row in 0..8 {
        for col in 0..8 {
            if can_king_attack(c(3, 3), c(row, col)) {
                count = count + 1;
            }
        }
    }
    assert_eq!(count, 8);
    assert!(!can_king_attack(c(3, 3), c(3, 3)));
    assert!(!can_king_attack(c(3, 3), c(5, 3)));
}

#[test]
fn pawn_attacks_forward_diagonals_only() {
    // White advances toward increasing rows, Black toward decreasing rows;
    // a pawn never attacks its forward move square.
    assert!(can_pawn_attack(c(1, 4), c(2, 3), Color::White));
    assert!(can_pawn_attack(c(1, 4), c(2, 5), Color::White));
    assert!(!can_pawn_attack(c(1, 4), c(2, 4), Color::White));
    assert!(!can_pawn_attack(c(1, 4), c(0, 3), Color::White));
    assert!(can_pawn_attack(c(6, 4), c(5, 3), Color::Black));
    assert!(can_pawn_attack(c(6, 4), c(5, 5), Color::Black));
    assert!(!can_pawn_attack(c(6, 4), c(5, 4), Color::Black));
    assert!(!can_pawn_attack(c(6, 4), c(7, 5), Color::Black));
    // A pawn on the edge attacks only inward.
    assert!(can_pawn_attack(c(1, 0), c(2, 1), Color::White));
    assert!(!can_pawn_attack(c(1, 0), c(2, 255), Color::White));
}

#[test]
fn queen_combines_rook_and_bishop() {
    let mut b = Board::empty();
    let from = c(4, 4);
    b.set_square(from, Square::Piece(Piece::Queen, Color::Black));
    assert!(can_queen_attack(&b, from, c(4, 0)));
    assert!(can_queen_attack(&b, from, c(0, 0)));
    assert!(can_queen_attack(&b, from, c(7, 4)));
    assert!(!can_queen_attack(&b, from, c(6, 5)));
    b.set_square(c(4, 2), Square::Piece(Piece::Pawn, Color::White));
    assert!(can_queen_attack(&b, from, c(4, 2)));
    assert!(!can_queen_attack(&b, from, c(4, 0)));
}

#[test]
fn out_of_range_coordinates_threaten_nothing() {
    let b = Board::empty();
    assert!(!can_rook_attack(&b, c(3, 8), c(3, 0)));
    assert!(!can_rook_attack(&b, c(3, 0), c(3, 8)));
    assert!(!can_knight_attack(c(9, 9), c(7, 7)));
    assert!(!can_king_attack(c(0, 0), c(0, 8)));
}
