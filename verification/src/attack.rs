//! The attack generator: for each piece kind, whether a piece standing on an
//! origin square threatens a target square. Sliding pieces (rook, bishop,
//! queen) walk rays that stop at and include the first occupied square; the
//! squares strictly between origin and target must be empty. Pawn attacks are
//! exactly the two forward diagonals, which is distinct from the pawn's
//! move-only forward squares handled by the move validator.

use vstd::prelude::*;
use crate::board::{at_c, empty_at, Board, Color, Coord, Piece, Square};

verus! {

/// Distance between two integers.
pub open spec fn dist(a: int, b: int) -> int {
    if a < b {
        b - a
    } else {
        a - b
    }
}

/// The row direction a pawn of the given color advances in: White toward
/// increasing rows, Black toward decreasing rows.
pub open spec fn pawn_dir(color: Color) -> int {
    if color is White {
        1
    } else {
        -1
    }
}

/// A pawn on `from` attacks `to`: one row forward, one column aside.
pub open spec fn pawn_attacks(from: Coord, color: Color, to: Coord) -> bool {
    &&& to.row == from.row + pawn_dir(color)
    &&& (to.col == from.col + 1 || to.col + 1 == from.col)
}

/// A knight on `from` attacks `to`: an L-shaped jump, unblockable.
pub open spec fn knight_attacks(from: Coord, to: Coord) -> bool {
    dist(from.row as int, to.row as int) * dist(from.col as int, to.col as int) == 2
}

/// A king on `from` attacks `to`: any of the eight unit offsets.
pub open spec fn king_attacks(from: Coord, to: Coord) -> bool {
    &&& from != to
    &&& dist(from.row as int, to.row as int) <= 1
    &&& dist(from.col as int, to.col as int) <= 1
}

/// Every square strictly between two columns of one row is empty.
pub open spec fn row_between_clear(b: Seq<Square>, row: int, c1: int, c2: int) -> bool {
    forall|c: int| (c1 < c < c2 || c2 < c < c1) ==> #[trigger] empty_at(b, row, c)
}

/// Every square strictly between two rows of one column is empty.
pub open spec fn col_between_clear(b: Seq<Square>, col: int, r1: int, r2: int) -> bool {
    forall|r: int| (r1 < r < r2 || r2 < r < r1) ==> #[trigger] empty_at(b, r, col)
}

/// The value i steps from `a` in the direction of `b`.
pub open spec fn toward(a: int, b: int, i: int) -> int {
    if a < b {
        a + i
    } else {
        a - i
    }
}

/// The i-th square along the diagonal from `from` toward `to`.
pub open spec fn diag_point(from: Coord, to: Coord, i: int) -> Coord {
    Coord {
        row: toward(from.row as int, to.row as int, i) as u8,
        col: toward(from.col as int, to.col as int, i) as u8,
    }
}

/// Every square strictly between the two ends of a diagonal is empty.
pub open spec fn diag_between_clear(b: Seq<Square>, from: Coord, to: Coord) -> bool {
    forall|i: int|
        1 <= i < dist(from.row as int, to.row as int) ==> at_c(
            b,
            #[trigger] diag_point(from, to, i),
        ) is Empty
}

/// The origin and target share a row or a column and the squares strictly
/// between them are empty. When both coordinates are equal the row branch
/// applies and holds vacuously.
pub open spec fn line_clear(b: Seq<Square>, from: Coord, to: Coord) -> bool {
    if from.row == to.row {
        row_between_clear(b, from.row as int, from.col as int, to.col as int)
    } else if from.col == to.col {
        col_between_clear(b, from.col as int, from.row as int, to.row as int)
    } else {
        false
    }
}

/// A rook on `from` attacks `to`: distinct squares on one row or column with
/// a clear path between them.
pub open spec fn rook_attacks(b: Seq<Square>, from: Coord, to: Coord) -> bool {
    &&& from != to
    &&& line_clear(b, from, to)
}

/// A bishop on `from` attacks `to`: distinct squares on one diagonal with a
/// clear path between them.
pub open spec fn bishop_attacks(b: Seq<Square>, from: Coord, to: Coord) -> bool {
    &&& from != to
    &&& dist(from.row as int, to.row as int) == dist(from.col as int, to.col as int)
    &&& diag_between_clear(b, from, to)
}

/// A queen combines the rook's and the bishop's reach.
pub open spec fn queen_attacks(b: Seq<Square>, from: Coord, to: Coord) -> bool {
    rook_attacks(b, from, to) || bishop_attacks(b, from, to)
}

/// A piece of the given kind and color on `from` threatens `to`. Coordinates
/// out of range threaten and are threatened by nothing.
pub open spec fn piece_attacks(
    b: Seq<Square>,
    from: Coord,
    piece: Piece,
    color: Color,
    to: Coord,
) -> bool {
    &&& from.in_range()
    &&& to.in_range()
    &&& match piece {
        Piece::Pawn => pawn_attacks(from, color, to),
        Piece::Knight => knight_attacks(from, to),
        Piece::Bishop => bishop_attacks(b, from, to),
        Piece::Rook => rook_attacks(b, from, to),
        Piece::Queen => queen_attacks(b, from, to),
        Piece::King => king_attacks(from, to),
    }
}

/// Distance between two square indices.
pub(crate) fn dist8(a: u8, b: u8) -> (r: u8)
    ensures
        r as int == dist(a as int, b as int),
{
    if a < b {
        b - a
    } else {
        a - b
    }
}

/// Whether a pawn of the given color on `from` attacks `to`.
pub fn can_pawn_attack(from: Coord, to: Coord, color: Color) -> (r: bool)
    ensures
        r == (from.in_range() && to.in_range() && pawn_attacks(from, color, to)),
{
    if !(from.row < 8 && from.col < 8 && to.row < 8 && to.col < 8) {
        return false;
    }
    let row_ok = match color {
        Color::White => to.row == from.row + 1,
        Color::Black => from.row == to.row + 1,
    };
    row_ok && (to.col == from.col + 1 || from.col == to.col + 1)
}

/// Whether a knight on `from` attacks `to`.
pub fn can_knight_attack(from: Coord, to: Coord) -> (r: bool)
    ensures
        r == (from.in_range() && to.in_range() && knight_attacks(from, to)),
{
    if !(from.row < 8 && from.col < 8 && to.row < 8 && to.col < 8) {
        return false;
    }
    let dr = dist8(from.row, to.row);
    let dc = dist8(from.col, to.col);
    proof {
        assert(((dr as int) * (dc as int) == 2) == ((dr == 1 && dc == 2) || (dr == 2 && dc == 1)))
            by (nonlinear_arith)
            requires
                dr as int >= 0,
                dc as int >= 0,
        ;
    }
    (dr == 1 && dc == 2) || (dr == 2 && dc == 1)
}

/// Whether a king on `from` attacks `to`.
pub fn can_king_attack(from: Coord, to: Coord) -> (r: bool)
    ensures
        r == (from.in_range() && to.in_range() && king_attacks(from, to)),
{
    if !(from.row < 8 && from.col < 8 && to.row < 8 && to.col < 8) {
        return false;
    }
    let dr = dist8(from.row, to.row);
    let dc = dist8(from.col, to.col);
    !(from.row == to.row && from.col == to.col) && dr <= 1 && dc <= 1
}

/// Whether the squares strictly between two aligned coordinates are all
/// empty, walking the shared row or column.
#[verifier::loop_isolation(false)]
pub fn is_clear_line(board: &Board, from: Coord, to: Coord) -> (r: bool)
    requires
        board.wf(),
        from.in_range(),
        to.in_range(),
    ensures
        r == line_clear(board@, from, to),
{
    if from.row == to.row {
        let row: u8 = from.row;
        let (start, end) = if from.col < to.col {
            (from.col, to.col)
        } else {
            (to.col, from.col)
        };
        let mut c: u8 = start + 1;
        while c < end
            invariant
                board.wf(),
                row < 8,
                start < 8,
                end < 8,
                start < c <= end || (start >= end && c == start + 1),
                forall|x: int| start < x < c ==> #[trigger] empty_at(board@, row as int, x),
            decreases end - c,
        {
            let i: usize = (row as usize) * 8 + (c as usize);
            if !matches!(board.square_at_index(i), Square::Empty) {
                assert(!empty_at(board@, row as int, c as int));
                return false;
            }
            c = c + 1;
        }
        true
    } else if from.col == to.col {
        let col: u8 = from.col;
        let (start, end) = if from.row < to.row {
            (from.row, to.row)
        } else {
            (to.row, from.row)
        };
        let mut rr: u8 = start + 1;
        while rr < end
            invariant
                board.wf(),
                col < 8,
                start < 8,
                end < 8,
                start < rr <= end || (start >= end && rr == start + 1),
                forall|x: int| start < x < rr ==> #[trigger] empty_at(board@, x, col as int),
            decreases end - rr,
        {
            let i: usize = (rr as usize) * 8 + (col as usize);
            if !matches!(board.square_at_index(i), Square::Empty) {
                assert(!empty_at(board@, rr as int, col as int));
                return false;
            }
            rr = rr + 1;
        }
        true
    } else {
        false
    }
}

/// Whether the squares strictly between the two ends of a diagonal are all
/// empty; false when the coordinates do not share a diagonal.
#[verifier::loop_isolation(false)]
pub fn is_clear_diagonal(board: &Board, from: Coord, to: Coord) -> (r: bool)
    requires
        board.wf(),
        from.in_range(),
        to.in_range(),
    ensures
        r == (dist(from.row as int, to.row as int) == dist(from.col as int, to.col as int)
            && diag_between_clear(board@, from, to)),
{
    let d = dist8(from.row, to.row);
    if d != dist8(from.col, to.col) {
        return false;
    }
    let mut i: u8 = 1;
    while i < d
        invariant
            board.wf(),
            from.in_range(),
            to.in_range(),
            d as int == dist(from.row as int, to.row as int),
            d as int == dist(from.col as int, to.col as int),
            1 <= i,
            i <= d || (d == 0 && i == 1),
            forall|j: int|
                1 <= j < i ==> at_c(board@, #[trigger] diag_point(from, to, j)) is Empty,
        decreases d - i,
    {
        let r: u8 = if to.row > from.row {
            from.row + i
        } else {
            from.row - i
        };
        let c: u8 = if to.col > from.col {
            from.col + i
        } else {
            from.col - i
        };
        assert(diag_point(from, to, i as int) == (Coord { row: r, col: c }));
        let idx: usize = (r as usize) * 8 + (c as usize);
        if !matches!(board.square_at_index(idx), Square::Empty) {
            return false;
        }
        i = i + 1;
    }
    true
}

/// Whether a rook on `from` attacks `to` on this board.
pub fn can_rook_attack(board: &Board, from: Coord, to: Coord) -> (r: bool)
    requires
        board.wf(),
    ensures
        r == (from.in_range() && to.in_range() && rook_attacks(board@, from, to)),
{
    if !(from.row < 8 && from.col < 8 && to.row < 8 && to.col < 8) {
        return false;
    }
    if from.row == to.row && from.col == to.col {
        return false;
    }
    is_clear_line(board, from, to)
}

/// Whether a bishop on `from` attacks `to` on this board.
pub fn can_bishop_attack(board: &Board, from: Coord, to: Coord) -> (r: bool)
    requires
        board.wf(),
    ensures
        r == (from.in_range() && to.in_range() && bishop_attacks(board@, from, to)),
{
    if !(from.row < 8 && from.col < 8 && to.row < 8 && to.col < 8) {
        return false;
    }
    if from.row == to.row && from.col == to.col {
        return false;
    }
    is_clear_diagonal(board, from, to)
}

/// Whether a queen on `from` attacks `to` on this board.
pub fn can_queen_attack(board: &Board, from: Coord, to: Coord) -> (r: bool)
    requires
        board.wf(),
    ensures
        r == (from.in_range() && to.in_range() && queen_attacks(board@, from, to)),
{
    can_rook_attack(board, from, to) || can_bishop_attack(board, from, to)
}

/// Whether a piece of the given kind and color on `from` attacks `to`.
pub fn can_piece_attack(board: &Board, from: Coord, piece: Piece, color: Color, to: Coord) -> (r:
    bool)
    requires
        board.wf(),
    ensures
        r == piece_attacks(board@, from, piece, color, to),
{
    match piece {
        Piece::Pawn => can_pawn_attack(from, to, color),
        Piece::Knight => can_knight_attack(from, to),
        Piece::Bishop => can_bishop_attack(board, from, to),
        Piece::Rook => can_rook_attack(board, from, to),
        Piece::Queen => can_queen_attack(board, from, to),
        Piece::King => can_king_attack(from, to),
    }
}

/// `mid` lies strictly between `from` and `to` on a shared row, column or
/// diagonal: exactly the squares whose contents can block a sliding piece on
/// `from` from reaching `to`.
pub open spec fn strictly_between(from: Coord, mid: Coord, to: Coord) -> bool {
    ||| (from.row == mid.row && mid.row == to.row && (from.col < mid.col < to.col || to.col
        < mid.col < from.col))
    ||| (from.col == mid.col && mid.col == to.col && (from.row < mid.row < to.row || to.row
        < mid.row < from.row))
    ||| (dist(from.row as int, to.row as int) == dist(from.col as int, to.col as int) && (
    exists|i: int|
        1 <= i < dist(from.row as int, to.row as int) && mid == #[trigger] diag_point(
            from,
            to,
            i,
        )))
}

proof fn lemma_row_clear_transfer(b1: Seq<Square>, b2: Seq<Square>, row: int, c1: int, c2: int)
    requires
        forall|x: int|
            #![trigger empty_at(b1, row, x)]
            #![trigger empty_at(b2, row, x)]
            (c1 < x < c2 || c2 < x < c1) ==> (empty_at(b1, row, x) <==> empty_at(b2, row, x)),
    ensures
        row_between_clear(b1, row, c1, c2) == row_between_clear(b2, row, c1, c2),
{
    if row_between_clear(b1, row, c1, c2) {
        assert forall|x: int| (c1 < x < c2 || c2 < x < c1) implies #[trigger] empty_at(
            b2,
            row,
            x,
        ) by {
            assert(empty_at(b1, row, x));
        }
    }
    if row_between_clear(b2, row, c1, c2) {
        assert forall|x: int| (c1 < x < c2 || c2 < x < c1) implies #[trigger] empty_at(
            b1,
            row,
            x,
        ) by {
            assert(empty_at(b2, row, x));
        }
    }
}

proof fn lemma_col_clear_transfer(b1: Seq<Square>, b2: Seq<Square>, col: int, r1: int, r2: int)
    requires
        forall|x: int|
            #![trigger empty_at(b1, x, col)]
            #![trigger empty_at(b2, x, col)]
            (r1 < x < r2 || r2 < x < r1) ==> (empty_at(b1, x, col) <==> empty_at(b2, x, col)),
    ensures
        col_between_clear(b1, col, r1, r2) == col_between_clear(b2, col, r1, r2),
{
    if col_between_clear(b1, col, r1, r2) {
        assert forall|x: int| (r1 < x < r2 || r2 < x < r1) implies #[trigger] empty_at(
            b2,
            x,
            col,
        ) by {
            assert(empty_at(b1, x, col));
        }
    }
    if col_between_clear(b2, col, r1, r2) {
        assert forall|x: int| (r1 < x < r2 || r2 < x < r1) implies #[trigger] empty_at(
            b1,
            x,
            col,
        ) by {
            assert(empty_at(b2, x, col));
        }
    }
}

/// Whether a piece reaches a target depends only on the contents of the
/// squares strictly between them: in particular the target square's own
/// occupant never blocks its being threatened, so a blocking piece itself
/// remains a reachable capture target.
pub proof fn lemma_attack_depends_on_between(
    b1: Seq<Square>,
    b2: Seq<Square>,
    from: Coord,
    to: Coord,
    piece: Piece,
    color: Color,
)
    requires
        forall|mid: Coord| #[trigger]
            strictly_between(from, mid, to) ==> (at_c(b1, mid) is Empty <==> at_c(
                b2,
                mid,
            ) is Empty),
    ensures
        piece_attacks(b1, from, piece, color, to) == piece_attacks(b2, from, piece, color, to),
{
    if from.row == to.row {
        assert forall|x: int| (from.col < x < to.col || to.col < x < from.col) implies (
        #[trigger] empty_at(b1, from.row as int, x) <==> #[trigger] empty_at(
            b2,
            from.row as int,
            x,
        )) by {
            let mid = Coord { row: from.row, col: x as u8 };
            assert(strictly_between(from, mid, to));
            assert(empty_at(b1, from.row as int, x) == (at_c(b1, mid) is Empty));
            assert(empty_at(b2, from.row as int, x) == (at_c(b2, mid) is Empty));
        }
        lemma_row_clear_transfer(b1, b2, from.row as int, from.col as int, to.col as int);
    } else if from.col == to.col {
        assert forall|x: int| (from.row < x < to.row || to.row < x < from.row) implies (
        #[trigger] empty_at(b1, x, from.col as int) <==> #[trigger] empty_at(
            b2,
            x,
            from.col as int,
        )) by {
            let mid = Coord { row: x as u8, col: from.col };
            assert(strictly_between(from, mid, to));
            assert(empty_at(b1, x, from.col as int) == (at_c(b1, mid) is Empty));
            assert(empty_at(b2, x, from.col as int) == (at_c(b2, mid) is Empty));
        }
        lemma_col_clear_transfer(b1, b2, from.col as int, from.row as int, to.row as int);
    }
    let d = dist(from.row as int, to.row as int);
    if d == dist(from.col as int, to.col as int) && from != to {
        assert forall|i: int| 1 <= i < d implies (at_c(b1, #[trigger] diag_point(from, to, i))
            is Empty <==> at_c(b2, diag_point(from, to, i)) is Empty) by {
            assert(strictly_between(from, diag_point(from, to, i), to));
        }
        if diag_between_clear(b1, from, to) {
            assert forall|i: int| 1 <= i < d implies at_c(b2, #[trigger] diag_point(from, to, i))
                is Empty by {
                assert(at_c(b1, diag_point(from, to, i)) is Empty);
            }
        }
        if diag_between_clear(b2, from, to) {
            assert forall|i: int| 1 <= i < d implies at_c(b1, #[trigger] diag_point(from, to, i))
                is Empty by {
                assert(at_c(b2, diag_point(from, to, i)) is Empty);
            }
        }
    }
}

/// Ray symmetry: on an otherwise empty board a rook reaches exactly the
/// squares that share its row or its column, unbounded by other pieces.
pub proof fn lemma_rook_ray_symmetry(b: Seq<Square>, from: Coord, to: Coord)
    requires
        from.in_range(),
        to.in_range(),
        forall|pc: Coord| pc.in_range() && pc != from ==> #[trigger] at_c(b, pc) is Empty,
    ensures
        rook_attacks(b, from, to) <==> (from != to && (from.row == to.row || from.col
            == to.col)),
{
    if from != to && from.row == to.row {
        assert forall|x: int| (from.col < x < to.col || to.col < x < from.col) implies
            #[trigger] empty_at(b, from.row as int, x) by {
            let mid = Coord { row: from.row, col: x as u8 };
            assert(mid.in_range() && mid != from);
            assert(at_c(b, mid) is Empty);
        }
        assert(row_between_clear(b, from.row as int, from.col as int, to.col as int));
    } else if from != to && from.col == to.col {
        assert forall|x: int| (from.row < x < to.row || to.row < x < from.row) implies
            #[trigger] empty_at(b, x, from.col as int) by {
            let mid = Coord { row: x as u8, col: from.col };
            assert(mid.in_range() && mid != from);
            assert(at_c(b, mid) is Empty);
        }
        assert(col_between_clear(b, from.col as int, from.row as int, to.row as int));
    }
}

/// Path blocking: an occupied square strictly between a sliding piece and a
/// would-be target removes that target from the piece's reach.
pub proof fn lemma_blocker_removes_beyond(
    b: Seq<Square>,
    from: Coord,
    blocker: Coord,
    to: Coord,
    piece: Piece,
    color: Color,
)
    requires
        piece is Rook || piece is Bishop || piece is Queen,
        strictly_between(from, blocker, to),
        !(at_c(b, blocker) is Empty),
    ensures
        !piece_attacks(b, from, piece, color, to),
{
    if from.row == blocker.row && blocker.row == to.row && (from.col < blocker.col < to.col
        || to.col < blocker.col < from.col) {
        assert(!empty_at(b, from.row as int, blocker.col as int));
        assert(!row_between_clear(b, from.row as int, from.col as int, to.col as int));
        assert(dist(from.row as int, to.row as int) != dist(from.col as int, to.col as int));
    } else if from.col == blocker.col && blocker.col == to.col && (from.row < blocker.row < to.row
        || to.row < blocker.row < from.row) {
        assert(!empty_at(b, blocker.row as int, from.col as int));
        assert(!col_between_clear(b, from.col as int, from.row as int, to.row as int));
        assert(dist(from.row as int, to.row as int) != dist(from.col as int, to.col as int));
    } else {
        let d = dist(from.row as int, to.row as int);
        assert(d == dist(from.col as int, to.col as int));
        let i = choose|i: int| 1 <= i < d && blocker == #[trigger] diag_point(from, to, i);
        assert(!(at_c(b, diag_point(from, to, i)) is Empty));
        assert(!diag_between_clear(b, from, to));
        assert(from.row != to.row && from.col != to.col);
    }
}

} // verus!
