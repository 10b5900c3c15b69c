//! The board's spatial model: colors, piece kinds, square contents,
//! coordinates, and the fixed 8x8 grid with its raw mutation primitive.
//! This module carries no rule knowledge.

use vstd::prelude::*;

verus! {

/// The two sides of the game.
#[derive(Clone, Copy, PartialEq, Eq, Structural, Debug)]
pub enum Color {
    White,
    Black,
}

impl Color {
    /// The opposite side.
    pub open spec fn spec_enemy(self) -> Color {
        if self is White {
            Color::Black
        } else {
            Color::White
        }
    }

    #[verifier::when_used_as_spec(spec_enemy)]
    pub fn enemy(self) -> (r: Color)
        ensures
            r == self.spec_enemy(),
    {
        match self {
            Color::White => Color::Black,
            Color::Black => Color::White,
        }
    }
}

/// The six piece kinds.
#[derive(Clone, Copy, PartialEq, Eq, Structural, Debug)]
pub enum Piece {
    Pawn,
    Rook,
    Knight,
    Bishop,
    Queen,
    King,
}

/// The contents of one square: empty, or a piece of some color.
#[derive(Clone, Copy, PartialEq, Eq, Structural, Debug)]
pub enum Square {
    Empty,
    Piece(Piece, Color),
}

impl Square {
    /// The color owning this square's piece, if any.
    pub open spec fn spec_player(self) -> Option<Color> {
        match self {
            Square::Empty => None,
            Square::Piece(_, c) => Some(c),
        }
    }

    /// The kind of this square's piece, if any.
    pub open spec fn spec_kind(self) -> Option<Piece> {
        match self {
            Square::Empty => None,
            Square::Piece(p, _) => Some(p),
        }
    }

    #[verifier::when_used_as_spec(spec_player)]
    pub fn player(self) -> (r: Option<Color>)
        ensures
            r == self.spec_player(),
    {
        match self {
            Square::Empty => None,
            Square::Piece(_, c) => Some(c),
        }
    }

    #[verifier::when_used_as_spec(spec_kind)]
    pub fn piece_kind(self) -> (r: Option<Piece>)
        ensures
            r == self.spec_kind(),
    {
        match self {
            Square::Empty => None,
            Square::Piece(p, _) => Some(p),
        }
    }

    pub fn is_empty(self) -> (r: bool)
        ensures
            r == (self is Empty),
    {
        matches!(self, Square::Empty)
    }
}

/// One of the 64 squares, addressed by row and column, each in 0..=7, and
/// ordered lexicographically by (row, column). Coordinates outside that
/// range are invalid; lookups on them fail closed.
#[derive(Clone, Copy, PartialEq, Eq, Structural, PartialOrd, Ord, Debug)]
pub struct Coord {
    pub row: u8,
    pub col: u8,
}

impl Coord {
    /// Whether this coordinate addresses one of the 64 squares.
    pub open spec fn in_range(self) -> bool {
        self.row < 8 && self.col < 8
    }

    /// Row-major position of this coordinate in the grid.
    pub open spec fn idx(self) -> int {
        self.row * 8 + self.col
    }
}

/// The coordinate at a given row-major position.
pub open spec fn coord_of(i: int) -> Coord {
    Coord { row: (i / 8) as u8, col: (i % 8) as u8 }
}

/// The square at a coordinate of a board viewed as a row-major sequence.
pub open spec fn at_c(b: Seq<Square>, pc: Coord) -> Square {
    b[pc.idx()]
}

/// The square at a (row, column) pair of a board viewed as a row-major
/// sequence.
pub open spec fn sq_at(b: Seq<Square>, row: int, col: int) -> Square {
    b[row * 8 + col]
}

/// Whether the square at a (row, column) pair is empty.
pub open spec fn empty_at(b: Seq<Square>, row: int, col: int) -> bool {
    sq_at(b, row, col) is Empty
}

/// A row-major position lies inside the grid.
pub broadcast proof fn lemma_idx_bounds(a: Coord)
    requires
        a.in_range(),
    ensures
        0 <= #[trigger] a.idx() < 64,
{
}

/// Row-major positions identify coordinates uniquely.
pub broadcast proof fn lemma_idx_injective(a: Coord, b: Coord)
    requires
        a.in_range(),
        b.in_range(),
    ensures
        (#[trigger] a.idx() == #[trigger] b.idx()) <==> a == b,
{
}

/// Splitting a row-major position back into its row and column.
pub proof fn lemma_coord_of_idx(r: int, c: int)
    requires
        0 <= r < 8,
        0 <= c < 8,
    ensures
        (r * 8 + c) / 8 == r,
        (r * 8 + c) % 8 == c,
        coord_of(r * 8 + c) == (Coord { row: r as u8, col: c as u8 }),
{
    vstd::arithmetic::div_mod::lemma_fundamental_div_mod_converse(r * 8 + c, 8, r, c);
}

/// A coordinate round-trips through its row-major position.
pub proof fn lemma_coord_of_roundtrip(pc: Coord)
    requires
        pc.in_range(),
    ensures
        coord_of(pc.idx()) == pc,
{
    lemma_coord_of_idx(pc.row as int, pc.col as int);
}

/// The fixed 8x8 grid of square contents: pure storage plus the raw move
/// primitive. Every in-range coordinate maps to exactly one square; placing
/// a piece on an occupied square overwrites it.
#[derive(Clone, PartialEq, Eq, Debug)]
pub struct Board {
    squares: Vec<Square>,
}

impl View for Board {
    type V = Seq<Square>;

    closed spec fn view(&self) -> Seq<Square> {
        self.squares@
    }
}

impl Board {
    /// The grid holds exactly its 64 squares.
    pub open spec fn wf(self) -> bool {
        self@.len() == 64
    }

    /// A board with every square empty.
    pub fn empty() -> (r: Board)
        ensures
            r.wf(),
            forall|pc: Coord| pc.in_range() ==> at_c(r@, pc) is Empty,
    {
        let mut squares: Vec<Square> = Vec::new();
        let mut i: usize = 0;
        while i < 64
            invariant
                i <= 64,
                squares@.len() == i,
                forall|j: int| 0 <= j < i ==> squares@[j] is Empty,
            decreases 64 - i,
        {
            squares.push(Square::Empty);
            i = i + 1;
        }
        proof {
            broadcast use lemma_idx_bounds;
        }
        Board { squares }
    }

    /// A verified deep copy of the grid.
    pub fn duplicate(&self) -> (r: Board)
        requires
            self.wf(),
        ensures
            r.wf(),
            r@ == self@,
    {
        let mut squares: Vec<Square> = Vec::new();
        let mut i: usize = 0;
        while i < 64
            invariant
                self.wf(),
                i <= 64,
                squares@.len() == i,
                forall|j: int| 0 <= j < i ==> squares@[j] == self@[j],
            decreases 64 - i,
        {
            squares.push(self.squares[i]);
            i = i + 1;
        }
        let r = Board { squares };
        proof {
            assert(r@ =~= self@);
        }
        r
    }

    /// The square occupying a coordinate, or `None` out of range.
    pub fn square(&self, coord: Coord) -> (r: Option<Square>)
        requires
            self.wf(),
        ensures
            coord.in_range() ==> r == Some(at_c(self@, coord)),
            !coord.in_range() ==> r is None,
    {
        if coord.row < 8 && coord.col < 8 {
            let i: usize = (coord.row as usize) * 8 + (coord.col as usize);
            Some(self.squares[i])
        } else {
            None
        }
    }

    /// The square at a row-major position known to be inside the grid.
    pub fn square_at_index(&self, i: usize) -> (r: Square)
        requires
            self.wf(),
            i < 64,
        ensures
            r == self@[i as int],
    {
        self.squares[i]
    }

    /// A mutable reference to the square at a coordinate, or `None` out of
    /// range.
    pub fn square_mut(&mut self, coord: Coord) -> (r: Option<&mut Square>)
        requires
            old(self).wf(),
        ensures
            final(self).wf(),
            !coord.in_range() ==> r is None && *final(self) == *old(self),
            coord.in_range() ==> (r matches Some(m) && *m == at_c(old(self)@, coord)
                && final(self)@ == old(self)@.update(coord.idx(), *final(m))),
    {
        if coord.row < 8 && coord.col < 8 {
            let i: usize = (coord.row as usize) * 8 + (coord.col as usize);
            Some(&mut self.squares[i])
        } else {
            None
        }
    }

    /// Overwrites the square at a coordinate; reports whether the coordinate
    /// was in range (out of range, the board is unchanged).
    pub fn set_square(&mut self, coord: Coord, value: Square) -> (r: bool)
        requires
            old(self).wf(),
        ensures
            final(self).wf(),
            coord.in_range() ==> r && final(self)@ == old(self)@.update(coord.idx(), value),
            !coord.in_range() ==> !r && *final(self) == *old(self),
    {
        if coord.row < 8 && coord.col < 8 {
            let i: usize = (coord.row as usize) * 8 + (coord.col as usize);
            self.squares.set(i, value);
            true
        } else {
            false
        }
    }

    /// The raw move primitive: unconditionally empties the origin and
    /// overwrites the destination with the origin's prior content, with no
    /// legality checking (legality is the caller's responsibility). Returns
    /// the destination's prior content. Out-of-range coordinates fail closed
    /// with `None`; an out-of-range destination still empties an in-range
    /// origin, matching the primitive's two sequential writes.
    pub fn move_piece(&mut self, from: Coord, to: Coord) -> (r: Option<Square>)
        requires
            old(self).wf(),
        ensures
            final(self).wf(),
            !from.in_range() ==> r is None && *final(self) == *old(self),
            from.in_range() && !to.in_range() ==> r is None && final(self)@ == old(self)@.update(
                from.idx(),
                Square::Empty,
            ),
            from.in_range() && to.in_range() ==> r == Some(
                old(self)@.update(from.idx(), Square::Empty)[to.idx()],
            ) && final(self)@ == old(self)@.update(from.idx(), Square::Empty).update(
                to.idx(),
                at_c(old(self)@, from),
            ),
    {
        if !(from.row < 8 && from.col < 8) {
            return None;
        }
        let fi: usize = (from.row as usize) * 8 + (from.col as usize);
        let from_copy: Square = self.squares[fi];
        self.squares.set(fi, Square::Empty);
        if !(to.row < 8 && to.col < 8) {
            return None;
        }
        let ti: usize = (to.row as usize) * 8 + (to.col as usize);
        let to_copy: Square = self.squares[ti];
        self.squares.set(ti, from_copy);
        Some(to_copy)
    }
}

/// The back-rank piece standing on a column in the standard starting
/// position.
pub open spec fn back_rank_piece(col: int) -> Piece {
    if col == 0 || col == 7 {
        Piece::Rook
    } else if col == 1 || col == 6 {
        Piece::Knight
    } else if col == 2 || col == 5 {
        Piece::Bishop
    } else if col == 3 {
        Piece::Queen
    } else {
        Piece::King
    }
}

/// The square contents of the standard starting position.
pub open spec fn std_at(row: int, col: int) -> Square {
    if row == 0 {
        Square::Piece(back_rank_piece(col), Color::White)
    } else if row == 1 {
        Square::Piece(Piece::Pawn, Color::White)
    } else if row == 6 {
        Square::Piece(Piece::Pawn, Color::Black)
    } else if row == 7 {
        Square::Piece(back_rank_piece(col), Color::Black)
    } else {
        Square::Empty
    }
}

fn std_square(row: u8, col: u8) -> (s: Square)
    requires
        row < 8,
        col < 8,
    ensures
        s == std_at(row as int, col as int),
{
    if row == 0 || row == 7 {
        let color = if row == 0 {
            Color::White
        } else {
            Color::Black
        };
        let piece = if col == 0 || col == 7 {
            Piece::Rook
        } else if col == 1 || col == 6 {
            Piece::Knight
        } else if col == 2 || col == 5 {
            Piece::Bishop
        } else if col == 3 {
            Piece::Queen
        } else {
            Piece::King
        };
        Square::Piece(piece, color)
    } else if row == 1 {
        Square::Piece(Piece::Pawn, Color::White)
    } else if row == 6 {
        Square::Piece(Piece::Pawn, Color::Black)
    } else {
        Square::Empty
    }
}

impl Board {
    /// The standard starting position's board.
    pub fn standard() -> (r: Board)
        ensures
            r.wf(),
            forall|pc: Coord|
                pc.in_range() ==> at_c(r@, pc) == std_at(pc.row as int, pc.col as int),
    {
        let mut squares: Vec<Square> = Vec::new();
        let mut i: usize = 0;
        while i < 64
            invariant
                i <= 64,
                squares@.len() == i,
                forall|j: int| 0 <= j < i ==> squares@[j] == std_at(j / 8, j % 8),
            decreases 64 - i,
        {
            let row: u8 = (i / 8) as u8;
            let col: u8 = (i % 8) as u8;
            let s = std_square(row, col);
            squares.push(s);
            i = i + 1;
        }
        let r = Board { squares };
        proof {
            assert forall|pc: Coord| pc.in_range() implies at_c(r@, pc) == std_at(
                pc.row as int,
                pc.col as int,
            ) by {
                lemma_coord_of_idx(pc.row as int, pc.col as int);
            }
        }
        r
    }
}

} // verus!
