//! The live game position: move validation, check detection, castling, the
//! turn state machine, and validation of a candidate starting position.

use vstd::prelude::*;
use crate::attack::{
    can_king_attack, can_knight_attack, can_pawn_attack, can_piece_attack, diag_between_clear,
    dist, dist8, is_clear_diagonal, is_clear_line, king_attacks, knight_attacks, line_clear,
    pawn_attacks, pawn_dir, piece_attacks, strictly_between,
};
use crate::board::{
    at_c, coord_of, lemma_coord_of_roundtrip, lemma_idx_bounds, lemma_idx_injective, Board, Color,
    Coord, Piece, Square,
};

verus! {

/// The wing a castle happens on.
#[derive(Clone, Copy, PartialEq, Eq, Structural, Debug)]
pub enum CastleSide {
    King,
    Queen,
}

/// Per-color castling permissions, one flag per wing. Flags are only ever
/// cleared, never restored.
#[derive(Clone, Copy, PartialEq, Eq, Structural, Debug)]
pub struct CastleRights {
    pub king: bool,
    pub queen: bool,
}

/// The game state: still playing, or finished with the named color
/// checkmated or stalemated.
#[derive(Clone, Copy, PartialEq, Eq, Structural, Debug)]
pub enum State {
    Playing,
    Checkmate(Color),
    Stalemate(Color),
}

/// Why a move attempt was rejected.
#[derive(Clone, Copy, PartialEq, Eq, Structural, Debug)]
pub enum MoveErr {
    OutOfBounds,
    SameSquare,
    OriginEmpty,
    NotOwned,
    OwnsTarget,
    InvalidShape,
    PathBlocked,
    KingLeftInCheck,
    InvalidPromotion,
}

/// Why a castle attempt was rejected.
#[derive(Clone, Copy, PartialEq, Eq, Structural, Debug)]
pub enum CastleError {
    LacksRights,
    KingInCheck,
    PathBlocked,
    PathAttacked,
}

/// Why a candidate starting position was rejected.
#[derive(Clone, Copy, PartialEq, Eq, Structural, Debug)]
pub enum PositionError {
    InvalidKingCount,
    PawnsOnBackRank,
    KingsTooClose,
    BothInCheck,
    OpponentInCheck,
}

/// The descriptor of a validated move: the prior contents of both squares,
/// the captured piece kind if any, and the promotion applied if any.
#[derive(Clone, Copy, PartialEq, Eq, Debug)]
pub struct MoveInfo {
    pub from: (Coord, Square),
    pub to: (Coord, Square),
    pub captures: Option<Piece>,
    pub promotion: Option<Piece>,
}

/// The piece on `pc` belongs to the enemy of `defender` and threatens
/// `target`.
pub open spec fn is_attacker(b: Seq<Square>, pc: Coord, target: Coord, defender: Color) -> bool {
    &&& pc.in_range()
    &&& (at_c(b, pc) matches Square::Piece(p, c) && c == defender.spec_enemy() && piece_attacks(
        b,
        pc,
        p,
        c,
        target,
    ))
}

/// Some enemy piece of `defender` threatens `target`.
pub open spec fn square_attacked(b: Seq<Square>, target: Coord, defender: Color) -> bool {
    exists|pc: Coord| is_attacker(b, pc, target, defender)
}

/// The coordinates of the first `n` squares (in row-major order) holding an
/// enemy piece of `defender` that threatens `target`.
pub open spec fn attackers_upto(b: Seq<Square>, target: Coord, defender: Color, n: int) -> Seq<
    Coord,
>
    decreases n,
{
    if n <= 0 {
        Seq::empty()
    } else if is_attacker(b, coord_of(n - 1), target, defender) {
        attackers_upto(b, target, defender, n - 1).push(coord_of(n - 1))
    } else {
        attackers_upto(b, target, defender, n - 1)
    }
}

/// The coordinates of every enemy piece of `defender` threatening `target`,
/// in row-major order.
pub open spec fn attackers(b: Seq<Square>, target: Coord, defender: Color) -> Seq<Coord> {
    attackers_upto(b, target, defender, 64)
}

proof fn lemma_attackers_upto_empty(b: Seq<Square>, target: Coord, defender: Color, n: int)
    requires
        0 <= n,
    ensures
        (attackers_upto(b, target, defender, n).len() == 0) <==> (forall|i: int|
            0 <= i < n ==> !is_attacker(b, #[trigger] coord_of(i), target, defender)),
    decreases n,
{
    if n > 0 {
        lemma_attackers_upto_empty(b, target, defender, n - 1);
    }
}

proof fn lemma_attackers_upto_membership(
    b: Seq<Square>,
    target: Coord,
    defender: Color,
    n: int,
    pc: Coord,
)
    requires
        0 <= n <= 64,
    ensures
        attackers_upto(b, target, defender, n).contains(pc) <==> (pc.in_range() && pc.idx() < n
            && is_attacker(b, pc, target, defender)),
    decreases n,
{
    if n > 0 {
        lemma_attackers_upto_membership(b, target, defender, n - 1, pc);
        if is_attacker(b, coord_of(n - 1), target, defender) {
            vstd::seq_lib::lemma_seq_contains_after_push(
                attackers_upto(b, target, defender, n - 1),
                coord_of(n - 1),
                pc,
            );
            if pc == coord_of(n - 1) {
                lemma_idx_bounds(pc);
                lemma_coord_of_roundtrip(pc);
                vstd::arithmetic::div_mod::lemma_fundamental_div_mod(n - 1, 8);
                assert(pc.idx() == n - 1);
            }
        } else if pc.in_range() && pc.idx() == n - 1 {
            lemma_coord_of_roundtrip(pc);
            assert(!is_attacker(b, pc, target, defender));
        }
    }
}

/// The collected attacker list is sound and complete: it holds a coordinate
/// exactly when an enemy piece there threatens the target.
pub proof fn lemma_attackers_membership(b: Seq<Square>, target: Coord, defender: Color, pc: Coord)
    ensures
        attackers(b, target, defender).contains(pc) <==> is_attacker(b, pc, target, defender),
{
    lemma_attackers_upto_membership(b, target, defender, 64, pc);
    if pc.in_range() {
        lemma_idx_bounds(pc);
    }
}

/// Check detection symmetry: the collected attacker list for a square is
/// empty exactly when no enemy piece's threatened squares include it.
pub proof fn lemma_no_attackers_iff_unattacked(b: Seq<Square>, target: Coord, defender: Color)
    ensures
        (attackers(b, target, defender).len() == 0) <==> !square_attacked(b, target, defender),
{
    lemma_attackers_upto_empty(b, target, defender, 64);
    if attackers(b, target, defender).len() == 0 {
        assert forall|pc: Coord| !is_attacker(b, pc, target, defender) by {
            if pc.in_range() {
                lemma_coord_of_roundtrip(pc);
                lemma_idx_bounds(pc);
                assert(!is_attacker(b, coord_of(pc.idx()), target, defender));
            }
        }
    } else {
        let i = choose|i: int| 0 <= i < 64 && is_attacker(b, #[trigger] coord_of(i), target,
            defender,
        );
        assert(square_attacked(b, target, defender));
    }
}

/// Scans the whole board for an enemy piece of `defender` threatening
/// `target`.
#[verifier::loop_isolation(false)]
fn any_attacker(board: &Board, target: Coord, defender: Color) -> (r: bool)
    requires
        board.wf(),
    ensures
        r == square_attacked(board@, target, defender),
{
    let enemy = defender.enemy();
    let mut i: usize = 0;
    while i < 64
        invariant
            i <= 64,
            forall|j: int|
                0 <= j < i ==> !is_attacker(board@, #[trigger] coord_of(j), target, defender),
        decreases 64 - i,
    {
        let row: u8 = (i / 8) as u8;
        let col: u8 = (i % 8) as u8;
        let pc = Coord { row, col };
        proof {
            vstd::arithmetic::div_mod::lemma_fundamental_div_mod(i as int, 8);
            assert(pc == coord_of(i as int));
            assert(pc.idx() == i as int);
        }
        match board.square_at_index(i) {
            Square::Piece(p, c) => {
                if c == enemy && can_piece_attack(board, pc, p, c, target) {
                    proof {
                        assert(is_attacker(board@, pc, target, defender));
                    }
                    return true;
                }
            },
            Square::Empty => {},
        }
        proof {
            assert(!is_attacker(board@, coord_of(i as int), target, defender));
        }
        i = i + 1;
    }
    proof {
        assert forall|pc: Coord| !is_attacker(board@, pc, target, defender) by {
            if pc.in_range() {
                lemma_coord_of_roundtrip(pc);
                lemma_idx_bounds(pc);
                assert(!is_attacker(board@, coord_of(pc.idx()), target, defender));
            }
        }
    }
    false
}

/// Collects, in row-major order, every square holding an enemy piece of
/// `defender` that threatens `target`.
#[verifier::loop_isolation(false)]
fn collect_attackers(board: &Board, target: Coord, defender: Color) -> (r: Vec<Coord>)
    requires
        board.wf(),
    ensures
        r@ == attackers(board@, target, defender),
{
    let enemy = defender.enemy();
    let mut r: Vec<Coord> = Vec::new();
    let mut i: usize = 0;
    while i < 64
        invariant
            i <= 64,
            r@ == attackers_upto(board@, target, defender, i as int),
        decreases 64 - i,
    {
        let row: u8 = (i / 8) as u8;
        let col: u8 = (i % 8) as u8;
        let pc = Coord { row, col };
        proof {
            vstd::arithmetic::div_mod::lemma_fundamental_div_mod(i as int, 8);
            assert(pc == coord_of(i as int));
            assert(pc.idx() == i as int);
        }
        let mut hit = false;
        match board.square_at_index(i) {
            Square::Piece(p, c) => {
                if c == enemy && can_piece_attack(board, pc, p, c, target) {
                    hit = true;
                }
            },
            Square::Empty => {},
        }
        if hit {
            proof {
                assert(is_attacker(board@, coord_of(i as int), target, defender));
            }
            r.push(pc);
        } else {
            proof {
                assert(!is_attacker(board@, coord_of(i as int), target, defender));
            }
        }
        i = i + 1;
    }
    r
}

/// The rank a pawn of the given color starts on and may double-step from.
pub open spec fn start_row(color: Color) -> int {
    if color is White {
        1
    } else {
        6
    }
}

/// The rank a pawn of the given color promotes on.
pub open spec fn last_row(color: Color) -> int {
    if color is White {
        7
    } else {
        0
    }
}

/// The shape-and-path verdict for a pawn move from `from` to `to`:
/// one square forward onto an empty square, a double step from the starting
/// rank across two empty squares, or a diagonal capture onto an enemy piece.
/// A forward move onto an occupied square is blocked; a diagonal onto an
/// empty square has no valid shape (that square is attack-only).
pub open spec fn pawn_move_err(b: Seq<Square>, color: Color, from: Coord, to: Coord) -> Option<
    MoveErr,
> {
    if to.col == from.col {
        if to.row == from.row + pawn_dir(color) {
            if at_c(b, to) is Empty {
                None
            } else {
                Some(MoveErr::PathBlocked)
            }
        } else if from.row == start_row(color) && to.row == from.row + 2 * pawn_dir(color) {
            if crate::board::empty_at(b, from.row + pawn_dir(color), from.col as int) && at_c(
                b,
                to,
            ) is Empty {
                None
            } else {
                Some(MoveErr::PathBlocked)
            }
        } else {
            Some(MoveErr::InvalidShape)
        }
    } else if pawn_attacks(from, color, to) {
        if at_c(b, to) is Empty {
            Some(MoveErr::InvalidShape)
        } else {
            None
        }
    } else {
        Some(MoveErr::InvalidShape)
    }
}

/// The shape-and-path verdict for a piece of the given kind moving from
/// `from` to `to`: `InvalidShape` when the piece's movement pattern does not
/// reach the target, `PathBlocked` when it does but an intervening square is
/// occupied, `None` when the move's geometry is legal.
pub open spec fn shape_err(b: Seq<Square>, piece: Piece, color: Color, from: Coord, to: Coord) -> Option<
    MoveErr,
> {
    match piece {
        Piece::Knight => if knight_attacks(from, to) {
            None
        } else {
            Some(MoveErr::InvalidShape)
        },
        Piece::King => if king_attacks(from, to) {
            None
        } else {
            Some(MoveErr::InvalidShape)
        },
        Piece::Rook => if !(from.row == to.row || from.col == to.col) {
            Some(MoveErr::InvalidShape)
        } else if !line_clear(b, from, to) {
            Some(MoveErr::PathBlocked)
        } else {
            None
        },
        Piece::Bishop => if dist(from.row as int, to.row as int) != dist(
            from.col as int,
            to.col as int,
        ) {
            Some(MoveErr::InvalidShape)
        } else if !diag_between_clear(b, from, to) {
            Some(MoveErr::PathBlocked)
        } else {
            None
        },
        Piece::Queen => if from.row == to.row || from.col == to.col {
            if !line_clear(b, from, to) {
                Some(MoveErr::PathBlocked)
            } else {
                None
            }
        } else if dist(from.row as int, to.row as int) == dist(from.col as int, to.col as int) {
            if !diag_between_clear(b, from, to) {
                Some(MoveErr::PathBlocked)
            } else {
                None
            }
        } else {
            Some(MoveErr::InvalidShape)
        },
        Piece::Pawn => pawn_move_err(b, color, from, to),
    }
}

/// The move carries a pawn of `player` onto its promotion rank, so a
/// promotion piece is required.
pub open spec fn promo_needed(b: Seq<Square>, player: Color, from: Coord, to: Coord) -> bool {
    at_c(b, from) == Square::Piece(Piece::Pawn, player) && to.row == last_row(player)
}

/// The piece kinds a pawn may promote to.
pub open spec fn valid_promo_piece(p: Piece) -> bool {
    p is Knight || p is Bishop || p is Rook || p is Queen
}

/// A promotion argument is accepted exactly when the move needs one and it
/// names a permitted piece, or needs none and names none.
pub open spec fn promo_ok(promotion: Option<Piece>, needed: bool) -> bool {
    if needed {
        promotion matches Some(p) && valid_promo_piece(p)
    } else {
        promotion is None
    }
}

/// The square contents arriving on the destination: the moved piece, or the
/// promoted piece on a promotion.
pub open spec fn placed_square(
    b: Seq<Square>,
    player: Color,
    from: Coord,
    to: Coord,
    promotion: Option<Piece>,
) -> Square {
    if promo_needed(b, player, from, to) {
        match promotion {
            Some(p) => Square::Piece(p, player),
            None => at_c(b, from),
        }
    } else {
        at_c(b, from)
    }
}

/// The board after applying a move: origin emptied, destination overwritten.
pub open spec fn board_after_move(
    b: Seq<Square>,
    player: Color,
    from: Coord,
    to: Coord,
    promotion: Option<Piece>,
) -> Seq<Square> {
    b.update(from.idx(), Square::Empty).update(
        to.idx(),
        placed_square(b, player, from, to, promotion),
    )
}

/// Where the mover's king stands after the move: the destination when the
/// king itself moved, otherwise unchanged.
pub open spec fn king_after(b: Seq<Square>, kc: Coord, from: Coord, to: Coord) -> Coord {
    if at_c(b, from) matches Square::Piece(Piece::King, _) {
        to
    } else {
        kc
    }
}

/// The move validator's verdict, checked in order: coordinates in range and
/// distinct; origin occupied and owned by the mover; destination not owned
/// by the mover; the piece's shape and path legal; the promotion argument
/// consistent; and the simulated move leaving the mover's own king (cached
/// at `kc`) unattacked. `None` means the move is legal.
pub open spec fn move_err_parts(
    b: Seq<Square>,
    player: Color,
    kc: Coord,
    from: Coord,
    to: Coord,
    promotion: Option<Piece>,
) -> Option<MoveErr> {
    if !(from.in_range() && to.in_range()) {
        Some(MoveErr::OutOfBounds)
    } else if from == to {
        Some(MoveErr::SameSquare)
    } else {
        match at_c(b, from) {
            Square::Empty => Some(MoveErr::OriginEmpty),
            Square::Piece(p, c) => {
                if c != player {
                    Some(MoveErr::NotOwned)
                } else if at_c(b, to) matches Square::Piece(_, tc) && tc == player {
                    Some(MoveErr::OwnsTarget)
                } else if shape_err(b, p, c, from, to) is Some {
                    shape_err(b, p, c, from, to)
                } else if !promo_ok(promotion, promo_needed(b, player, from, to)) {
                    Some(MoveErr::InvalidPromotion)
                } else if square_attacked(
                    board_after_move(b, player, from, to, promotion),
                    king_after(b, kc, from, to),
                    player,
                ) {
                    Some(MoveErr::KingLeftInCheck)
                } else {
                    None
                }
            },
        }
    }
}

/// The descriptor of a legal move: prior contents of both squares, the
/// captured piece kind if the destination was occupied, and the promotion
/// as requested.
pub open spec fn move_info_parts(
    b: Seq<Square>,
    from: Coord,
    to: Coord,
    promotion: Option<Piece>,
) -> MoveInfo {
    MoveInfo {
        from: (from, at_c(b, from)),
        to: (to, at_c(b, to)),
        captures: at_c(b, to).spec_kind(),
        promotion: promotion,
    }
}

/// The move passes every check of the move validator.
pub open spec fn movable(
    b: Seq<Square>,
    player: Color,
    kc: Coord,
    from: Coord,
    to: Coord,
    promotion: Option<Piece>,
) -> bool {
    move_err_parts(b, player, kc, from, to, promotion) is None
}

/// The promotion argument the legal-move search tries: a queen where the
/// move promotes, none otherwise. A move legal under any promotion is legal
/// under this one.
pub open spec fn canonical_promo(b: Seq<Square>, player: Color, from: Coord, to: Coord) -> Option<
    Piece,
> {
    if promo_needed(b, player, from, to) {
        Some(Piece::Queen)
    } else {
        None
    }
}

/// Some legal move exists for `player`, whose king is cached at `kc`.
pub open spec fn has_legal_move(b: Seq<Square>, player: Color, kc: Coord) -> bool {
    exists|from: Coord, to: Coord, promotion: Option<Piece>|
        #[trigger] movable(b, player, kc, from, to, promotion)
}

/// The game state for the side to move: playing while a legal move exists,
/// else checkmate when in check and stalemate when not.
pub open spec fn state_of(b: Seq<Square>, player: Color, kc: Coord) -> State {
    if has_legal_move(b, player, kc) {
        State::Playing
    } else if square_attacked(b, kc, player) {
        State::Checkmate(player)
    } else {
        State::Stalemate(player)
    }
}

/// A square strictly between two in-range coordinates is itself in range.
proof fn lemma_between_in_range(from: Coord, mid: Coord, to: Coord)
    requires
        from.in_range(),
        to.in_range(),
        strictly_between(from, mid, to),
    ensures
        mid.in_range(),
{
    if !((from.row == mid.row && mid.row == to.row && (from.col < mid.col < to.col || to.col
        < mid.col < from.col)) || (from.col == mid.col && mid.col == to.col && (from.row < mid.row
        < to.row || to.row < mid.row < from.row))) {
        let d = dist(from.row as int, to.row as int);
        let i = choose|i: int|
            1 <= i < d && mid == #[trigger] crate::attack::diag_point(from, to, i);
        assert(mid.in_range());
    }
}

/// Whether a square is attacked does not change when one square's occupant
/// is exchanged for another piece of the defender's own color: the
/// defender's own pieces attack nothing against it, and path clearance sees
/// only emptiness.
proof fn lemma_attacked_same_occupancy(
    b1: Seq<Square>,
    b2: Seq<Square>,
    target: Coord,
    defender: Color,
    diff: Coord,
)
    requires
        b1.len() == 64,
        b2.len() == 64,
        diff.in_range(),
        forall|pc: Coord| pc.in_range() && pc != diff ==> #[trigger] at_c(b1, pc) == at_c(b2, pc),
        at_c(b1, diff) matches Square::Piece(_, c1) && c1 == defender,
        at_c(b2, diff) matches Square::Piece(_, c2) && c2 == defender,
    ensures
        square_attacked(b1, target, defender) == square_attacked(b2, target, defender),
{
    assert forall|pc: Coord|
        is_attacker(b1, pc, target, defender) == is_attacker(b2, pc, target, defender) by {
        if pc.in_range() && target.in_range() && pc != diff {
            assert(at_c(b1, pc) == at_c(b2, pc));
            assert forall|mid: Coord| #[trigger] strictly_between(pc, mid, target) implies (at_c(
                b1,
                mid,
            ) is Empty <==> at_c(b2, mid) is Empty) by {
                lemma_between_in_range(pc, mid, target);
                if mid != diff {
                    assert(at_c(b1, mid) == at_c(b2, mid));
                }
            }
            match at_c(b1, pc) {
                Square::Piece(p, c) => {
                    crate::attack::lemma_attack_depends_on_between(b1, b2, pc, target, p, c);
                },
                Square::Empty => {},
            }
        }
    }
    if square_attacked(b1, target, defender) {
        let pc = choose|pc: Coord| is_attacker(b1, pc, target, defender);
        assert(is_attacker(b2, pc, target, defender));
    }
    if square_attacked(b2, target, defender) {
        let pc = choose|pc: Coord| is_attacker(b2, pc, target, defender);
        assert(is_attacker(b1, pc, target, defender));
    }
}

/// A move legal under some promotion argument is legal under the canonical
/// one the legal-move search tries.
proof fn lemma_movable_canonical(
    b: Seq<Square>,
    player: Color,
    kc: Coord,
    from: Coord,
    to: Coord,
    promotion: Option<Piece>,
)
    requires
        b.len() == 64,
        movable(b, player, kc, from, to, promotion),
    ensures
        movable(b, player, kc, from, to, canonical_promo(b, player, from, to)),
{
    if promo_needed(b, player, from, to) {
        match promotion {
            Some(p) => {
                let b1 = board_after_move(b, player, from, to, promotion);
                let b2 = board_after_move(b, player, from, to, Some(Piece::Queen));
                assert forall|pc: Coord| pc.in_range() && pc != to implies #[trigger] at_c(
                    b1,
                    pc,
                ) == at_c(b2, pc) by {
                    lemma_idx_bounds(pc);
                    lemma_idx_bounds(to);
                    lemma_idx_bounds(from);
                    lemma_idx_injective(pc, to);
                }
                assert(at_c(b1, to) == Square::Piece(p, player));
                assert(at_c(b2, to) == Square::Piece(Piece::Queen, player));
                lemma_attacked_same_occupancy(
                    b1,
                    b2,
                    king_after(b, kc, from, to),
                    player,
                    to,
                );
            },
            None => {},
        }
    }
}

/// The executable move validator on bare parts: the board, the mover, and
/// the cached coordinate of the mover's king.
fn check_move(
    board: &Board,
    player: Color,
    kc: Coord,
    from: Coord,
    to: Coord,
    promotion: Option<Piece>,
) -> (r: Option<MoveErr>)
    requires
        board.wf(),
    ensures
        r == move_err_parts(board@, player, kc, from, to, promotion),
{
    if !(from.row < 8 && from.col < 8 && to.row < 8 && to.col < 8) {
        return Some(MoveErr::OutOfBounds);
    }
    if from.row == to.row && from.col == to.col {
        return Some(MoveErr::SameSquare);
    }
    let fi: usize = (from.row as usize) * 8 + (from.col as usize);
    let ti: usize = (to.row as usize) * 8 + (to.col as usize);
    let origin = board.square_at_index(fi);
    let target = board.square_at_index(ti);
    proof {
        assert(origin == at_c(board@, from));
        assert(target == at_c(board@, to));
    }
    let (p, c) = match origin {
        Square::Empty => { return Some(MoveErr::OriginEmpty) },
        Square::Piece(p, c) => (p, c),
    };
    if c != player {
        return Some(MoveErr::NotOwned);
    }
    match target {
        Square::Piece(_, tc) => {
            if tc == player {
                return Some(MoveErr::OwnsTarget);
            }
        },
        Square::Empty => {},
    }
    if let Some(e) = check_shape(board, p, c, from, to) {
        return Some(e);
    }
    let lr: u8 = match player {
        Color::White => 7,
        Color::Black => 0,
    };
    let needs_promo = matches!(p, Piece::Pawn) && to.row == lr;
    proof {
        assert(needs_promo == promo_needed(board@, player, from, to));
    }
    let promo_is_ok = if needs_promo {
        match promotion {
            Some(pp) => matches!(pp, Piece::Knight | Piece::Bishop | Piece::Rook | Piece::Queen),
            None => false,
        }
    } else {
        matches!(promotion, None)
    };
    if !promo_is_ok {
        return Some(MoveErr::InvalidPromotion);
    }
    let mut sim = board.duplicate();
    sim.move_piece(from, to);
    if needs_promo {
        if let Some(pp) = promotion {
            sim.set_square(to, Square::Piece(pp, player));
        }
    }
    proof {
        assert(sim@ =~= board_after_move(board@, player, from, to, promotion));
    }
    let king_now = if matches!(p, Piece::King) {
        to
    } else {
        kc
    };
    proof {
        assert(king_now == king_after(board@, kc, from, to));
    }
    if any_attacker(&sim, king_now, player) {
        return Some(MoveErr::KingLeftInCheck);
    }
    None
}

/// The executable shape-and-path check for one piece kind.
fn check_shape(board: &Board, piece: Piece, color: Color, from: Coord, to: Coord) -> (r: Option<
    MoveErr,
>)
    requires
        board.wf(),
        from.in_range(),
        to.in_range(),
        from != to,
    ensures
        r == shape_err(board@, piece, color, from, to),
{
    match piece {
        Piece::Knight => if can_knight_attack(from, to) {
            None
        } else {
            Some(MoveErr::InvalidShape)
        },
        Piece::King => if can_king_attack(from, to) {
            None
        } else {
            Some(MoveErr::InvalidShape)
        },
        Piece::Rook => {
            if !(from.row == to.row || from.col == to.col) {
                Some(MoveErr::InvalidShape)
            } else if !is_clear_line(board, from, to) {
                Some(MoveErr::PathBlocked)
            } else {
                None
            }
        },
        Piece::Bishop => {
            if dist8(from.row, to.row) != dist8(from.col, to.col) {
                Some(MoveErr::InvalidShape)
            } else if !is_clear_diagonal(board, from, to) {
                Some(MoveErr::PathBlocked)
            } else {
                None
            }
        },
        Piece::Queen => {
            if from.row == to.row || from.col == to.col {
                if !is_clear_line(board, from, to) {
                    Some(MoveErr::PathBlocked)
                } else {
                    None
                }
            } else if dist8(from.row, to.row) == dist8(from.col, to.col) {
                if !is_clear_diagonal(board, from, to) {
                    Some(MoveErr::PathBlocked)
                } else {
                    None
                }
            } else {
                Some(MoveErr::InvalidShape)
            }
        },
        Piece::Pawn => check_pawn_move(board, color, from, to),
    }
}

/// The executable shape-and-path check for a pawn move.
fn check_pawn_move(board: &Board, color: Color, from: Coord, to: Coord) -> (r: Option<MoveErr>)
    requires
        board.wf(),
        from.in_range(),
        to.in_range(),
    ensures
        r == pawn_move_err(board@, color, from, to),
{
    let ti: usize = (to.row as usize) * 8 + (to.col as usize);
    let target = board.square_at_index(ti);
    proof {
        assert(target == at_c(board@, to));
    }
    if to.col == from.col {
        let single = match color {
            Color::White => to.row == from.row + 1,
            Color::Black => from.row == to.row + 1,
        };
        if single {
            if matches!(target, Square::Empty) {
                None
            } else {
                Some(MoveErr::PathBlocked)
            }
        } else {
            let sr: u8 = match color {
                Color::White => 1,
                Color::Black => 6,
            };
            let double = from.row == sr && (match color {
                Color::White => to.row == from.row + 2,
                Color::Black => from.row == to.row + 2,
            });
            if double {
                let mid_row: u8 = match color {
                    Color::White => from.row + 1,
                    Color::Black => from.row - 1,
                };
                let mi: usize = (mid_row as usize) * 8 + (from.col as usize);
                let mid = board.square_at_index(mi);
                if matches!(mid, Square::Empty) && matches!(target, Square::Empty) {
                    None
                } else {
                    Some(MoveErr::PathBlocked)
                }
            } else {
                Some(MoveErr::InvalidShape)
            }
        }
    } else if can_pawn_attack(from, to, color) {
        if matches!(target, Square::Empty) {
            Some(MoveErr::InvalidShape)
        } else {
            None
        }
    } else {
        Some(MoveErr::InvalidShape)
    }
}

/// Exhaustively searches every origin and destination through the move
/// validator, stopping at the first legal move: only existence matters.
#[verifier::loop_isolation(false)]
fn has_any_move(board: &Board, player: Color, kc: Coord) -> (r: bool)
    requires
        board.wf(),
    ensures
        r == has_legal_move(board@, player, kc),
{
    let lr: u8 = match player {
        Color::White => 7,
        Color::Black => 0,
    };
    let mut fi: usize = 0;
    while fi < 64
        invariant
            fi <= 64,
            forall|f: int, t: int|
                0 <= f < fi && 0 <= t < 64 ==> !movable(
                    board@,
                    player,
                    kc,
                    #[trigger] coord_of(f),
                    #[trigger] coord_of(t),
                    canonical_promo(board@, player, coord_of(f), coord_of(t)),
                ),
        decreases 64 - fi,
    {
        let from = Coord { row: (fi / 8) as u8, col: (fi % 8) as u8 };
        proof {
            vstd::arithmetic::div_mod::lemma_fundamental_div_mod(fi as int, 8);
            assert(from == coord_of(fi as int));
            assert(from.idx() == fi as int);
        }
        let origin = board.square_at_index(fi);
        let from_own_pawn = matches!(origin, Square::Piece(Piece::Pawn, cc) if cc == player);
        let mut ti: usize = 0;
        while ti < 64
            invariant
                ti <= 64,
                fi < 64,
                from == coord_of(fi as int),
                from.in_range(),
                origin == at_c(board@, from),
                from_own_pawn == (at_c(board@, from) == Square::Piece(Piece::Pawn, player)),
                forall|t: int|
                    0 <= t < ti ==> !movable(
                        board@,
                        player,
                        kc,
                        from,
                        #[trigger] coord_of(t),
                        canonical_promo(board@, player, from, coord_of(t)),
                    ),
            decreases 64 - ti,
        {
            let to = Coord { row: (ti / 8) as u8, col: (ti % 8) as u8 };
            proof {
                vstd::arithmetic::div_mod::lemma_fundamental_div_mod(ti as int, 8);
                assert(to == coord_of(ti as int));
            }
            let promo = if from_own_pawn && to.row == lr {
                Some(Piece::Queen)
            } else {
                None
            };
            proof {
                assert(promo == canonical_promo(board@, player, from, to));
            }
            if check_move(board, player, kc, from, to, promo).is_none() {
                proof {
                    assert(movable(board@, player, kc, from, to, promo));
                }
                return true;
            }
            ti = ti + 1;
        }
        fi = fi + 1;
    }
    proof {
        assert forall|from: Coord, to: Coord, promotion: Option<Piece>|
            !(#[trigger] movable(board@, player, kc, from, to, promotion)) by {
            if movable(board@, player, kc, from, to, promotion) {
                assert(from.in_range() && to.in_range());
                lemma_coord_of_roundtrip(from);
                lemma_coord_of_roundtrip(to);
                lemma_idx_bounds(from);
                lemma_idx_bounds(to);
                lemma_movable_canonical(board@, player, kc, from, to, promotion);
                assert(!movable(
                    board@,
                    player,
                    kc,
                    coord_of(from.idx()),
                    coord_of(to.idx()),
                    canonical_promo(board@, player, coord_of(from.idx()), coord_of(to.idx())),
                ));
                assert(false);
            }
        }
    }
    false
}

/// Re-evaluates the game state for `player`, whose king stands at `kc`:
/// playing while a legal move exists, else checkmate in check and stalemate
/// otherwise.
fn evaluate_state(board: &Board, player: Color, kc: Coord) -> (st: State)
    requires
        board.wf(),
    ensures
        st == state_of(board@, player, kc),
{
    if has_any_move(board, player, kc) {
        State::Playing
    } else if any_attacker(board, kc, player) {
        State::Checkmate(player)
    } else {
        State::Stalemate(player)
    }
}

/// Exactly one king of `color` stands on the board, and it stands at `kc`.
pub open spec fn one_king(b: Seq<Square>, kc: Coord, color: Color) -> bool {
    &&& kc.in_range()
    &&& at_c(b, kc) == Square::Piece(Piece::King, color)
    &&& forall|pc: Coord|
        pc.in_range() && pc != kc ==> #[trigger] at_c(b, pc) != Square::Piece(Piece::King, color)
}

/// The back rank of a color.
pub open spec fn home_row(color: Color) -> int {
    if color is White {
        0
    } else {
        7
    }
}

/// The square a color's king starts the game on.
pub open spec fn king_home(color: Color) -> Coord {
    Coord { row: if color is White { 0 } else { 7 }, col: 4 }
}

/// The corner a color's rook of the given wing starts the game on.
pub open spec fn rook_home(color: Color, side: CastleSide) -> Coord {
    Coord {
        row: if color is White {
            0
        } else {
            7
        },
        col: if side is King {
            7
        } else {
            0
        },
    }
}

/// A castling right is only ever held while the matching king and rook
/// still stand on their original squares.
pub open spec fn rights_placed(b: Seq<Square>, color: Color, cr: CastleRights) -> bool {
    &&& cr.king ==> at_c(b, king_home(color)) == Square::Piece(Piece::King, color) && at_c(
        b,
        rook_home(color, CastleSide::King),
    ) == Square::Piece(Piece::Rook, color)
    &&& cr.queen ==> at_c(b, king_home(color)) == Square::Piece(Piece::King, color) && at_c(
        b,
        rook_home(color, CastleSide::Queen),
    ) == Square::Piece(Piece::Rook, color)
}

/// A live game position: the board, whose turn it is, castling rights, the
/// cached king coordinates, the cached attackers of the side to move's king,
/// and the game state. Created only through validation (`build` or
/// `standard`); mutated only through `try_move` and `try_castle`, which
/// either fully apply or fully reject.
#[derive(Clone, PartialEq, Eq, Debug)]
pub struct Position {
    board: Board,
    to_play: Color,
    rights_white: CastleRights,
    rights_black: CastleRights,
    state: State,
    checks: Vec<Coord>,
    king_white: Coord,
    king_black: Coord,
}

impl Position {
    /// The board's contents.
    pub closed spec fn spec_board(self) -> Seq<Square> {
        self.board@
    }

    /// The side to move.
    pub closed spec fn spec_to_play(self) -> Color {
        self.to_play
    }

    /// The game state.
    pub closed spec fn spec_state(self) -> State {
        self.state
    }

    /// A color's castling rights.
    pub closed spec fn spec_rights(self, player: Color) -> CastleRights {
        if player is White {
            self.rights_white
        } else {
            self.rights_black
        }
    }

    /// The cached coordinate of a color's king.
    pub closed spec fn spec_king(self, player: Color) -> Coord {
        if player is White {
            self.king_white
        } else {
            self.king_black
        }
    }

    /// The cached attackers of the side to move's king.
    pub closed spec fn spec_checks(self) -> Seq<Coord> {
        self.checks@
    }

    /// The consistency invariant every position upholds: the board holds its
    /// 64 squares and exactly one king per color, standing where the caches
    /// say; the checkers cache equals the attackers of the side to move's
    /// king; the side NOT to move is never in check; every castling right
    /// still has its king and rook at home; and the cached state matches a
    /// re-evaluation of the board.
    pub open spec fn wf(self) -> bool {
        &&& self.spec_board().len() == 64
        &&& one_king(self.spec_board(), self.spec_king(Color::White), Color::White)
        &&& one_king(self.spec_board(), self.spec_king(Color::Black), Color::Black)
        &&& self.spec_checks() == attackers(
            self.spec_board(),
            self.spec_king(self.spec_to_play()),
            self.spec_to_play(),
        )
        &&& !square_attacked(
            self.spec_board(),
            self.spec_king(self.spec_to_play().spec_enemy()),
            self.spec_to_play().spec_enemy(),
        )
        &&& rights_placed(self.spec_board(), Color::White, self.spec_rights(Color::White))
        &&& rights_placed(self.spec_board(), Color::Black, self.spec_rights(Color::Black))
        &&& self.spec_state() == state_of(
            self.spec_board(),
            self.spec_to_play(),
            self.spec_king(self.spec_to_play()),
        )
    }

    /// The move validator's verdict for this position.
    pub open spec fn move_err(self, from: Coord, to: Coord, promotion: Option<Piece>) -> Option<
        MoveErr,
    > {
        move_err_parts(
            self.spec_board(),
            self.spec_to_play(),
            self.spec_king(self.spec_to_play()),
            from,
            to,
            promotion,
        )
    }

    /// The descriptor a legal move from this position returns.
    pub open spec fn move_info(self, from: Coord, to: Coord, promotion: Option<Piece>) -> MoveInfo {
        move_info_parts(self.spec_board(), from, to, promotion)
    }

    /// The board, for queries; collaborators must not mutate it directly.
    pub fn board(&self) -> (r: &Board)
        ensures
            r@ == self.spec_board(),
    {
        &self.board
    }

    /// The game state.
    pub fn state(&self) -> (r: State)
        ensures
            r == self.spec_state(),
    {
        self.state
    }

    /// The side to move.
    pub fn to_play(&self) -> (r: Color)
        ensures
            r == self.spec_to_play(),
    {
        self.to_play
    }

    /// A color's castling rights.
    pub fn castle_rights(&self, player: Color) -> (r: CastleRights)
        ensures
            r == self.spec_rights(player),
    {
        match player {
            Color::White => self.rights_white,
            Color::Black => self.rights_black,
        }
    }

    /// The coordinate of a color's king.
    pub fn king_coord(&self, player: Color) -> (r: Coord)
        ensures
            r == self.spec_king(player),
    {
        match player {
            Color::White => self.king_white,
            Color::Black => self.king_black,
        }
    }

    /// Whether the side to move is in check.
    pub fn is_in_check(&self) -> (r: bool)
        requires
            self.wf(),
        ensures
            r == square_attacked(
                self.spec_board(),
                self.spec_king(self.spec_to_play()),
                self.spec_to_play(),
            ),
            r == (self.spec_checks().len() != 0),
    {
        proof {
            lemma_no_attackers_iff_unattacked(
                self.spec_board(),
                self.spec_king(self.spec_to_play()),
                self.spec_to_play(),
            );
        }
        self.checks.len() > 0
    }

    /// Every enemy piece of `player` whose threatened squares include
    /// `coord`, in row-major order.
    pub fn get_attackers(&self, coord: Coord, player: Color) -> (r: Vec<Coord>)
        requires
            self.wf(),
        ensures
            r@ == attackers(self.spec_board(), coord, player),
    {
        collect_attackers(&self.board, coord, player)
    }

    /// Whether any enemy piece of `player` threatens `coord`.
    pub fn is_square_attacked(&self, coord: Coord, player: Color) -> (r: bool)
        requires
            self.wf(),
        ensures
            r == square_attacked(self.spec_board(), coord, player),
    {
        any_attacker(&self.board, coord, player)
    }

    /// Validates a move without applying it: the full check cascade of the
    /// move validator, including simulating the move and rejecting one that
    /// would leave the mover's own king in check.
    pub fn can_move(&self, from: Coord, to: Coord, promotion: Option<Piece>) -> (r: Result<
        MoveInfo,
        MoveErr,
    >)
        requires
            self.wf(),
        ensures
            (match r {
                Ok(info) => self.move_err(from, to, promotion) is None && info == self.move_info(
                    from,
                    to,
                    promotion,
                ),
                Err(e) => self.move_err(from, to, promotion) == Some(e),
            }),
    {
        let kc = match self.to_play {
            Color::White => self.king_white,
            Color::Black => self.king_black,
        };
        match check_move(&self.board, self.to_play, kc, from, to, promotion) {
            Some(e) => Err(e),
            None => {
                let fi: usize = (from.row as usize) * 8 + (from.col as usize);
                let ti: usize = (to.row as usize) * 8 + (to.col as usize);
                let origin = self.board.square_at_index(fi);
                let target = self.board.square_at_index(ti);
                Ok(
                    MoveInfo {
                        from: (from, origin),
                        to: (to, target),
                        captures: target.piece_kind(),
                        promotion,
                    },
                )
            },
        }
    }
}

/// A color's castling rights after a move: the mover's rights are cleared
/// when its king moves, or wing-wise when a rook leaves its corner; the
/// opponent's rights are cleared wing-wise when the move lands on (captures
/// into) the matching corner.
pub open spec fn rights_after_move(
    cr: CastleRights,
    c: Color,
    player: Color,
    b: Seq<Square>,
    from: Coord,
    to: Coord,
) -> CastleRights {
    if c == player {
        if at_c(b, from) matches Square::Piece(Piece::King, _) {
            CastleRights { king: false, queen: false }
        } else {
            CastleRights {
                king: cr.king && from != rook_home(c, CastleSide::King),
                queen: cr.queen && from != rook_home(c, CastleSide::Queen),
            }
        }
    } else {
        CastleRights {
            king: cr.king && to != rook_home(c, CastleSide::King),
            queen: cr.queen && to != rook_home(c, CastleSide::Queen),
        }
    }
}

/// A legal move preserves the position's structural invariants: it never
/// lands on the enemy king (that would require the enemy already to be in
/// check, which the invariant excludes), both kings remain unique and where
/// the caches say, and every surviving castling right keeps its king and
/// rook at home.
proof fn lemma_move_preserves_position(
    b: Seq<Square>,
    player: Color,
    kcp: Coord,
    kce: Coord,
    from: Coord,
    to: Coord,
    promotion: Option<Piece>,
    crp: CastleRights,
    cre: CastleRights,
)
    requires
        b.len() == 64,
        one_king(b, kcp, player),
        one_king(b, kce, player.spec_enemy()),
        !square_attacked(b, kce, player.spec_enemy()),
        rights_placed(b, player, crp),
        rights_placed(b, player.spec_enemy(), cre),
        movable(b, player, kcp, from, to, promotion),
    ensures
        ({
            let b2 = board_after_move(b, player, from, to, promotion);
            let kcp2 = king_after(b, kcp, from, to);
            &&& b2.len() == 64
            &&& to != kce
            &&& from != kce
            &&& one_king(b2, kcp2, player)
            &&& one_king(b2, kce, player.spec_enemy())
            &&& rights_placed(b2, player, rights_after_move(crp, player, player, b, from, to))
            &&& rights_placed(
                b2,
                player.spec_enemy(),
                rights_after_move(cre, player.spec_enemy(), player, b, from, to),
            )
        }),
{
    broadcast use lemma_idx_bounds, lemma_idx_injective;

    let enemy = player.spec_enemy();
    let b2 = board_after_move(b, player, from, to, promotion);
    let kcp2 = king_after(b, kcp, from, to);
    assert(at_c(b, from) matches Square::Piece(pp, cc) && cc == player);
    // The move cannot land on the enemy king: its shape and clear path would
    // make the moved piece an attacker of that king, yet the enemy is not in
    // check.
    if to == kce {
        match at_c(b, from) {
            Square::Piece(pp, _) => {
                assert(shape_err(b, pp, player, from, to) is None);
                assert(piece_attacks(b, from, pp, player, to));
                assert(is_attacker(b, from, kce, enemy));
                assert(false);
            },
            Square::Empty => {
                assert(false);
            },
        }
    }
    assert(at_c(b, from) != at_c(b, kce));
    assert(from != kce);
    // The placed square is a piece of the mover's color and, unless the king
    // itself moved, not a king.
    let placed = placed_square(b, player, from, to, promotion);
    assert(placed matches Square::Piece(_, cc) && cc == player);
    // The enemy king is untouched and stays unique.
    assert(at_c(b2, kce) == at_c(b, kce));
    assert forall|pc: Coord|
        pc.in_range() && pc != kce implies #[trigger] at_c(b2, pc) != Square::Piece(
        Piece::King,
        enemy,
    ) by {
        if pc == from {
            assert(at_c(b2, pc) is Empty);
        } else if pc == to {
            assert(at_c(b2, pc) == placed);
        } else {
            assert(at_c(b2, pc) == at_c(b, pc));
        }
    }
    // The mover's king stays unique, whether or not it moved.
    if at_c(b, from) matches Square::Piece(Piece::King, _) {
        assert(from == kcp);
        assert(!promo_needed(b, player, from, to));
        assert(at_c(b2, to) == Square::Piece(Piece::King, player));
        assert forall|pc: Coord|
            pc.in_range() && pc != to implies #[trigger] at_c(b2, pc) != Square::Piece(
            Piece::King,
            player,
        ) by {
            if pc == from {
                assert(at_c(b2, pc) is Empty);
            } else {
                assert(at_c(b2, pc) == at_c(b, pc));
            }
        }
    } else {
        assert(from != kcp);
        assert(to != kcp);
        assert(at_c(b2, kcp) == at_c(b, kcp));
        if promo_needed(b, player, from, to) {
            assert(promo_ok(promotion, true));
            assert(placed matches Square::Piece(q, _) && valid_promo_piece(q));
        }
        assert(!(placed matches Square::Piece(Piece::King, _)));
        assert forall|pc: Coord|
            pc.in_range() && pc != kcp implies #[trigger] at_c(b2, pc) != Square::Piece(
            Piece::King,
            player,
        ) by {
            if pc == from {
                assert(at_c(b2, pc) is Empty);
            } else if pc == to {
                assert(at_c(b2, pc) == placed);
            } else {
                assert(at_c(b2, pc) == at_c(b, pc));
            }
        }
    }
    // Surviving castling rights keep king and rook at home: none of the
    // four marker squares can be the origin or the destination of this move
    // while the matching flag survives.
    let crp2 = rights_after_move(crp, player, player, b, from, to);
    let cre2 = rights_after_move(cre, enemy, player, b, from, to);
    assert(rights_placed(b2, player, crp2)) by {
        if crp2.king || crp2.queen {
            assert(!(at_c(b, from) matches Square::Piece(Piece::King, _)));
            assert(at_c(b, king_home(player)) == Square::Piece(Piece::King, player));
            assert(from != king_home(player));
            assert(to != king_home(player));
            assert(at_c(b2, king_home(player)) == at_c(b, king_home(player)));
            if crp2.king {
                let rh = rook_home(player, CastleSide::King);
                assert(from != rh);
                assert(to != rh);
                assert(at_c(b2, rh) == at_c(b, rh));
            }
            if crp2.queen {
                let rh = rook_home(player, CastleSide::Queen);
                assert(from != rh);
                assert(to != rh);
                assert(at_c(b2, rh) == at_c(b, rh));
            }
        }
    }
    assert(rights_placed(b2, enemy, cre2)) by {
        if cre2.king || cre2.queen {
            assert(at_c(b, king_home(enemy)) == Square::Piece(Piece::King, enemy));
            assert(king_home(enemy) == kce);
            assert(at_c(b2, king_home(enemy)) == at_c(b, king_home(enemy)));
            if cre2.king {
                let rh = rook_home(enemy, CastleSide::King);
                assert(from != rh);
                assert(to != rh);
                assert(at_c(b2, rh) == at_c(b, rh));
            }
            if cre2.queen {
                let rh = rook_home(enemy, CastleSide::Queen);
                assert(from != rh);
                assert(to != rh);
                assert(at_c(b2, rh) == at_c(b, rh));
            }
        }
    }
}

impl Position {
    /// Attempts a move. On failure the position is byte-for-byte unchanged
    /// and the error says which check failed. On success the board mutation,
    /// castling-rights update, king-coordinate cache, side to move, checkers
    /// cache and state are all updated together, and the descriptor of the
    /// applied move is returned. The side to move always flips on success,
    /// and the invariant is preserved.
    #[verifier::rlimit(60)]
    pub fn try_move(&mut self, from: Coord, to: Coord, promotion: Option<Piece>) -> (r: Result<
        MoveInfo,
        MoveErr,
    >)
        requires
            old(self).wf(),
        ensures
            final(self).wf(),
            (match r {
                Err(e) => *final(self) == *old(self) && old(self).move_err(from, to, promotion)
                    == Some(e),
                Ok(info) => {
                    let b = old(self).spec_board();
                    let player = old(self).spec_to_play();
                    &&& old(self).move_err(from, to, promotion) is None
                    &&& info == old(self).move_info(from, to, promotion)
                    &&& final(self).spec_board() == board_after_move(b, player, from, to, promotion)
                    &&& final(self).spec_to_play() == player.spec_enemy()
                    &&& final(self).spec_king(player) == king_after(
                        b,
                        old(self).spec_king(player),
                        from,
                        to,
                    )
                    &&& final(self).spec_king(player.spec_enemy()) == old(self).spec_king(
                        player.spec_enemy(),
                    )
                    &&& final(self).spec_rights(Color::White) == rights_after_move(
                        old(self).spec_rights(Color::White),
                        Color::White,
                        player,
                        b,
                        from,
                        to,
                    )
                    &&& final(self).spec_rights(Color::Black) == rights_after_move(
                        old(self).spec_rights(Color::Black),
                        Color::Black,
                        player,
                        b,
                        from,
                        to,
                    )
                },
            }),
    {
        let info = match self.can_move(from, to, promotion) {
            Err(e) => { return Err(e) },
            Ok(info) => info,
        };
        let ghost old_pos: Position = *self;
        let player = self.to_play;
        let origin_piece = match info.from.1 {
            Square::Piece(p, _) => p,
            Square::Empty => {
                proof {
                    assert(false);
                }
                Piece::Pawn
            },
        };
        proof {
            let kcp = old_pos.spec_king(player);
            let kce = old_pos.spec_king(player.spec_enemy());
            lemma_move_preserves_position(
                old_pos.spec_board(),
                player,
                kcp,
                kce,
                from,
                to,
                promotion,
                old_pos.spec_rights(player),
                old_pos.spec_rights(player.spec_enemy()),
            );
        }
        // (a) the board mutation, promotion included
        self.board.move_piece(from, to);
        let lr: u8 = match player {
            Color::White => 7,
            Color::Black => 0,
        };
        let needs_promo = matches!(origin_piece, Piece::Pawn) && to.row == lr;
        if needs_promo {
            if let Some(pp) = promotion {
                self.board.set_square(to, Square::Piece(pp, player));
            }
        }
        proof {
            assert(self.board@ =~= board_after_move(
                old_pos.spec_board(),
                player,
                from,
                to,
                promotion,
            ));
        }
        // (b) castling-rights update
        let hr: u8 = match player {
            Color::White => 0,
            Color::Black => 7,
        };
        let er: u8 = match player {
            Color::White => 7,
            Color::Black => 0,
        };
        if matches!(origin_piece, Piece::King) {
            match player {
                Color::White => {
                    self.rights_white = CastleRights { king: false, queen: false };
                },
                Color::Black => {
                    self.rights_black = CastleRights { king: false, queen: false };
                },
            }
        } else {
            if from.row == hr && (from.col == 7 || from.col == 0) {
                let prior = match player {
                    Color::White => self.rights_white,
                    Color::Black => self.rights_black,
                };
                let updated = if from.col == 7 {
                    CastleRights { king: false, queen: prior.queen }
                } else {
                    CastleRights { king: prior.king, queen: false }
                };
                match player {
                    Color::White => { self.rights_white = updated },
                    Color::Black => { self.rights_black = updated },
                }
            }
        }
        if to.row == er && (to.col == 7 || to.col == 0) {
            let prior = match player {
                Color::White => self.rights_black,
                Color::Black => self.rights_white,
            };
            let updated = if to.col == 7 {
                CastleRights { king: false, queen: prior.queen }
            } else {
                CastleRights { king: prior.king, queen: false }
            };
            match player {
                Color::White => { self.rights_black = updated },
                Color::Black => { self.rights_white = updated },
            }
        }
        proof {
            assert(self.spec_rights(Color::White) == rights_after_move(
                old_pos.spec_rights(Color::White),
                Color::White,
                player,
                old_pos.spec_board(),
                from,
                to,
            ));
            assert(self.spec_rights(Color::Black) == rights_after_move(
                old_pos.spec_rights(Color::Black),
                Color::Black,
                player,
                old_pos.spec_board(),
                from,
                to,
            ));
        }
        // (c) king-coordinate cache
        if matches!(origin_piece, Piece::King) {
            match player {
                Color::White => { self.king_white = to },
                Color::Black => { self.king_black = to },
            }
        }
        // (d) flip the side to move
        let next = player.enemy();
        self.to_play = next;
        // (e) recompute the checkers for the new side to move
        let kc_next = match next {
            Color::White => self.king_white,
            Color::Black => self.king_black,
        };
        self.checks = collect_attackers(&self.board, kc_next, next);
        // (f) re-evaluate the state
        self.state = evaluate_state(&self.board, next, kc_next);
        proof {
            let b2 = board_after_move(old_pos.spec_board(), player, from, to, promotion);
            let kcp2 = king_after(
                old_pos.spec_board(),
                old_pos.spec_king(player),
                from,
                to,
            );
            assert(self.spec_king(player) == kcp2);
            assert(!square_attacked(b2, kcp2, player));
            assert(self.wf());
        }
        Ok(info)
    }
}

/// The square the king lands on when castling.
pub open spec fn king_castle_to(player: Color, side: CastleSide) -> Coord {
    Coord {
        row: if player is White {
            0
        } else {
            7
        },
        col: if side is King {
            6
        } else {
            2
        },
    }
}

/// The square the rook lands on when castling.
pub open spec fn rook_castle_to(player: Color, side: CastleSide) -> Coord {
    Coord {
        row: if player is White {
            0
        } else {
            7
        },
        col: if side is King {
            5
        } else {
            3
        },
    }
}

/// The board after a castle: king and rook relocated in one step.
pub open spec fn castled_board(b: Seq<Square>, player: Color, side: CastleSide) -> Seq<Square> {
    b.update(king_home(player).idx(), Square::Empty).update(
        king_castle_to(player, side).idx(),
        Square::Piece(Piece::King, player),
    ).update(rook_home(player, side).idx(), Square::Empty).update(
        rook_castle_to(player, side).idx(),
        Square::Piece(Piece::Rook, player),
    )
}

/// Every square strictly between the castling king and rook is empty.
pub open spec fn castle_between_empty(b: Seq<Square>, player: Color, side: CastleSide) -> bool {
    let row = home_row(player);
    if side is King {
        crate::board::empty_at(b, row, 5) && crate::board::empty_at(b, row, 6)
    } else {
        crate::board::empty_at(b, row, 1) && crate::board::empty_at(b, row, 2)
            && crate::board::empty_at(b, row, 3)
    }
}

/// No square the king passes through while castling — its start, the square
/// it crosses, and its destination — is attacked by the opponent.
pub open spec fn castle_transit_safe(b: Seq<Square>, player: Color, side: CastleSide) -> bool {
    &&& !square_attacked(b, king_home(player), player)
    &&& !square_attacked(b, rook_castle_to(player, side), player)
    &&& !square_attacked(b, king_castle_to(player, side), player)
}

impl Position {
    /// The castling validator's verdict, checked in order: the mover holds
    /// the right for that wing; its king is not currently in check; the
    /// squares strictly between king and rook are empty; and no square of
    /// the king's transit (start, crossing and destination, inclusive) is
    /// attacked. `None` means the castle is legal.
    pub open spec fn castle_err(self, side: CastleSide) -> Option<CastleError> {
        let player = self.spec_to_play();
        let b = self.spec_board();
        let right = if side is King {
            self.spec_rights(player).king
        } else {
            self.spec_rights(player).queen
        };
        if !right {
            Some(CastleError::LacksRights)
        } else if self.spec_checks().len() != 0 {
            Some(CastleError::KingInCheck)
        } else if !castle_between_empty(b, player, side) {
            Some(CastleError::PathBlocked)
        } else if !castle_transit_safe(b, player, side) {
            Some(CastleError::PathAttacked)
        } else {
            None
        }
    }

    /// Validates a castle without applying it.
    pub fn can_castle(&self, side: CastleSide) -> (r: Option<CastleError>)
        requires
            self.wf(),
        ensures
            r == self.castle_err(side),
    {
        let player = self.to_play;
        let rights = match player {
            Color::White => self.rights_white,
            Color::Black => self.rights_black,
        };
        let has_right = match side {
            CastleSide::King => rights.king,
            CastleSide::Queen => rights.queen,
        };
        if !has_right {
            return Some(CastleError::LacksRights);
        }
        if self.checks.len() > 0 {
            return Some(CastleError::KingInCheck);
        }
        let row: u8 = match player {
            Color::White => 0,
            Color::Black => 7,
        };
        let blocked = match side {
            CastleSide::King => {
                !matches!(self.board.square_at_index((row as usize) * 8 + 5), Square::Empty)
                    || !matches!(self.board.square_at_index((row as usize) * 8 + 6), Square::Empty)
            },
            CastleSide::Queen => {
                !matches!(self.board.square_at_index((row as usize) * 8 + 1), Square::Empty)
                    || !matches!(self.board.square_at_index((row as usize) * 8 + 2), Square::Empty)
                    || !matches!(self.board.square_at_index((row as usize) * 8 + 3), Square::Empty)
            },
        };
        if blocked {
            return Some(CastleError::PathBlocked);
        }
        let king_from = Coord { row, col: 4 };
        let king_to = Coord {
            row,
            col: match side {
                CastleSide::King => 6,
                CastleSide::Queen => 2,
            },
        };
        let rook_to = Coord {
            row,
            col: match side {
                CastleSide::King => 5,
                CastleSide::Queen => 3,
            },
        };
        if any_attacker(&self.board, king_from, player) || any_attacker(
            &self.board,
            rook_to,
            player,
        ) || any_attacker(&self.board, king_to, player) {
            return Some(CastleError::PathAttacked);
        }
        None
    }
}

/// A rook-wise attacker of the castled king's square cannot exist: a
/// same-row attacker is blocked by the castled rook or was already attacking
/// a transit square, a same-column or any other attacker already attacked
/// the destination before the castle.
proof fn lemma_castle_line_attacker(b: Seq<Square>, player: Color, side: CastleSide, pc: Coord)
    requires
        b.len() == 64,
        castle_between_empty(b, player, side),
        castle_transit_safe(b, player, side),
        pc.in_range(),
        pc != king_home(player),
        pc != king_castle_to(player, side),
        pc != rook_home(player, side),
        pc != rook_castle_to(player, side),
        at_c(b, pc) matches Square::Piece(p, c) && c == player.spec_enemy() && (p is Rook
            || p is Queen),
    ensures
        !crate::attack::rook_attacks(
            castled_board(b, player, side),
            pc,
            king_castle_to(player, side),
        ),
{
    broadcast use lemma_idx_bounds, lemma_idx_injective;

    let b2 = castled_board(b, player, side);
    let kt = king_castle_to(player, side);
    let rt = rook_castle_to(player, side);
    let kh = king_home(player);
    let rh = rook_home(player, side);
    let r = home_row(player);
    if crate::attack::rook_attacks(b2, pc, kt) {
    assert(line_clear(b2, pc, kt));
    if pc.row == kt.row {
        assert(at_c(b2, rt) == Square::Piece(Piece::Rook, player));
        if side is King {
            assert(pc.col != 4 && pc.col != 5 && pc.col != 6 && pc.col != 7);
            assert(pc.col < 4);
            assert(crate::board::empty_at(b2, r, 5));
            assert(!(at_c(b2, rt) is Empty));
            assert(false);
        } else {
            assert(pc.col != 0 && pc.col != 2 && pc.col != 3 && pc.col != 4);
            if pc.col == 1 {
                assert(crate::board::empty_at(b, r, 1));
                assert(at_c(b, pc) is Empty);
                assert(false);
            } else {
                assert(pc.col >= 5);
                assert(crate::board::empty_at(b2, r, 3));
                assert(!(at_c(b2, rt) is Empty));
                assert(false);
            }
        }
    } else if pc.col == kt.col {
        assert forall|x: int| (pc.row < x < kt.row || kt.row < x < pc.row) implies #[trigger]
            crate::board::empty_at(b, x, kt.col as int) by {
            assert(crate::board::empty_at(b2, x, kt.col as int));
            let mid = Coord { row: x as u8, col: kt.col };
            assert(mid != kh && mid != kt && mid != rh && mid != rt);
            assert(at_c(b2, mid) == at_c(b, mid));
        }
        assert(crate::attack::col_between_clear(b, kt.col as int, pc.row as int, kt.row as int));
        assert(crate::attack::rook_attacks(b, pc, kt));
        assert(is_attacker(b, pc, kt, player));
        assert(false);
    } else {
        assert(false);
    }
    }
}

/// A bishop-wise attacker of the castled king's square cannot exist: its
/// diagonal stays off the castling rank, so it already attacked the
/// destination before the castle.
proof fn lemma_castle_diag_attacker(b: Seq<Square>, player: Color, side: CastleSide, pc: Coord)
    requires
        b.len() == 64,
        castle_transit_safe(b, player, side),
        pc.in_range(),
        pc != king_home(player),
        pc != king_castle_to(player, side),
        pc != rook_home(player, side),
        pc != rook_castle_to(player, side),
        at_c(b, pc) matches Square::Piece(p, c) && c == player.spec_enemy() && (p is Bishop
            || p is Queen),
    ensures
        !crate::attack::bishop_attacks(
            castled_board(b, player, side),
            pc,
            king_castle_to(player, side),
        ),
{
    broadcast use lemma_idx_bounds, lemma_idx_injective;

    let b2 = castled_board(b, player, side);
    let kt = king_castle_to(player, side);
    let rt = rook_castle_to(player, side);
    let kh = king_home(player);
    let rh = rook_home(player, side);
    if crate::attack::bishop_attacks(b2, pc, kt) {
    let d = dist(pc.row as int, kt.row as int);
    assert(pc.row != kt.row);
    assert forall|i: int| 1 <= i < d implies at_c(
        b,
        #[trigger] crate::attack::diag_point(pc, kt, i),
    ) is Empty by {
        let mid = crate::attack::diag_point(pc, kt, i);
        assert(at_c(b2, mid) is Empty);
        assert(mid.row != kt.row);
        assert(mid != kh && mid != kt && mid != rh && mid != rt);
        assert(at_c(b2, mid) == at_c(b, mid));
    }
    assert(crate::attack::diag_between_clear(b, pc, kt));
    assert(crate::attack::bishop_attacks(b, pc, kt));
    assert(is_attacker(b, pc, kt, player));
    assert(false);
    }
}

/// Castling never leaves the castled king in check: if the castle's
/// preconditions hold (path empty, transit unattacked), the king's
/// destination is unattacked on the rearranged board too.
proof fn lemma_castle_safe(b: Seq<Square>, player: Color, side: CastleSide)
    requires
        b.len() == 64,
        castle_between_empty(b, player, side),
        castle_transit_safe(b, player, side),
    ensures
        !square_attacked(castled_board(b, player, side), king_castle_to(player, side), player),
{
    broadcast use lemma_idx_bounds, lemma_idx_injective;

    let enemy = player.spec_enemy();
    let b2 = castled_board(b, player, side);
    let kt = king_castle_to(player, side);
    if square_attacked(b2, kt, player) {
        let pc = choose|pc: Coord| is_attacker(b2, pc, kt, player);
        let kh = king_home(player);
        let rh = rook_home(player, side);
        let rt = rook_castle_to(player, side);
        assert(at_c(b2, kh) is Empty);
        assert(at_c(b2, kt) == Square::Piece(Piece::King, player));
        assert(at_c(b2, rh) is Empty);
        assert(at_c(b2, rt) == Square::Piece(Piece::Rook, player));
        assert(pc != kh && pc != kt && pc != rh && pc != rt);
        assert(at_c(b2, pc) == at_c(b, pc));
        match at_c(b, pc) {
            Square::Piece(p, c) => {
                match p {
                    Piece::Pawn => {
                        assert(is_attacker(b, pc, kt, player));
                        assert(false);
                    },
                    Piece::Knight => {
                        assert(is_attacker(b, pc, kt, player));
                        assert(false);
                    },
                    Piece::King => {
                        assert(is_attacker(b, pc, kt, player));
                        assert(false);
                    },
                    Piece::Rook => {
                        lemma_castle_line_attacker(b, player, side, pc);
                    },
                    Piece::Bishop => {
                        lemma_castle_diag_attacker(b, player, side, pc);
                    },
                    Piece::Queen => {
                        if crate::attack::rook_attacks(b2, pc, kt) {
                            lemma_castle_line_attacker(b, player, side, pc);
                        } else {
                            lemma_castle_diag_attacker(b, player, side, pc);
                        }
                    },
                }
            },
            Square::Empty => {
                assert(false);
            },
        }
    }
}

/// A castle preserves the position's structural invariants: the castled
/// king stays unique, the untouched enemy king and its castling rights are
/// unaffected.
proof fn lemma_castle_preserves_position(
    b: Seq<Square>,
    player: Color,
    side: CastleSide,
    kcp: Coord,
    kce: Coord,
    cre: CastleRights,
)
    requires
        b.len() == 64,
        one_king(b, kcp, player),
        one_king(b, kce, player.spec_enemy()),
        at_c(b, king_home(player)) == Square::Piece(Piece::King, player),
        at_c(b, rook_home(player, side)) == Square::Piece(Piece::Rook, player),
        castle_between_empty(b, player, side),
        rights_placed(b, player.spec_enemy(), cre),
    ensures
        ({
            let b2 = castled_board(b, player, side);
            &&& b2.len() == 64
            &&& king_home(player) == kcp
            &&& one_king(b2, king_castle_to(player, side), player)
            &&& one_king(b2, kce, player.spec_enemy())
            &&& rights_placed(b2, player.spec_enemy(), cre)
        }),
{
    broadcast use lemma_idx_bounds, lemma_idx_injective;

    let enemy = player.spec_enemy();
    let b2 = castled_board(b, player, side);
    let kt = king_castle_to(player, side);
    let rt = rook_castle_to(player, side);
    let kh = king_home(player);
    let rh = rook_home(player, side);
    assert(kh == kcp);
    assert(at_c(b, kt) is Empty);
    assert(at_c(b, rt) is Empty);
    assert(at_c(b2, kh) is Empty);
    assert(at_c(b2, kt) == Square::Piece(Piece::King, player));
    assert(at_c(b2, rh) is Empty);
    assert(at_c(b2, rt) == Square::Piece(Piece::Rook, player));
    assert forall|pc: Coord|
        pc.in_range() && pc != kt implies #[trigger] at_c(b2, pc) != Square::Piece(
        Piece::King,
        player,
    ) by {
        if pc != kh && pc != rh && pc != rt {
            assert(at_c(b2, pc) == at_c(b, pc));
        }
    }
    assert(kce != kh && kce != kt && kce != rh && kce != rt);
    assert(at_c(b2, kce) == at_c(b, kce));
    assert forall|pc: Coord|
        pc.in_range() && pc != kce implies #[trigger] at_c(b2, pc) != Square::Piece(
        Piece::King,
        enemy,
    ) by {
        if pc != kh && pc != kt && pc != rh && pc != rt {
            assert(at_c(b2, pc) == at_c(b, pc));
        }
    }
    assert(rights_placed(b2, enemy, cre)) by {
        let khe = king_home(enemy);
        if cre.king || cre.queen {
            assert(khe != kh && khe != kt && khe != rh && khe != rt);
            assert(at_c(b2, khe) == at_c(b, khe));
        }
        if cre.king {
            let rhe = rook_home(enemy, CastleSide::King);
            assert(rhe != kh && rhe != kt && rhe != rh && rhe != rt);
            assert(at_c(b2, rhe) == at_c(b, rhe));
        }
        if cre.queen {
            let rhe = rook_home(enemy, CastleSide::Queen);
            assert(rhe != kh && rhe != kt && rhe != rh && rhe != rt);
            assert(at_c(b2, rhe) == at_c(b, rhe));
        }
    }
}

impl Position {
    /// Attempts a castle. On failure the position is unchanged and the
    /// error says which precondition failed. On success king and rook are
    /// relocated in one atomic step, both of the mover's castling rights are
    /// cleared, the king cache, side to move, checkers and state are updated
    /// together, and the resulting state is returned. The invariant is
    /// preserved: in particular the castled king is proven not to be left
    /// in check.
    #[verifier::rlimit(60)]
    pub fn try_castle(&mut self, side: CastleSide) -> (r: Result<State, CastleError>)
        requires
            old(self).wf(),
        ensures
            final(self).wf(),
            (match r {
                Err(e) => *final(self) == *old(self) && old(self).castle_err(side) == Some(e),
                Ok(st) => {
                    let b = old(self).spec_board();
                    let player = old(self).spec_to_play();
                    &&& old(self).castle_err(side) is None
                    &&& final(self).spec_board() == castled_board(b, player, side)
                    &&& final(self).spec_to_play() == player.spec_enemy()
                    &&& final(self).spec_king(player) == king_castle_to(player, side)
                    &&& final(self).spec_king(player.spec_enemy()) == old(self).spec_king(
                        player.spec_enemy(),
                    )
                    &&& final(self).spec_rights(player) == (CastleRights {
                        king: false,
                        queen: false,
                    })
                    &&& final(self).spec_rights(player.spec_enemy()) == old(self).spec_rights(
                        player.spec_enemy(),
                    )
                    &&& st == final(self).spec_state()
                },
            }),
    {
        if let Some(e) = self.can_castle(side) {
            return Err(e);
        }
        let ghost old_pos: Position = *self;
        let player = self.to_play;
        let row: u8 = match player {
            Color::White => 0,
            Color::Black => 7,
        };
        let king_from = Coord { row, col: 4 };
        let king_to = Coord {
            row,
            col: match side {
                CastleSide::King => 6,
                CastleSide::Queen => 2,
            },
        };
        let rook_from = Coord {
            row,
            col: match side {
                CastleSide::King => 7,
                CastleSide::Queen => 0,
            },
        };
        let rook_to = Coord {
            row,
            col: match side {
                CastleSide::King => 5,
                CastleSide::Queen => 3,
            },
        };
        proof {
            lemma_castle_preserves_position(
                old_pos.spec_board(),
                player,
                side,
                old_pos.spec_king(player),
                old_pos.spec_king(player.spec_enemy()),
                old_pos.spec_rights(player.spec_enemy()),
            );
            lemma_castle_safe(old_pos.spec_board(), player, side);
        }
        self.board.move_piece(king_from, king_to);
        self.board.move_piece(rook_from, rook_to);
        proof {
            broadcast use lemma_idx_bounds, lemma_idx_injective;

            assert(self.board@ =~= castled_board(old_pos.spec_board(), player, side));
        }
        match player {
            Color::White => {
                self.king_white = king_to;
                self.rights_white = CastleRights { king: false, queen: false };
            },
            Color::Black => {
                self.king_black = king_to;
                self.rights_black = CastleRights { king: false, queen: false };
            },
        }
        let next = player.enemy();
        self.to_play = next;
        let kc_next = match next {
            Color::White => self.king_white,
            Color::Black => self.king_black,
        };
        self.checks = collect_attackers(&self.board, kc_next, next);
        self.state = evaluate_state(&self.board, next, kc_next);
        let st = self.state;
        proof {
            assert(self.wf());
        }
        Ok(st)
    }
}

/// How many kings of a color stand among the first `n` squares.
pub open spec fn king_count_upto(b: Seq<Square>, color: Color, n: int) -> int
    decreases n,
{
    if n <= 0 {
        0
    } else if at_c(b, coord_of(n - 1)) == Square::Piece(Piece::King, color) {
        king_count_upto(b, color, n - 1) + 1
    } else {
        king_count_upto(b, color, n - 1)
    }
}

/// How many kings of a color stand on the board.
pub open spec fn king_count(b: Seq<Square>, color: Color) -> int {
    king_count_upto(b, color, 64)
}

/// Some pawn stands on the first or the last rank.
pub open spec fn pawn_on_back_rank(b: Seq<Square>) -> bool {
    exists|pc: Coord|
        pc.in_range() && (pc.row == 0 || pc.row == 7) && (#[trigger] at_c(b, pc)
            matches Square::Piece(Piece::Pawn, _))
}

/// The two kings stand within a single king's step of each other.
pub open spec fn kings_adjacent(b: Seq<Square>) -> bool {
    exists|wk: Coord, bk: Coord|
        #![trigger one_king(b, wk, Color::White), one_king(b, bk, Color::Black)]
        one_king(b, wk, Color::White) && one_king(b, bk, Color::Black) && dist(
            wk.row as int,
            bk.row as int,
        ) <= 1 && dist(wk.col as int, bk.col as int) <= 1
}

/// Both colors' kings are attacked at once.
pub open spec fn both_in_check(b: Seq<Square>) -> bool {
    exists|wk: Coord, bk: Coord|
        #![trigger one_king(b, wk, Color::White), one_king(b, bk, Color::Black)]
        one_king(b, wk, Color::White) && one_king(b, bk, Color::Black) && square_attacked(
            b,
            wk,
            Color::White,
        ) && square_attacked(b, bk, Color::Black)
}

/// The king of the side NOT to move is attacked.
pub open spec fn opponent_in_check(b: Seq<Square>, to_play: Color) -> bool {
    exists|kc: Coord|
        #[trigger] one_king(b, kc, to_play.spec_enemy()) && square_attacked(
            b,
            kc,
            to_play.spec_enemy(),
        )
}

/// The castling rights a validated position starts with: a wing's right is
/// granted exactly when its king and rook stand on their original squares.
pub open spec fn rights_from_board(b: Seq<Square>, color: Color) -> CastleRights {
    CastleRights {
        king: at_c(b, king_home(color)) == Square::Piece(Piece::King, color) && at_c(
            b,
            rook_home(color, CastleSide::King),
        ) == Square::Piece(Piece::Rook, color),
        queen: at_c(b, king_home(color)) == Square::Piece(Piece::King, color) && at_c(
            b,
            rook_home(color, CastleSide::Queen),
        ) == Square::Piece(Piece::Rook, color),
    }
}

/// The position builder's verdict, checked in order: exactly one king per
/// color; no pawn on the first or last rank; the kings not adjacent; not
/// both sides in check at once; and the side not to move not in check (a
/// position its opponent could never have legally left). `None` means the
/// board may become a live position.
pub open spec fn build_err(b: Seq<Square>, to_play: Color) -> Option<PositionError> {
    if king_count(b, Color::White) != 1 || king_count(b, Color::Black) != 1 {
        Some(PositionError::InvalidKingCount)
    } else if pawn_on_back_rank(b) {
        Some(PositionError::PawnsOnBackRank)
    } else if kings_adjacent(b) {
        Some(PositionError::KingsTooClose)
    } else if both_in_check(b) {
        Some(PositionError::BothInCheck)
    } else if opponent_in_check(b, to_play) {
        Some(PositionError::OpponentInCheck)
    } else {
        None
    }
}

impl Position {
    /// Validates an arbitrary board and side to move before it may become a
    /// live position: exactly one king per color, no pawn on a back rank,
    /// kings not adjacent, not both sides in check, and the side not to move
    /// not in check. On success the position starts with checkers computed
    /// for the side to move, castling rights granted exactly where king and
    /// rook stand on their original squares, and a freshly evaluated state.
    #[verifier::loop_isolation(false)]
    #[verifier::rlimit(100)]
    pub fn build(board: Board, to_play: Color) -> (r: Result<Position, PositionError>)
        requires
            board.wf(),
        ensures
            (match r {
                Err(e) => build_err(board@, to_play) == Some(e),
                Ok(pos) => {
                    &&& build_err(board@, to_play) is None
                    &&& pos.wf()
                    &&& pos.spec_board() == board@
                    &&& pos.spec_to_play() == to_play
                    &&& one_king(board@, pos.spec_king(Color::White), Color::White)
                    &&& one_king(board@, pos.spec_king(Color::Black), Color::Black)
                    &&& pos.spec_rights(Color::White) == rights_from_board(board@, Color::White)
                    &&& pos.spec_rights(Color::Black) == rights_from_board(board@, Color::Black)
                },
            }),
    {
        let ghost b = board@;
        // exactly one king per color, and where each stands
        let mut wcount: usize = 0;
        let mut bcount: usize = 0;
        let mut wk = Coord { row: 0, col: 0 };
        let mut bk = Coord { row: 0, col: 0 };
        let mut i: usize = 0;
        while i < 64
            invariant
                i <= 64,
                wcount <= i,
                bcount <= i,
                wcount as int == king_count_upto(b, Color::White, i as int),
                bcount as int == king_count_upto(b, Color::Black, i as int),
                wcount >= 1 ==> wk.in_range() && wk.idx() < i && at_c(b, wk) == Square::Piece(
                    Piece::King,
                    Color::White,
                ),
                bcount >= 1 ==> bk.in_range() && bk.idx() < i && at_c(b, bk) == Square::Piece(
                    Piece::King,
                    Color::Black,
                ),
                wcount == 0 ==> forall|j: int|
                    0 <= j < i ==> at_c(b, #[trigger] coord_of(j)) != Square::Piece(
                        Piece::King,
                        Color::White,
                    ),
                bcount == 0 ==> forall|j: int|
                    0 <= j < i ==> at_c(b, #[trigger] coord_of(j)) != Square::Piece(
                        Piece::King,
                        Color::Black,
                    ),
                wcount == 1 ==> forall|j: int|
                    0 <= j < i && j != wk.idx() ==> at_c(b, #[trigger] coord_of(j))
                        != Square::Piece(Piece::King, Color::White),
                bcount == 1 ==> forall|j: int|
                    0 <= j < i && j != bk.idx() ==> at_c(b, #[trigger] coord_of(j))
                        != Square::Piece(Piece::King, Color::Black),
            decreases 64 - i,
        {
            let row: u8 = (i / 8) as u8;
            let col: u8 = (i % 8) as u8;
            let pc = Coord { row, col };
            proof {
                vstd::arithmetic::div_mod::lemma_fundamental_div_mod(i as int, 8);
                assert(pc == coord_of(i as int));
                assert(pc.idx() == i as int);
            }
            match board.square_at_index(i) {
                Square::Piece(Piece::King, cc) => {
                    match cc {
                        Color::White => {
                            wcount = wcount + 1;
                            wk = pc;
                        },
                        Color::Black => {
                            bcount = bcount + 1;
                            bk = pc;
                        },
                    }
                },
                _ => {},
            }
            i = i + 1;
        }
        if !(wcount == 1 && bcount == 1) {
            return Err(PositionError::InvalidKingCount);
        }
        proof {
            assert forall|pc: Coord|
                pc.in_range() && pc != wk implies #[trigger] at_c(b, pc) != Square::Piece(
                Piece::King,
                Color::White,
            ) by {
                lemma_coord_of_roundtrip(pc);
                lemma_idx_bounds(pc);
                lemma_idx_bounds(wk);
                lemma_idx_injective(pc, wk);
                assert(at_c(b, coord_of(pc.idx())) != Square::Piece(Piece::King, Color::White));
            }
            assert forall|pc: Coord|
                pc.in_range() && pc != bk implies #[trigger] at_c(b, pc) != Square::Piece(
                Piece::King,
                Color::Black,
            ) by {
                lemma_coord_of_roundtrip(pc);
                lemma_idx_bounds(pc);
                lemma_idx_bounds(bk);
                lemma_idx_injective(pc, bk);
                assert(at_c(b, coord_of(pc.idx())) != Square::Piece(Piece::King, Color::Black));
            }
            assert(one_king(b, wk, Color::White));
            assert(one_king(b, bk, Color::Black));
            // the two one_king witnesses are unique
            assert forall|wk2: Coord, bk2: Coord|
                one_king(b, wk2, Color::White) && one_king(
                    b,
                    bk2,
                    Color::Black,
                ) implies wk2 == wk && bk2 == bk by {
                if wk2 != wk {
                    assert(at_c(b, wk) != Square::Piece(Piece::King, Color::White));
                }
                if bk2 != bk {
                    assert(at_c(b, bk) != Square::Piece(Piece::King, Color::Black));
                }
            }
        }
        // no pawn on the first or last rank
        let mut c: usize = 0;
        while c < 8
            invariant
                c <= 8,
                forall|j: int|
                    #![trigger crate::board::sq_at(b, 0, j)]
                    #![trigger crate::board::sq_at(b, 7, j)]
                    0 <= j < c ==> !(crate::board::sq_at(b, 0, j) matches Square::Piece(
                        Piece::Pawn,
                        _,
                    )) && !(crate::board::sq_at(b, 7, j) matches Square::Piece(Piece::Pawn, _)),
            decreases 8 - c,
        {
            let low = board.square_at_index(c);
            let high = board.square_at_index(56 + c);
            if matches!(low, Square::Piece(Piece::Pawn, _)) || matches!(
                high,
                Square::Piece(Piece::Pawn, _),
            ) {
                proof {
                    let pc = if low matches Square::Piece(Piece::Pawn, _) {
                        Coord { row: 0, col: c as u8 }
                    } else {
                        Coord { row: 7, col: c as u8 }
                    };
                    assert(pc.in_range() && (at_c(b, pc) matches Square::Piece(Piece::Pawn, _)));
                    assert(pawn_on_back_rank(b));
                }
                return Err(PositionError::PawnsOnBackRank);
            }
            c = c + 1;
        }
        proof {
            assert forall|pc: Coord|
                pc.in_range() && (pc.row == 0 || pc.row == 7) implies !(#[trigger] at_c(b, pc)
                matches Square::Piece(Piece::Pawn, _)) by {
                assert(at_c(b, pc) == crate::board::sq_at(b, pc.row as int, pc.col as int));
            }
            assert(!pawn_on_back_rank(b));
        }
        // kings not adjacent
        if dist8(wk.row, bk.row) <= 1 && dist8(wk.col, bk.col) <= 1 {
            proof {
                assert(kings_adjacent(b));
            }
            return Err(PositionError::KingsTooClose);
        }
        proof {
            assert(!kings_adjacent(b));
        }
        // check computation for both kings
        let wchecks = collect_attackers(&board, wk, Color::White);
        let bchecks = collect_attackers(&board, bk, Color::Black);
        proof {
            lemma_no_attackers_iff_unattacked(b, wk, Color::White);
            lemma_no_attackers_iff_unattacked(b, bk, Color::Black);
        }
        let white_checked = wchecks.len() > 0;
        let black_checked = bchecks.len() > 0;
        if white_checked && black_checked {
            proof {
                assert(both_in_check(b));
            }
            return Err(PositionError::BothInCheck);
        }
        proof {
            assert(!both_in_check(b));
        }
        let opponent_checked = match to_play {
            Color::White => black_checked,
            Color::Black => white_checked,
        };
        if opponent_checked {
            proof {
                assert(opponent_in_check(b, to_play));
            }
            return Err(PositionError::OpponentInCheck);
        }
        proof {
            assert(!opponent_in_check(b, to_play));
        }
        // construct: rights from placement, checkers for the side to move,
        // and a fresh state evaluation
        let rights_white = CastleRights {
            king: matches!(board.square_at_index(4), Square::Piece(Piece::King, Color::White))
                && matches!(board.square_at_index(7), Square::Piece(Piece::Rook, Color::White)),
            queen: matches!(board.square_at_index(4), Square::Piece(Piece::King, Color::White))
                && matches!(board.square_at_index(0), Square::Piece(Piece::Rook, Color::White)),
        };
        let rights_black = CastleRights {
            king: matches!(board.square_at_index(60), Square::Piece(Piece::King, Color::Black))
                && matches!(board.square_at_index(63), Square::Piece(Piece::Rook, Color::Black)),
            queen: matches!(board.square_at_index(60), Square::Piece(Piece::King, Color::Black))
                && matches!(board.square_at_index(56), Square::Piece(Piece::Rook, Color::Black)),
        };
        proof {
            assert(rights_white == rights_from_board(b, Color::White));
            assert(rights_black == rights_from_board(b, Color::Black));
        }
        let kc = match to_play {
            Color::White => wk,
            Color::Black => bk,
        };
        let checks = match to_play {
            Color::White => wchecks,
            Color::Black => bchecks,
        };
        let st = evaluate_state(&board, to_play, kc);
        let pos = Position {
            board,
            to_play,
            rights_white,
            rights_black,
            state: st,
            checks,
            king_white: wk,
            king_black: bk,
        };
        proof {
            assert(pos.wf());
        }
        Ok(pos)
    }
}

/// When the castle's preconditions hold, the king's lone step from its home
/// square onto the castle's crossing square lands on an unattacked square:
/// a discovered attack through the vacated home square would have to cross
/// it, and the home square itself was unattacked.
proof fn lemma_king_step_safe(b: Seq<Square>, player: Color, side: CastleSide)
    requires
        b.len() == 64,
        castle_between_empty(b, player, side),
        castle_transit_safe(b, player, side),
        at_c(b, king_home(player)) == Square::Piece(Piece::King, player),
    ensures
        !square_attacked(
            b.update(king_home(player).idx(), Square::Empty).update(
                rook_castle_to(player, side).idx(),
                Square::Piece(Piece::King, player),
            ),
            rook_castle_to(player, side),
            player,
        ),
{
    broadcast use lemma_idx_bounds, lemma_idx_injective;

    let enemy = player.spec_enemy();
    let kh = king_home(player);
    let rt = rook_castle_to(player, side);
    let r = home_row(player);
    let b2 = b.update(kh.idx(), Square::Empty).update(rt.idx(), Square::Piece(Piece::King, player));
    if square_attacked(b2, rt, player) {
        let pc = choose|pc: Coord| is_attacker(b2, pc, rt, player);
        assert(at_c(b2, kh) is Empty);
        assert(at_c(b2, rt) == Square::Piece(Piece::King, player));
        assert(pc != kh && pc != rt);
        assert(at_c(b2, pc) == at_c(b, pc));
        match at_c(b, pc) {
            Square::Piece(p, c) => {
                match p {
                    Piece::Pawn => {
                        assert(is_attacker(b, pc, rt, player));
                        assert(false);
                    },
                    Piece::Knight => {
                        assert(is_attacker(b, pc, rt, player));
                        assert(false);
                    },
                    Piece::King => {
                        assert(is_attacker(b, pc, rt, player));
                        assert(false);
                    },
                    _ => {
                        if crate::attack::rook_attacks(b2, pc, rt) {
                            assert(line_clear(b2, pc, rt));
                            if pc.row == rt.row {
                                if (pc.col < rt.col && kh.col < rt.col && pc.col < kh.col) || (
                                rt.col < pc.col && rt.col < kh.col && kh.col < pc.col) {
                                    // The vacated home square lies between:
                                    // the attacker already reached the home
                                    // square itself in the old board.
                                    assert forall|x: int|
                                        (pc.col < x < kh.col || kh.col < x < pc.col) implies
                                        #[trigger] crate::board::empty_at(b, r, x) by {
                                        let mid = Coord { row: pc.row, col: x as u8 };
                                        assert(mid != kh && mid != rt);
                                        assert(crate::board::empty_at(b2, r, x));
                                        assert(at_c(b2, mid) == at_c(b, mid));
                                    }
                                    assert(crate::attack::row_between_clear(
                                        b,
                                        r,
                                        pc.col as int,
                                        kh.col as int,
                                    ));
                                    assert(crate::attack::rook_attacks(b, pc, kh));
                                    assert(is_attacker(b, pc, kh, player));
                                    assert(false);
                                } else {
                                    // The home square is not between: every
                                    // square between attacker and target is
                                    // unchanged.
                                    assert forall|x: int|
                                        (pc.col < x < rt.col || rt.col < x < pc.col) implies
                                        #[trigger] crate::board::empty_at(b, r, x) by {
                                        let mid = Coord { row: pc.row, col: x as u8 };
                                        assert(mid != kh && mid != rt);
                                        assert(crate::board::empty_at(b2, r, x));
                                        assert(at_c(b2, mid) == at_c(b, mid));
                                    }
                                    assert(crate::attack::row_between_clear(
                                        b,
                                        r,
                                        pc.col as int,
                                        rt.col as int,
                                    ));
                                    assert(crate::attack::rook_attacks(b, pc, rt));
                                    assert(is_attacker(b, pc, rt, player));
                                    assert(false);
                                }
                            } else if pc.col == rt.col {
                                assert forall|x: int|
                                    (pc.row < x < rt.row || rt.row < x < pc.row) implies
                                    #[trigger] crate::board::empty_at(b, x, rt.col as int) by {
                                    let mid = Coord { row: x as u8, col: rt.col };
                                    assert(mid != kh && mid != rt);
                                    assert(crate::board::empty_at(b2, x, rt.col as int));
                                    assert(at_c(b2, mid) == at_c(b, mid));
                                }
                                assert(crate::attack::col_between_clear(
                                    b,
                                    rt.col as int,
                                    pc.row as int,
                                    rt.row as int,
                                ));
                                assert(crate::attack::rook_attacks(b, pc, rt));
                                assert(is_attacker(b, pc, rt, player));
                                assert(false);
                            } else {
                                assert(false);
                            }
                        } else {
                            assert(crate::attack::bishop_attacks(b2, pc, rt));
                            let d = dist(pc.row as int, rt.row as int);
                            assert(pc.row != rt.row);
                            assert forall|i: int| 1 <= i < d implies at_c(
                                b,
                                #[trigger] crate::attack::diag_point(pc, rt, i),
                            ) is Empty by {
                                let mid = crate::attack::diag_point(pc, rt, i);
                                assert(at_c(b2, mid) is Empty);
                                assert(mid.row != rt.row);
                                assert(mid != kh && mid != rt);
                                assert(at_c(b2, mid) == at_c(b, mid));
                            }
                            assert(diag_between_clear(b, pc, rt));
                            assert(crate::attack::bishop_attacks(b, pc, rt));
                            assert(is_attacker(b, pc, rt, player));
                            assert(false);
                        }
                    },
                }
            },
            Square::Empty => {
                assert(false);
            },
        }
    }
}

impl Position {
    /// Terminal states reject further move attempts: in checkmate or
    /// stalemate no input passes the move validator.
    pub proof fn lemma_terminal_rejects_moves(self, from: Coord, to: Coord, promotion: Option<
        Piece,
    >)
        requires
            self.wf(),
            !(self.spec_state() is Playing),
        ensures
            self.move_err(from, to, promotion) is Some,
    {
        if self.move_err(from, to, promotion) is None {
            let player = self.spec_to_play();
            assert(movable(self.spec_board(), player, self.spec_king(player), from, to, promotion));
            assert(has_legal_move(self.spec_board(), player, self.spec_king(player)));
            assert(false);
        }
    }

    /// Terminal states reject further castle attempts: in checkmate the
    /// king is in check, and in stalemate a legal castle would contradict
    /// the absence of any legal move, since the king's own step onto the
    /// crossing square would be legal too.
    pub proof fn lemma_terminal_rejects_castle(self, side: CastleSide)
        requires
            self.wf(),
            !(self.spec_state() is Playing),
        ensures
            self.castle_err(side) is Some,
    {
        broadcast use lemma_idx_bounds, lemma_idx_injective;

        let player = self.spec_to_play();
        let b = self.spec_board();
        let kc = self.spec_king(player);
        if self.castle_err(side) is None {
            assert(at_c(b, king_home(player)) == Square::Piece(Piece::King, player));
            assert(king_home(player) == kc);
            let rt = rook_castle_to(player, side);
            lemma_king_step_safe(b, player, side);
            assert(at_c(b, rt) is Empty);
            assert(king_attacks(kc, rt));
            assert(placed_square(b, player, kc, rt, None) == Square::Piece(Piece::King, player));
            assert(board_after_move(b, player, kc, rt, None) == b.update(
                kc.idx(),
                Square::Empty,
            ).update(rt.idx(), Square::Piece(Piece::King, player)));
            assert(king_after(b, kc, kc, rt) == rt);
            assert(movable(b, player, kc, kc, rt, None));
            assert(has_legal_move(b, player, kc));
            assert(false);
        }
    }

    /// The terminal states name the side to move: checkmate is being in
    /// check with no legal move, stalemate is having no legal move while
    /// not in check.
    pub proof fn lemma_state_classification(self)
        requires
            self.wf(),
        ensures
            (self.spec_state() matches State::Checkmate(c) ==> c == self.spec_to_play()
                && self.spec_checks().len() != 0),
            (self.spec_state() matches State::Stalemate(c) ==> c == self.spec_to_play()
                && self.spec_checks().len() == 0),
    {
        lemma_no_attackers_iff_unattacked(
            self.spec_board(),
            self.spec_king(self.spec_to_play()),
            self.spec_to_play(),
        );
    }
}

impl Position {
    /// Check detection symmetry: this position's collected checkers for a
    /// color's king are empty exactly when no enemy piece of that color
    /// threatens the king's square.
    pub proof fn lemma_check_detection(self, color: Color)
        requires
            self.wf(),
        ensures
            (attackers(self.spec_board(), self.spec_king(color), color).len() == 0) <==> !(
            exists|pc: Coord|
                #[trigger] is_attacker(self.spec_board(), pc, self.spec_king(color), color)),
    {
        lemma_no_attackers_iff_unattacked(self.spec_board(), self.spec_king(color), color);
    }

    /// Castling gating: whenever the rights and the empty path would allow
    /// the castle, an attacked square anywhere on the king's transit —
    /// start, crossing or destination — rejects it with `PathAttacked`.
    pub proof fn lemma_castle_gating(self, side: CastleSide)
        requires
            self.wf(),
            ({
                let player = self.spec_to_play();
                &&& (if side is King {
                    self.spec_rights(player).king
                } else {
                    self.spec_rights(player).queen
                })
                &&& self.spec_checks().len() == 0
                &&& castle_between_empty(self.spec_board(), player, side)
                &&& !castle_transit_safe(self.spec_board(), player, side)
            }),
        ensures
            self.castle_err(side) == Some(CastleError::PathAttacked),
    {
    }

    /// The standard starting position: the standard board, White to move,
    /// full castling rights for both colors, no checks, and a freshly
    /// evaluated state.
    #[verifier::rlimit(100)]
    pub fn standard() -> (r: Position)
        ensures
            r.wf(),
            r.spec_to_play() == Color::White,
            forall|pc: Coord|
                pc.in_range() ==> at_c(r.spec_board(), pc) == crate::board::std_at(
                    pc.row as int,
                    pc.col as int,
                ),
            r.spec_rights(Color::White) == (CastleRights { king: true, queen: true }),
            r.spec_rights(Color::Black) == (CastleRights { king: true, queen: true }),
            r.spec_king(Color::White) == (Coord { row: 0, col: 4 }),
            r.spec_king(Color::Black) == (Coord { row: 7, col: 4 }),
            r.spec_checks().len() == 0,
            r.spec_state() == State::Playing,
    {
        let board = Board::standard();
        let ghost b = board@;
        let wk = Coord { row: 0, col: 4 };
        let bk = Coord { row: 7, col: 4 };
        proof {
            // both kings are unique and stand where the caches will say
            assert(wk.in_range() && bk.in_range());
            assert(at_c(board@, wk) == crate::board::std_at(wk.row as int, wk.col as int));
            assert(at_c(board@, bk) == crate::board::std_at(bk.row as int, bk.col as int));
            assert(at_c(b, wk) == Square::Piece(Piece::King, Color::White));
            assert(at_c(b, bk) == Square::Piece(Piece::King, Color::Black));
            assert forall|pc: Coord|
                pc.in_range() && pc != wk implies #[trigger] at_c(b, pc) != Square::Piece(
                Piece::King,
                Color::White,
            ) by {
                assert(at_c(b, pc) == crate::board::std_at(pc.row as int, pc.col as int));
            }
            assert forall|pc: Coord|
                pc.in_range() && pc != bk implies #[trigger] at_c(b, pc) != Square::Piece(
                Piece::King,
                Color::Black,
            ) by {
                assert(at_c(b, pc) == crate::board::std_at(pc.row as int, pc.col as int));
            }
            // neither king is attacked: every enemy piece fails on geometry
            // alone (pawns reach one rank ahead, back-rank pieces sit seven
            // ranks away with no shared line or diagonal of equal spans)
            assert forall|pc: Coord| !is_attacker(b, pc, wk, Color::White) by {
                if pc.in_range() {
                    assert(at_c(b, pc) == crate::board::std_at(pc.row as int, pc.col as int));
                }
            }
            assert forall|pc: Coord| !is_attacker(b, pc, bk, Color::Black) by {
                if pc.in_range() {
                    assert(at_c(b, pc) == crate::board::std_at(pc.row as int, pc.col as int));
                }
            }
            assert(!square_attacked(b, wk, Color::White));
            assert(!square_attacked(b, bk, Color::Black));
            lemma_no_attackers_iff_unattacked(b, wk, Color::White);
            // the four rooks stand on their corners, so full rights are
            // rightly granted
            let rwk = rook_home(Color::White, CastleSide::King);
            let rwq = rook_home(Color::White, CastleSide::Queen);
            let rbk = rook_home(Color::Black, CastleSide::King);
            let rbq = rook_home(Color::Black, CastleSide::Queen);
            assert(rwk.in_range() && rwq.in_range() && rbk.in_range() && rbq.in_range());
            assert(at_c(board@, rwk) == crate::board::std_at(rwk.row as int, rwk.col as int));
            assert(at_c(board@, rwq) == crate::board::std_at(rwq.row as int, rwq.col as int));
            assert(at_c(board@, rbk) == crate::board::std_at(rbk.row as int, rbk.col as int));
            assert(at_c(board@, rbq) == crate::board::std_at(rbq.row as int, rbq.col as int));
            assert(king_home(Color::White) == wk && king_home(Color::Black) == bk);
        }
        proof {
            // A legal move exists — the leftmost pawn's single step — so the
            // starting state evaluates to Playing.
            let from = Coord { row: 1, col: 0 };
            let to = Coord { row: 2, col: 0 };
            assert(from.in_range() && to.in_range());
            assert(at_c(board@, from) == crate::board::std_at(from.row as int, from.col as int));
            assert(at_c(board@, to) == crate::board::std_at(to.row as int, to.col as int));
            let b2 = board_after_move(b, Color::White, from, to, None);
            assert forall|pc: Coord| !is_attacker(b2, pc, wk, Color::White) by {
                broadcast use lemma_idx_bounds, lemma_idx_injective;

                if pc.in_range() {
                    if pc == from {
                        assert(at_c(b2, pc) is Empty);
                    } else if pc == to {
                        assert(at_c(b2, pc) == Square::Piece(Piece::Pawn, Color::White));
                    } else {
                        assert(at_c(b2, pc) == at_c(b, pc));
                        assert(at_c(b, pc) == crate::board::std_at(pc.row as int, pc.col as int));
                    }
                }
            }
            assert(!square_attacked(b2, wk, Color::White));
            assert(king_after(b, wk, from, to) == wk);
            assert(movable(b, Color::White, wk, from, to, None));
            assert(has_legal_move(b, Color::White, wk));
            assert(state_of(b, Color::White, wk) == State::Playing);
        }
        let checks = collect_attackers(&board, wk, Color::White);
        let st = evaluate_state(&board, Color::White, wk);
        let full = CastleRights { king: true, queen: true };
        let pos = Position {
            board,
            to_play: Color::White,
            rights_white: full,
            rights_black: full,
            state: st,
            checks,
            king_white: wk,
            king_black: bk,
        };
        proof {
            assert(pos.wf());
        }
        pos
    }
}

impl Default for Position {
    /// The default position is the standard starting position.
    fn default() -> (r: Self)
        ensures
            r.wf(),
            r.spec_to_play() == Color::White,
    {
        Position::standard()
    }
}

} // verus!
