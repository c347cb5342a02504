//! Positions: what attacks what, which moves are legal, and what a move does.
use vstd::prelude::*;
use crate::bitboard::{
    bit, lemma_pending_done, lemma_pending_start, lemma_pending_step, pending, rank_of, Bitboard,
    Direction, Square, Squares,
};
use crate::constants::{king_mask, knight_mask, pawn_mask, slide_masks, Line, Tables};
use crate::pieces::{Piece, Pieces};
use crate::repr::{CastlingRights, Color, Colored, Move};

verus! {

/// The pieces of both sides.
pub type Board = Colored<Pieces>;

/// The union of `f(s)` over the cells `s` below `n` that are in the mask `from`.
pub open spec fn union_over(from: u64, f: spec_fn(int) -> u64, n: int) -> u64
    decreases n,
{
    if n <= 0 {
        0
    } else if bit(from, n - 1) {
        union_over(from, f, n - 1) | f(n - 1)
    } else {
        union_over(from, f, n - 1)
    }
}

/// The number of cells `s` below `n` that are in the mask `from` and meet `p`.
pub open spec fn count_over(from: u64, p: spec_fn(int) -> bool, n: int) -> nat
    decreases n,
{
    if n <= 0 {
        0
    } else if bit(from, n - 1) && p(n - 1) {
        count_over(from, p, n - 1) + 1
    } else {
        count_over(from, p, n - 1)
    }
}

/// Cells that are not in the mask add nothing to a union.
pub proof fn lemma_union_skip(from: u64, f: spec_fn(int) -> u64, m: int, n: int)
    requires
        0 <= m <= n,
        forall|j: int| m <= j < n ==> !bit(from, j),
    ensures
        union_over(from, f, n) == union_over(from, f, m),
    decreases n - m,
{
    if m < n {
        lemma_union_skip(from, f, m, n - 1);
    }
}

/// Cells that are not in the mask add nothing to a count.
pub proof fn lemma_count_skip(from: u64, p: spec_fn(int) -> bool, m: int, n: int)
    requires
        0 <= m <= n,
        forall|j: int| m <= j < n ==> !bit(from, j),
    ensures
        count_over(from, p, n) == count_over(from, p, m),
    decreases n - m,
{
    if m < n {
        lemma_count_skip(from, p, m, n - 1);
    }
}

/// Whether two sets of cells have a cell in common.
pub fn intersects(lhs: Bitboard, rhs: Bitboard) -> (r: bool)
    ensures
        r == (lhs.0 & rhs.0 != 0),
{
    (lhs.0 & rhs.0) != 0
}

/// Whether `mid` lies strictly between `lhs` and `rhs`.
pub fn between(lhs: u8, mid: u8, rhs: u8) -> (r: bool)
    ensures
        r == ((lhs < mid && mid < rhs) || (rhs < mid && mid < lhs)),
{
    (lhs < mid && mid < rhs) || (rhs < mid && mid < lhs)
}

/// The cells that a rook on cell `s` attacks on a board with the given occupied
/// cells.
pub open spec fn rook_mask(occupied: u64, s: int) -> u64 {
    slide_masks(Line::Rank, occupied, s).0 | slide_masks(Line::File, occupied, s).0
}

/// The cells that a bishop on cell `s` attacks.
pub open spec fn bishop_mask(occupied: u64, s: int) -> u64 {
    slide_masks(Line::MainDiag, occupied, s).0 | slide_masks(Line::SecondDiag, occupied, s).0
}

/// The cells that a queen on cell `s` attacks.
pub open spec fn queen_mask(occupied: u64, s: int) -> u64 {
    bishop_mask(occupied, s) | rook_mask(occupied, s)
}

/// The cells that a piece of the given kind and colour on cell `s` attacks on a
/// board with the given occupied cells.
pub open spec fn piece_mask(piece: Piece, color: Color, occupied: u64, s: int) -> u64 {
    match piece {
        Piece::Pawn => pawn_mask(color, s),
        Piece::Knight => knight_mask(s),
        Piece::Bishop => bishop_mask(occupied, s),
        Piece::Rook => rook_mask(occupied, s),
        Piece::Queen => queen_mask(occupied, s),
        Piece::King => king_mask(s),
    }
}

/// `piece_mask` as a function of the cell.
pub open spec fn piece_mask_fn(piece: Piece, color: Color, occupied: u64) -> spec_fn(int) -> u64 {
    |s: int| piece_mask(piece, color, occupied, s)
}

/// The cells attacked by pieces of the given kind and colour that stand on the
/// cells of `from`.
pub open spec fn attacks_of(piece: Piece, color: Color, occupied: u64, from: u64) -> u64 {
    union_over(from, piece_mask_fn(piece, color, occupied), 64)
}

/// The cells that a bishop on the cell attacks.
pub fn bishop_attack(tables: &Tables, occupied: Bitboard, square: Square) -> (b: Bitboard)
    ensures
        b.0 == bishop_mask(occupied.0, square.idx()),
{
    let main = tables.slide(Line::MainDiag, square, occupied);
    let second = tables.slide(Line::SecondDiag, square, occupied);
    Bitboard(main.0.0 | second.0.0)
}

/// The cells that a rook on the cell attacks.
pub fn rook_attack(tables: &Tables, occupied: Bitboard, square: Square) -> (b: Bitboard)
    ensures
        b.0 == rook_mask(occupied.0, square.idx()),
{
    let horizontal = tables.slide(Line::Rank, square, occupied);
    let vertical = tables.slide(Line::File, square, occupied);
    Bitboard(horizontal.0.0 | vertical.0.0)
}

/// The cells that a queen on the cell attacks.
pub fn queen_attack(tables: &Tables, occupied: Bitboard, square: Square) -> (b: Bitboard)
    ensures
        b.0 == queen_mask(occupied.0, square.idx()),
{
    let bishop = bishop_attack(tables, occupied, square);
    let rook = rook_attack(tables, occupied, square);
    Bitboard(bishop.0 | rook.0)
}

/// The cells that a knight on the cell attacks.
pub fn knight_attack(tables: &Tables, square: Square) -> (b: Bitboard)
    ensures
        b.0 == knight_mask(square.idx()),
{
    tables.knight(square)
}

/// The cells that a king on the cell attacks.
pub fn king_attack(tables: &Tables, square: Square) -> (b: Bitboard)
    ensures
        b.0 == king_mask(square.idx()),
{
    tables.king(square)
}

/// The cells that a pawn of the given colour on the cell attacks.
pub fn pawn_attack(tables: &Tables, color: Color, square: Square) -> (b: Bitboard)
    ensures
        b.0 == pawn_mask(color, square.idx()),
{
    tables.pawn(color, square)
}

/// The cells that a piece of the given kind and colour on the cell attacks.
pub fn piece_attack(
    tables: &Tables,
    piece: Piece,
    color: Color,
    occupied: Bitboard,
    square: Square,
) -> (b: Bitboard)
    ensures
        b.0 == piece_mask(piece, color, occupied.0, square.idx()),
{
    match piece {
        Piece::Pawn => pawn_attack(tables, color, square),
        Piece::Knight => knight_attack(tables, square),
        Piece::Bishop => bishop_attack(tables, occupied, square),
        Piece::Rook => rook_attack(tables, occupied, square),
        Piece::Queen => queen_attack(tables, occupied, square),
        Piece::King => king_attack(tables, square),
    }
}

/// Takes the next cell out of what is left of the mask `all`, of which the
/// cells below `from` have been taken.
pub(crate) fn next_cell(rest: &mut Squares, Ghost(all): Ghost<u64>, Ghost(from): Ghost<int>) -> (r:
    Option<Square>)
    requires
        0 <= from,
        pending(all, old(rest).bitboard.0, from),
    ensures
        match r {
            None => final(rest).bitboard.0 == old(rest).bitboard.0 && forall|j: int|
                from <= j ==> !bit(all, j),
            Some(sq) => {
                &&& from <= sq.idx() < 64
                &&& bit(all, sq.idx())
                &&& forall|j: int| from <= j < sq.idx() ==> !bit(all, j)
                &&& pending(all, final(rest).bitboard.0, sq.idx() + 1)
            },
        },
{
    let ghost before = rest.bitboard.0;
    let r = rest.next();
    proof {
        match r {
            None => {
                lemma_pending_done(all, from);
            },
            Some(sq) => {
                lemma_pending_step(all, before, from);
            },
        }
    }
    r
}

/// The cells attacked by pieces of the given kind and colour that stand on the
/// cells of `from`.
pub fn attacks_from(
    tables: &Tables,
    piece: Piece,
    color: Color,
    occupied: Bitboard,
    from: Bitboard,
) -> (b: Bitboard)
    ensures
        b.0 == attacks_of(piece, color, occupied.0, from.0),
{
    let ghost f = piece_mask_fn(piece, color, occupied.0);
    let mut rest = from.squares();
    let mut attacked: u64 = 0;
    let ghost mut done: int = 0;
    proof {
        lemma_pending_start(from.0);
    }
    loop
        invariant
            0 <= done <= 64,
            f == piece_mask_fn(piece, color, occupied.0),
            pending(from.0, rest.bitboard.0, done),
            attacked == union_over(from.0, f, done),
        ensures
            attacked == union_over(from.0, f, 64),
        decreases 64 - done,
    {
        match next_cell(&mut rest, Ghost(from.0), Ghost(done)) {
            None => {
                proof {
                    lemma_union_skip(from.0, f, done, 64);
                }
                break ;
            },
            Some(sq) => {
                let a = piece_attack(tables, piece, color, occupied, sq);
                proof {
                    lemma_union_skip(from.0, f, done, sq.idx());
                    done = sq.idx() + 1;
                }
                attacked = attacked | a.0;
            },
        }
    }
    Bitboard(attacked)
}

impl Colored<Pieces> {
    /// The mask of the cells that hold a piece of either side.
    pub open spec fn all(self) -> u64 {
        self.0.all() | self.1.all()
    }

    /// The mask of the cells that the pieces of the given colour attack, the king
    /// left aside.
    pub open spec fn attack_mask(self, color: Color) -> u64 {
        let pieces = self.of(color);
        let occupied = self.all();
        attacks_of(Piece::Knight, color, occupied, pieces.knights.0) | attacks_of(
            Piece::Bishop,
            color,
            occupied,
            pieces.bishops.0,
        ) | attacks_of(Piece::Rook, color, occupied, pieces.rooks.0) | attacks_of(
            Piece::Queen,
            color,
            occupied,
            pieces.queens.0,
        ) | attacks_of(Piece::Pawn, color, occupied, pieces.pawns.0)
    }

    /// Whether a king of the given colour stands on a cell that the other side
    /// attacks.
    pub open spec fn checked(self, player: Color) -> bool {
        self.of(player).kings.0 & self.attack_mask(player.opposite()) != 0
    }

    /// Whether both sides have a piece on cell `s`.
    pub open spec fn doubled(self, s: int) -> bool {
        self.0.piece_on(s) is Some && self.1.piece_on(s) is Some
    }

    /// The colour and kind of the piece on cell `s`, if one side has a piece there.
    pub open spec fn piece_on(self, s: int) -> Option<(Color, Piece)> {
        match (self.0.piece_on(s), self.1.piece_on(s)) {
            (Some(piece), _) => Some((Color::White, piece)),
            (None, Some(piece)) => Some((Color::Black, piece)),
            (None, None) => None,
        }
    }

    /// The cells that hold a piece of either side.
    pub fn occupied(&self) -> (b: Bitboard)
        ensures
            b.0 == self.all(),
    {
        Bitboard(self.0.occupied().0 | self.1.occupied().0)
    }

    /// The cells that hold no piece of either side.
    pub fn unoccupied(&self) -> (b: Bitboard)
        ensures
            b.0 == !self.all(),
    {
        Bitboard(!(self.0.occupied().0 | self.1.occupied().0))
    }

    /// The cells that the pieces of the given colour attack, the king left aside.
    pub fn attacks(&self, tables: &Tables, color: Color) -> (b: Bitboard)
        ensures
            b.0 == self.attack_mask(color),
    {
        let occupied = self.occupied();
        let pieces = self.get(color);
        let knights = attacks_from(tables, Piece::Knight, color, occupied, pieces.knights);
        let bishops = attacks_from(tables, Piece::Bishop, color, occupied, pieces.bishops);
        let rooks = attacks_from(tables, Piece::Rook, color, occupied, pieces.rooks);
        let queens = attacks_from(tables, Piece::Queen, color, occupied, pieces.queens);
        let pawns = attacks_from(tables, Piece::Pawn, color, occupied, pieces.pawns);
        Bitboard(knights.0 | bishops.0 | rooks.0 | queens.0 | pawns.0)
    }

    /// Whether a king of the given colour stands on a cell that the other side
    /// attacks.
    pub fn in_check(&self, tables: &Tables, player: Color) -> (r: bool)
        ensures
            r == self.checked(player),
    {
        let attacked = self.attacks(tables, player.other());
        (self.get(player).kings.0 & attacked.0) != 0
    }

    /// The colour and kind of the piece on the cell, if any.
    pub fn at(&self, square: Square) -> (r: Option<(Color, Piece)>)
        requires
            !self.doubled(square.idx()),
        ensures
            r == self.piece_on(square.idx()),
    {
        let white = self.0.at(square);
        let black = self.1.at(square);
        match (white, black) {
            (Some(piece), _) => Some((Color::White, piece)),
            (None, Some(piece)) => Some((Color::Black, piece)),
            (None, None) => None,
        }
    }
}


/// A position: the pieces of both sides, the side to move, the castling moves
/// still allowed, the cell that a pawn has just passed in a double step, and the
/// number of half-moves since the last capture or pawn move.
#[derive(Copy, Clone, Debug, Hash, Eq)]
pub struct Position {
    pub board: Board,
    pub turn: Color,
    pub castling_rights: Colored<CastlingRights>,
    pub en_passant: Option<Square>,
    pub half_moves: u16,
}

impl PartialEq for Position {
    /// Two positions are equal when they agree in everything but the clock.
    fn eq(&self, other: &Self) -> (r: bool) {
        let pieces = self.board.0 == other.board.0 && self.board.1 == other.board.1;
        let rights = self.castling_rights.0 == other.castling_rights.0 && self.castling_rights.1
            == other.castling_rights.1;
        let passing = match (self.en_passant, other.en_passant) {
            (None, None) => true,
            (Some(a), Some(b)) => a == b,
            _ => false,
        };
        pieces && self.turn == other.turn && rights && passing
    }
}

impl vstd::std_specs::cmp::PartialEqSpecImpl for Position {
    open spec fn obeys_eq_spec() -> bool {
        true
    }

    open spec fn eq_spec(&self, other: &Self) -> bool {
        &&& self.board == other.board
        &&& self.turn == other.turn
        &&& self.castling_rights == other.castling_rights
        &&& self.en_passant == other.en_passant
    }
}

impl Position {
    /// The pieces of the side to move.
    pub open spec fn own(self) -> Pieces {
        self.board.of(self.turn)
    }

    /// The pieces of the other side.
    pub open spec fn enemy(self) -> Pieces {
        self.board.of(self.turn.opposite())
    }

    /// Whether the king of the side to move stands on an attacked cell.
    pub open spec fn checked(self) -> bool {
        self.board.checked(self.turn)
    }

    /// Whether the king of the side to move stands on an attacked cell.
    pub fn in_check(&self, tables: &Tables) -> (r: bool)
        ensures
            r == self.checked(),
    {
        self.board.in_check(tables, self.turn)
    }
}


/// The cell on which the rook of the given colour stands before it castles on
/// the king's side.
pub open spec fn king_rook_home(color: Color) -> Square {
    match color {
        Color::White => Square::H1,
        Color::Black => Square::H8,
    }
}

/// The cell on which the rook of the given colour stands before it castles on
/// the queen's side.
pub open spec fn queen_rook_home(color: Color) -> Square {
    match color {
        Color::White => Square::A1,
        Color::Black => Square::A8,
    }
}

/// The cell on which the king of the given colour stands before it castles.
pub open spec fn king_home(color: Color) -> Square {
    match color {
        Color::White => Square::E1,
        Color::Black => Square::E8,
    }
}

/// The castling rights that a side keeps while its rooks stand on the cells of
/// `rooks`: a right is lost when the rook is not on its home cell.
pub open spec fn kept_rights(rights: CastlingRights, rooks: u64, color: Color) -> CastlingRights {
    CastlingRights {
        kingside: rights.kingside && bit(rooks, king_rook_home(color).idx()),
        queenside: rights.queenside && bit(rooks, queen_rook_home(color).idx()),
    }
}

/// The castling rights that a side of the given colour keeps when one of its
/// pieces of the given kind leaves the cell `src`: none after a king's move;
/// after a rook's move from one of its own home corners, not the right of that
/// corner's wing.
pub open spec fn rights_after(
    rights: CastlingRights,
    color: Color,
    piece: Piece,
    src: Square,
) -> CastlingRights {
    match piece {
        Piece::King => CastlingRights { kingside: false, queenside: false },
        Piece::Rook => CastlingRights {
            kingside: rights.kingside && src != king_rook_home(color),
            queenside: rights.queenside && src != queen_rook_home(color),
        },
        _ => rights,
    }
}

/// What a move changes besides the side to move and the clock.
pub struct Outcome {
    /// The pieces of the side that moved.
    pub mine: Pieces,
    /// The pieces of the other side.
    pub theirs: Pieces,
    /// The castling rights of the side that moved.
    pub rights: CastlingRights,
    /// The cell that a pawn has just passed in a double step.
    pub en_passant: Option<Square>,
    /// Whether a piece was captured or a pawn moved.
    pub reset: bool,
}

impl Position {
    /// The pieces after one of the two castling moves of the side to move: king
    /// and rook leave their home cells for the given cells.
    pub open spec fn castled(self, rook_home: Square, king_to: Square, rook_to: Square) -> Pieces {
        self.own().lifted(Piece::King, king_home(self.turn).idx()).dropped(
            Piece::King,
            king_to.idx(),
        ).lifted(Piece::Rook, rook_home.idx()).dropped(Piece::Rook, rook_to.idx())
    }

    /// What the move changes, whether it is legal or not.
    pub open spec fn outcome(self, m: Move) -> Outcome {
        let us = self.turn;
        let rights = self.castling_rights.of(us);
        let none = CastlingRights { kingside: false, queenside: false };
        match m {
            Move::Normal(src, dst, piece) => {
                let double = piece == Piece::Pawn && (rank_of(src.idx()) - rank_of(dst.idx()) > 1
                    || rank_of(dst.idx()) - rank_of(src.idx()) > 1);
                Outcome {
                    mine: self.own().lifted(piece, src.idx()).dropped(piece, dst.idx()),
                    theirs: self.enemy().without(dst.idx()),
                    rights: rights_after(rights, us, piece, src),
                    en_passant: if double {
                        match Direction::pawn_spec(us).step_from(src.idx()) {
                            Some(t) => Some(Square::of(t)),
                            None => None,
                        }
                    } else {
                        None
                    },
                    reset: self.enemy().piece_on(dst.idx()) is Some || piece == Piece::Pawn,
                }
            },
            Move::EnPassant(src, dst) => Outcome {
                mine: self.own().lifted(Piece::Pawn, src.idx()).dropped(Piece::Pawn, dst.idx()),
                theirs: match Direction::pawn_spec(us.opposite()).step_from(dst.idx()) {
                    Some(c) => self.enemy().without(c),
                    None => self.enemy(),
                },
                rights,
                en_passant: None,
                reset: true,
            },
            Move::Promotion(src, dst, to) => Outcome {
                mine: self.own().lifted(Piece::Pawn, src.idx()).dropped(to, dst.idx()),
                theirs: self.enemy().without(dst.idx()),
                rights,
                en_passant: None,
                reset: true,
            },
            Move::KingsideCastle => Outcome {
                mine: match us {
                    Color::White => self.castled(Square::H1, Square::G1, Square::F1),
                    Color::Black => self.castled(Square::H8, Square::G8, Square::F8),
                },
                theirs: self.enemy(),
                rights: none,
                en_passant: None,
                reset: false,
            },
            Move::QueensideCastle => Outcome {
                mine: match us {
                    Color::White => self.castled(Square::A1, Square::C1, Square::D1),
                    Color::Black => self.castled(Square::A8, Square::C8, Square::D8),
                },
                theirs: self.enemy(),
                rights: none,
                en_passant: None,
                reset: false,
            },
        }
    }

    /// The position after the move: the pieces have moved, a captured piece is
    /// gone, the castling rights of both sides are brought up to date, the other
    /// side is to move, and the clock is back at zero after a capture or a pawn's
    /// move and one higher after any other move (but it stops at its largest
    /// value).
    pub open spec fn after(self, m: Move) -> Position {
        let us = self.turn;
        let them = us.opposite();
        let o = self.outcome(m);
        Position {
            board: self.board.with(us, o.mine).with(them, o.theirs),
            turn: them,
            castling_rights: self.castling_rights.with(us, o.rights).with(
                them,
                kept_rights(self.castling_rights.of(them), o.theirs.rooks.0, them),
            ),
            en_passant: o.en_passant,
            half_moves: if o.reset {
                0
            } else if self.half_moves < u16::MAX {
                (self.half_moves + 1) as u16
            } else {
                u16::MAX
            },
        }
    }

    /// The pieces of the side to move after it has castled.
    fn castle(&self, rook_home: Square, king_to: Square, rook_to: Square) -> (p: Pieces)
        ensures
            p == self.castled(rook_home, king_to, rook_to),
    {
        let mut mine: Pieces = *self.board.get(self.turn);
        let home = match self.turn {
            Color::White => Square::E1,
            Color::Black => Square::E8,
        };
        mine.lift(Piece::King, home);
        mine.drop(Piece::King, king_to);
        mine.lift(Piece::Rook, rook_home);
        mine.drop(Piece::Rook, rook_to);
        mine
    }

    /// What the move changes.
    fn resolve(&self, m: Move) -> (o: Outcome)
        ensures
            o == self.outcome(m),
    {
        let us = self.turn;
        let them = us.other();
        let rights: CastlingRights = *self.castling_rights.get(us);
        let none = CastlingRights { kingside: false, queenside: false };
        let mut mine: Pieces = *self.board.get(us);
        let mut theirs: Pieces = *self.board.get(them);
        match m {
            Move::Normal(src, dst, piece) => {
                mine.lift(piece, src);
                mine.drop(piece, dst);
                let captured: bool = theirs.at(dst).is_some();
                theirs.unset(dst);
                let (queen_rook, king_rook) = match us {
                    Color::White => (Square::A1, Square::H1),
                    Color::Black => (Square::A8, Square::H8),
                };
                let kept = match piece {
                    Piece::King => none,
                    Piece::Rook => CastlingRights {
                        kingside: rights.kingside && src != king_rook,
                        queenside: rights.queenside && src != queen_rook,
                    },
                    _ => rights,
                };
                let sr: u8 = src.rank();
                let dr: u8 = dst.rank();
                let double: bool = piece == Piece::Pawn && (sr > dr + 1 || dr > sr + 1);
                let en_passant = if double {
                    src.step(Direction::pawn(us))
                } else {
                    None
                };
                Outcome {
                    mine,
                    theirs,
                    rights: kept,
                    en_passant,
                    reset: captured || piece == Piece::Pawn,
                }
            },
            Move::EnPassant(src, dst) => {
                mine.lift(Piece::Pawn, src);
                mine.drop(Piece::Pawn, dst);
                match dst.step(Direction::pawn(them)) {
                    Some(c) => {
                        theirs.unset(c);
                    },
                    None => {},
                }
                Outcome { mine, theirs, rights, en_passant: None, reset: true }
            },
            Move::Promotion(src, dst, to) => {
                mine.lift(Piece::Pawn, src);
                mine.drop(to, dst);
                theirs.unset(dst);
                Outcome { mine, theirs, rights, en_passant: None, reset: true }
            },
            Move::KingsideCastle => {
                let castled = match us {
                    Color::White => self.castle(Square::H1, Square::G1, Square::F1),
                    Color::Black => self.castle(Square::H8, Square::G8, Square::F8),
                };
                Outcome { mine: castled, theirs, rights: none, en_passant: None, reset: false }
            },
            Move::QueensideCastle => {
                let castled = match us {
                    Color::White => self.castle(Square::A1, Square::C1, Square::D1),
                    Color::Black => self.castle(Square::A8, Square::C8, Square::D8),
                };
                Outcome { mine: castled, theirs, rights: none, en_passant: None, reset: false }
            },
        }
    }

    /// The position after the move. A legal move in a position of a game leads
    /// to a position of a game, in which the side that has moved is not in check.
    pub fn make_move(&self, legal_move: Move) -> (next: Position)
        ensures
            next == self.after(legal_move),
            self.sound() && self.legal_move_seq().contains(legal_move) ==> next.sound()
                && !next.board.checked(self.turn),
    {
        proof {
            if self.sound() && self.legal_move_seq().contains(legal_move) {
                self.lemma_legal_moves_keep_sound(legal_move);
            }
        }
        let us = self.turn;
        let them = us.other();
        let o = self.resolve(legal_move);
        let (queen_rook, king_rook) = match them {
            Color::White => (Square::A1, Square::H1),
            Color::Black => (Square::A8, Square::H8),
        };
        let theirs: CastlingRights = *self.castling_rights.get(them);
        let kept = CastlingRights {
            kingside: theirs.kingside && o.theirs.rooks.at(king_rook),
            queenside: theirs.queenside && o.theirs.rooks.at(queen_rook),
        };
        let mut board: Board = self.board;
        board.put(us, o.mine);
        board.put(them, o.theirs);
        let mut castling_rights = self.castling_rights;
        castling_rights.put(us, o.rights);
        castling_rights.put(them, kept);
        let half_moves: u16 = if o.reset {
            0
        } else if self.half_moves < u16::MAX {
            self.half_moves + 1
        } else {
            u16::MAX
        };
        Position { board, turn: them, castling_rights, en_passant: o.en_passant, half_moves }
    }

    /// The number of ways to play `depth` half-moves from here, each a legal
    /// move in the position before it.
    pub open spec fn perft_count(self, depth: nat) -> nat
        decreases depth, 0nat, 0nat,
    {
        if depth == 0 {
            1
        } else {
            let moves = self.legal_move_seq();
            self.perft_below(moves, (depth - 1) as nat, moves.len())
        }
    }

    /// The number of ways to play one of the first `n` of the given moves and
    /// then `depth` half-moves more.
    pub open spec fn perft_below(self, moves: Seq<Move>, depth: nat, n: nat) -> nat
        decreases depth, 1nat, n,
    {
        if n == 0 {
            0
        } else {
            self.perft_below(moves, depth, (n - 1) as nat) + self.after(
                moves[n - 1],
            ).perft_count(depth)
        }
    }

    /// With no half-move left after it, every move counts once.
    pub proof fn lemma_perft_one(self, moves: Seq<Move>, n: nat)
        ensures
            self.perft_below(moves, 0, n) == n,
        decreases n,
    {
        if n > 0 {
            self.lemma_perft_one(moves, (n - 1) as nat);
            assert(self.after(moves[n - 1]).perft_count(0) == 1);
        }
    }

    /// Counts the ways to play `depth` half-moves from here. The count stops at
    /// the largest number that fits.
    pub fn perft(&self, tables: &Tables, depth: u32) -> (nodes: u64)
        ensures
            nodes == if self.perft_count(depth as nat) <= u64::MAX {
                self.perft_count(depth as nat)
            } else {
                u64::MAX as nat
            },
        decreases depth,
    {
        if depth == 0 {
            return 1;
        }
        let moves = self.legal_moves(tables);
        if depth == 1 {
            proof {
                self.lemma_perft_one(moves@, moves@.len());
            }
            return moves.len() as u64;
        }
        let mut nodes: u64 = 0;
        let mut i: usize = 0;
        while i < moves.len()
            invariant
                i <= moves.len(),
                depth > 1,
                moves@ == self.legal_move_seq(),
                nodes == if self.perft_below(moves@, (depth - 1) as nat, i as nat) <= u64::MAX {
                    self.perft_below(moves@, (depth - 1) as nat, i as nat)
                } else {
                    u64::MAX as nat
                },
            decreases moves.len() - i,
        {
            let child: u64 = self.make_move(moves[i]).perft(tables, depth - 1);
            nodes = if child > u64::MAX - nodes {
                u64::MAX
            } else {
                nodes + child
            };
            i = i + 1;
        }
        nodes
    }
}

} // verus!
