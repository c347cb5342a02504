//! Legal move generation: one pass over the opposing pieces finds the attacked
//! cells, the checks, the cells that parry a check and the pinned pieces; the
//! moves of each kind of piece follow from those masks.
use vstd::prelude::*;
use crate::bitboard::{
    bit, lemma_pending_start, lowest, on_board, pending, rank_of, single, Bitboard, Direction,
    Square,
};
use crate::constants::{
    between_mask, castle_masks, free_king_castle, free_queen_castle, king_mask,
    safe_king_castle, safe_queen_castle, slide_masks, Line, Tables,
};
use crate::pieces::{Piece, Pieces};
use crate::position::{
    attacks_from, attacks_of, between, count_over, intersects, lemma_count_skip,
    lemma_union_skip, next_cell, piece_attack, piece_mask, union_over, Board, Position,
};
use crate::repr::{Color, Move};

verus! {

/// The moves `f(s)` of the cells `s` below `n` that are in the mask `from`, one
/// cell after the other from the lowest up.
pub open spec fn moves_over(from: u64, f: spec_fn(int) -> Seq<Move>, n: int) -> Seq<Move>
    decreases n,
{
    if n <= 0 {
        Seq::empty()
    } else if bit(from, n - 1) {
        moves_over(from, f, n - 1) + f(n - 1)
    } else {
        moves_over(from, f, n - 1)
    }
}

/// Cells that are not in the mask add no moves.
pub proof fn lemma_moves_skip(from: u64, f: spec_fn(int) -> Seq<Move>, m: int, n: int)
    requires
        0 <= m <= n,
        forall|j: int| m <= j < n ==> !bit(from, j),
    ensures
        moves_over(from, f, n) == moves_over(from, f, m),
    decreases n - m,
{
    if m < n {
        lemma_moves_skip(from, f, m, n - 1);
    }
}

/// Whether `mid` lies strictly between `a` and `b`.
pub open spec fn strictly_between(a: int, mid: int, b: int) -> bool {
    (a < mid && mid < b) || (b < mid && mid < a)
}

/// Whether a piece of the given kind and colour on cell `a`, one that attacks
/// the same cells whatever stands in between, attacks cell `k`.
pub open spec fn contact_check(piece: Piece, color: Color, occupied: u64, k: int, a: int) -> bool {
    piece_mask(piece, color, occupied, a) & single(k) != 0
}

pub open spec fn contact_check_fn(piece: Piece, color: Color, occupied: u64, k: int) -> spec_fn(
    int,
) -> bool {
    |a: int| contact_check(piece, color, occupied, k, a)
}

/// The cells on which a check from such a piece on cell `a` can be parried: the
/// cell `a` itself if it gives check, none if it does not.
pub open spec fn contact_block(piece: Piece, color: Color, occupied: u64, k: int, a: int) -> u64 {
    if contact_check(piece, color, occupied, k, a) {
        single(a)
    } else {
        0
    }
}

pub open spec fn contact_block_fn(piece: Piece, color: Color, occupied: u64, k: int) -> spec_fn(
    int,
) -> u64 {
    |a: int| contact_block(piece, color, occupied, k, a)
}

/// The cells that a slider on cell `a` attacks along its lines of two families.
pub open spec fn slide_attack(a1: Line, a2: Line, occupied: u64, a: int) -> u64 {
    slide_masks(a1, occupied, a).0 | slide_masks(a2, occupied, a).0
}

pub open spec fn slide_attack_fn(a1: Line, a2: Line, occupied: u64) -> spec_fn(int) -> u64 {
    |a: int| slide_attack(a1, a2, occupied, a)
}

/// Whether a slider on cell `a` attacks cell `k` along its line of the family
/// `axis`.
pub open spec fn slide_check(axis: Line, occupied: u64, k: int, a: int) -> bool {
    slide_masks(axis, occupied, a).0 & single(k) != 0
}

pub open spec fn slide_check_fn(axis: Line, occupied: u64, k: int) -> spec_fn(int) -> bool {
    |a: int| slide_check(axis, occupied, k, a)
}

/// The cells on which a check from a slider on cell `a` along its line of the
/// family `axis` can be parried: the cell `a` and the attacked cells from it to
/// the king's cell `k`; none if it gives no check along that line.
pub open spec fn slide_block(axis: Line, occupied: u64, k: int, a: int) -> u64 {
    if slide_check(axis, occupied, k, a) {
        (slide_masks(axis, occupied, a).0 & between_mask(
            axis.crossing(),
            axis.crossing().index_of(a),
            axis.crossing().index_of(k),
        )) | single(a)
    } else {
        0
    }
}

pub open spec fn slide_block_fn(a1: Line, a2: Line, occupied: u64, k: int) -> spec_fn(int) -> u64 {
    |a: int| slide_block(a1, occupied, k, a) | slide_block(a2, occupied, k, a)
}

/// Whether the slider on cell `a` pins the piece on cell `s` to the king on
/// cell `k` along its line of the family `axis`: the king is behind the
/// slider's first blocker, and that blocker is a piece of the king's side, of
/// the mask `own`, on cell `s` between the two.
pub open spec fn slide_pins(axis: Line, occupied: u64, own: u64, k: int, a: int, s: int) -> bool {
    &&& slide_masks(axis, occupied, a).1 & single(k) != 0
    &&& bit(own & slide_masks(axis, occupied, a).0, s)
    &&& strictly_between(
        axis.crossing().index_of(k),
        axis.crossing().index_of(s),
        axis.crossing().index_of(a),
    )
}

/// The cells left to the piece on cell `s`, of those in `prev`, by the slider
/// on cell `a` and its line of the family `axis`: those on that line if the
/// slider pins the piece, all of them if not.
pub open spec fn pin_step(
    prev: u64,
    axis: Line,
    occupied: u64,
    own: u64,
    k: int,
    a: int,
    s: int,
) -> u64 {
    if slide_pins(axis, occupied, own, k, a, s) {
        prev & axis.mask(axis.index_of(s))
    } else {
        prev
    }
}

/// The cells left to the piece on cell `s`, of those in `init`, by the sliders
/// on the cells of `from` below `n`, each along its lines of two families.
pub open spec fn pins_over(
    from: u64,
    a1: Line,
    a2: Line,
    occupied: u64,
    own: u64,
    k: int,
    s: int,
    n: int,
    init: u64,
) -> u64
    decreases n,
{
    if n <= 0 {
        init
    } else {
        let prev = pins_over(from, a1, a2, occupied, own, k, s, n - 1, init);
        if bit(from, n - 1) {
            pin_step(pin_step(prev, a1, occupied, own, k, n - 1, s), a2, occupied, own, k, n - 1, s)
        } else {
            prev
        }
    }
}

/// Cells that hold no slider pin nothing.
pub proof fn lemma_pins_skip(
    from: u64,
    a1: Line,
    a2: Line,
    occupied: u64,
    own: u64,
    k: int,
    s: int,
    m: int,
    n: int,
    init: u64,
)
    requires
        0 <= m <= n,
        forall|j: int| m <= j < n ==> !bit(from, j),
    ensures
        pins_over(from, a1, a2, occupied, own, k, s, n, init) == pins_over(
            from,
            a1,
            a2,
            occupied,
            own,
            k,
            s,
            m,
            init,
        ),
    decreases n - m,
{
    if m < n {
        lemma_pins_skip(from, a1, a2, occupied, own, k, s, m, n - 1, init);
    }
}

/// The move of a piece from one cell to another.
pub open spec fn step_fn(src: Square, piece: Piece) -> spec_fn(int) -> Seq<Move> {
    |d: int| seq![Move::Normal(src, Square::of(d), piece)]
}

/// The moves of a piece from the cell `src` to each cell of `targets`.
pub open spec fn moves_to(src: Square, piece: Piece, targets: u64) -> Seq<Move> {
    moves_over(targets, step_fn(src, piece), 64)
}

/// The four promotions of a pawn that advances straight.
pub open spec fn promotions(src: Square, dst: Square) -> Seq<Move> {
    seq![
        Move::Promotion(src, dst, Piece::Queen),
        Move::Promotion(src, dst, Piece::Rook),
        Move::Promotion(src, dst, Piece::Knight),
        Move::Promotion(src, dst, Piece::Bishop),
    ]
}

/// The four promotions of a pawn that captures.
pub open spec fn capture_promotions(src: Square, dst: Square) -> Seq<Move> {
    seq![
        Move::Promotion(src, dst, Piece::Queen),
        Move::Promotion(src, dst, Piece::Rook),
        Move::Promotion(src, dst, Piece::Bishop),
        Move::Promotion(src, dst, Piece::Knight),
    ]
}

impl Position {
    /// Whether the side to move has a king.
    pub open spec fn has_king(self) -> bool {
        self.own().kings.0 != 0
    }

    /// The cell of the king of the side to move: the lowest, should there be
    /// several kings.
    pub open spec fn king_cell(self) -> int {
        lowest(self.own().kings.0)
    }

    /// The occupied cells, the cell of the king of the side to move left out: a
    /// slider that gives check attacks the cells behind the king too.
    pub open spec fn behind_king(self) -> u64 {
        self.board.all() & !single(self.king_cell())
    }

    /// The cells of the opposing rooks and queens.
    pub open spec fn orthogonal(self) -> u64 {
        self.enemy().rooks.0 | self.enemy().queens.0
    }

    /// The cells of the opposing bishops and queens.
    pub open spec fn diagonal(self) -> u64 {
        self.enemy().bishops.0 | self.enemy().queens.0
    }

    /// The cells that the other side attacks once the king of the side to move is
    /// lifted from the board.
    pub open spec fn attacked(self) -> u64 {
        let them = self.turn.opposite();
        let occ = self.behind_king();
        attacks_of(Piece::Pawn, them, occ, self.enemy().pawns.0) | attacks_of(
            Piece::Knight,
            them,
            occ,
            self.enemy().knights.0,
        ) | union_over(self.orthogonal(), slide_attack_fn(Line::Rank, Line::File, occ), 64)
            | union_over(self.diagonal(), slide_attack_fn(Line::MainDiag, Line::SecondDiag, occ), 64)
            | attacks_of(Piece::King, them, occ, self.enemy().kings.0)
    }

    /// The number of checks: of opposing pawns and knights that attack the king,
    /// and of lines along which an opposing slider attacks it.
    pub open spec fn checks(self) -> nat {
        let them = self.turn.opposite();
        let occ = self.behind_king();
        let k = self.king_cell();
        count_over(self.enemy().pawns.0, contact_check_fn(Piece::Pawn, them, occ, k), 64)
            + count_over(self.enemy().knights.0, contact_check_fn(Piece::Knight, them, occ, k), 64)
            + count_over(self.orthogonal(), slide_check_fn(Line::Rank, occ, k), 64) + count_over(
            self.orthogonal(),
            slide_check_fn(Line::File, occ, k),
            64,
        ) + count_over(self.diagonal(), slide_check_fn(Line::MainDiag, occ, k), 64) + count_over(
            self.diagonal(),
            slide_check_fn(Line::SecondDiag, occ, k),
            64,
        )
    }

    /// The cells on which some check can be parried by a capture or by a piece
    /// put in between.
    pub open spec fn blocks(self) -> u64 {
        let them = self.turn.opposite();
        let occ = self.behind_king();
        let k = self.king_cell();
        union_over(self.enemy().pawns.0, contact_block_fn(Piece::Pawn, them, occ, k), 64)
            | union_over(self.enemy().knights.0, contact_block_fn(Piece::Knight, them, occ, k), 64)
            | union_over(self.orthogonal(), slide_block_fn(Line::Rank, Line::File, occ, k), 64)
            | union_over(
            self.diagonal(),
            slide_block_fn(Line::MainDiag, Line::SecondDiag, occ, k),
            64,
        )
    }

    /// The cells to which a piece other than the king may go as far as checks are
    /// concerned: every cell when there is no check, else the cells that parry
    /// the check.
    pub open spec fn protect(self) -> u64 {
        if self.checks() == 0 {
            u64::MAX
        } else {
            self.blocks()
        }
    }

    /// The cells to which the piece on cell `s` may go as far as pins are
    /// concerned: every cell if it is not pinned, else the line that it is pinned
    /// on.
    pub open spec fn pin_mask(self, s: int) -> u64 {
        let occ = self.behind_king();
        let own = self.own().all();
        let k = self.king_cell();
        pins_over(
            self.diagonal(),
            Line::MainDiag,
            Line::SecondDiag,
            occ,
            own,
            k,
            s,
            64,
            pins_over(self.orthogonal(), Line::Rank, Line::File, occ, own, k, s, 64, u64::MAX),
        )
    }

    /// The cells that the king may go to.
    pub open spec fn king_targets(self) -> u64 {
        king_mask(self.king_cell()) & !self.attacked() & !self.own().all()
    }

    /// The cells that a knight, bishop, rook or queen on cell `s` may go to.
    pub open spec fn targets(self, piece: Piece, s: int) -> u64 {
        piece_mask(piece, self.turn, self.board.all(), s) & self.protect() & !self.own().all()
            & self.pin_mask(s)
    }

    pub open spec fn piece_moves_fn(self, piece: Piece) -> spec_fn(int) -> Seq<Move> {
        |s: int| moves_to(Square::of(s), piece, self.targets(piece, s))
    }

    /// The moves of the knights, bishops, rooks or queens of the side to move.
    pub open spec fn piece_moves(self, piece: Piece) -> Seq<Move> {
        moves_over(self.own().mask(piece), self.piece_moves_fn(piece), 64)
    }

    /// The direction from which the pawns of the side to move come.
    pub open spec fn backward(self) -> Direction {
        Direction::pawn_spec(self.turn.opposite())
    }

    /// The rank on which the pawns of the side to move promote.
    pub open spec fn last_rank(self) -> int {
        match self.turn {
            Color::White => 7,
            Color::Black => 0,
        }
    }

    /// The empty cells just in front of a pawn of the side to move.
    pub open spec fn single_pushes(self) -> u64 {
        match self.turn {
            Color::White => (self.own().pawns.0 << 8) & !self.board.all(),
            Color::Black => (self.own().pawns.0 >> 8) & !self.board.all(),
        }
    }

    /// The cells two steps in front of a pawn that has not moved and has an empty
    /// cell before it.
    pub open spec fn double_pushes(self) -> u64 {
        match self.turn {
            Color::White => (self.single_pushes() << 8) & Line::Rank.mask(3),
            Color::Black => (self.single_pushes() >> 8) & Line::Rank.mask(4),
        }
    }

    /// The empty cells that a pawn on cell `src` may advance to as far as checks
    /// and pins are concerned.
    pub open spec fn push_allowed(self, src: int) -> u64 {
        self.protect() & !self.board.all() & self.pin_mask(src)
    }

    /// The moves of the pawn that advances one step to cell `dst`.
    pub open spec fn single_push_to(self, dst: int) -> Seq<Move> {
        match self.backward().step_from(dst) {
            None => Seq::empty(),
            Some(src) => if bit(self.push_allowed(src), dst) {
                if rank_of(dst) == self.last_rank() {
                    promotions(Square::of(src), Square::of(dst))
                } else {
                    seq![Move::Normal(Square::of(src), Square::of(dst), Piece::Pawn)]
                }
            } else {
                Seq::empty()
            },
        }
    }

    pub open spec fn single_push_fn(self) -> spec_fn(int) -> Seq<Move> {
        |dst: int| self.single_push_to(dst)
    }

    /// The moves of the pawn that advances two steps to cell `dst`.
    pub open spec fn double_push_to(self, dst: int) -> Seq<Move> {
        match self.backward().step_from(dst) {
            None => Seq::empty(),
            Some(mid) => match self.backward().step_from(mid) {
                None => Seq::empty(),
                Some(src) => if bit(self.push_allowed(src), dst) {
                    seq![Move::Normal(Square::of(src), Square::of(dst), Piece::Pawn)]
                } else {
                    Seq::empty()
                },
            },
        }
    }

    pub open spec fn double_push_fn(self) -> spec_fn(int) -> Seq<Move> {
        |dst: int| self.double_push_to(dst)
    }

    /// The mask of the cell that a pawn has just passed, if any.
    pub open spec fn en_passant_mask(self) -> u64 {
        match self.en_passant {
            None => 0,
            Some(sq) => single(sq.idx()),
        }
    }

    /// The cells that a pawn on cell `src` may capture on.
    pub open spec fn capture_targets(self, src: int) -> u64 {
        piece_mask(Piece::Pawn, self.turn, self.board.all(), src) & ((self.protect()
            & self.enemy().all() & self.pin_mask(src)) | self.en_passant_mask())
    }

    /// The board after the pawn on cell `src` has captured in passing on cell
    /// `dst`: the pawn stands on `dst`, and the opposing pawn behind `dst` is gone.
    pub open spec fn en_passant_board(self, src: int, dst: int) -> Board {
        let mine = self.own().with_mask(
            Piece::Pawn,
            (self.own().pawns.0 & !single(src)) | single(dst),
        );
        let theirs = match self.backward().step_from(dst) {
            Some(c) => self.enemy().with_mask(Piece::Pawn, self.enemy().pawns.0 & !single(c)),
            None => self.enemy(),
        };
        self.board.with(self.turn, mine).with(self.turn.opposite(), theirs)
    }

    /// The moves of the pawn on cell `src` that captures on cell `dst`. A capture
    /// in passing is a move only if it leaves the king out of check.
    pub open spec fn capture_to(self, src: int, dst: int) -> Seq<Move> {
        if self.en_passant == Some(Square::of(dst)) {
            if self.en_passant_board(src, dst).checked(self.turn) {
                Seq::empty()
            } else {
                seq![Move::EnPassant(Square::of(src), Square::of(dst))]
            }
        } else if rank_of(dst) == self.last_rank() {
            capture_promotions(Square::of(src), Square::of(dst))
        } else {
            seq![Move::Normal(Square::of(src), Square::of(dst), Piece::Pawn)]
        }
    }

    pub open spec fn capture_to_fn(self, src: int) -> spec_fn(int) -> Seq<Move> {
        |dst: int| self.capture_to(src, dst)
    }

    pub open spec fn captures_fn(self) -> spec_fn(int) -> Seq<Move> {
        |src: int| moves_over(self.capture_targets(src), self.capture_to_fn(src), 64)
    }

    /// Whether the side to move may castle on the king's side: it has the right,
    /// no cell that the king stands on or crosses is attacked, and the cells
    /// between king and rook are empty.
    pub open spec fn can_castle_kingside(self) -> bool {
        &&& self.castling_rights.of(self.turn).kingside
        &&& safe_king_castle(self.turn) & self.attacked() == 0
        &&& free_king_castle(self.turn) & self.board.all() == 0
    }

    /// Whether the side to move may castle on the queen's side.
    pub open spec fn can_castle_queenside(self) -> bool {
        &&& self.castling_rights.of(self.turn).queenside
        &&& safe_queen_castle(self.turn) & self.attacked() == 0
        &&& free_queen_castle(self.turn) & self.board.all() == 0
    }

    /// The castling moves.
    pub open spec fn castle_moves(self) -> Seq<Move> {
        (if self.can_castle_kingside() {
            seq![Move::KingsideCastle]
        } else {
            Seq::empty()
        }) + (if self.can_castle_queenside() {
            seq![Move::QueensideCastle]
        } else {
            Seq::empty()
        })
    }

    /// The legal moves, in the order in which they are generated: those of the
    /// king; then, unless there are two checks or more, those of the knights,
    /// bishops, rooks and queens, the single and the double steps of the pawns,
    /// their captures, and the castling moves. None without a king.
    pub open spec fn legal_move_seq(self) -> Seq<Move> {
        if !self.has_king() {
            Seq::empty()
        } else {
            let king = moves_to(Square::of(self.king_cell()), Piece::King, self.king_targets());
            if self.checks() > 1 {
                king
            } else {
                king + self.piece_moves(Piece::Knight) + self.piece_moves(Piece::Bishop)
                    + self.piece_moves(Piece::Rook) + self.piece_moves(Piece::Queen) + moves_over(
                    self.single_pushes(),
                    self.single_push_fn(),
                    64,
                ) + moves_over(self.double_pushes(), self.double_push_fn(), 64) + moves_over(
                    self.own().pawns.0,
                    self.captures_fn(),
                    64,
                ) + self.castle_moves()
            }
        }
    }
}


/// What one pass over the opposing pieces finds: the attacked cells, the number
/// of checks, the cells that parry a check, and for each cell the cells that a
/// pin leaves to the piece on it.
pub struct Threats {
    pub attacked: u64,
    pub checks: u32,
    pub protect: u64,
    pub pins: Vec<u64>,
}

/// The attacks and checks of the opposing pawns or knights on the cells of
/// `from`: the cells they attack, how many of them attack the king, and the
/// cells of those that do.
fn contact_threats(
    tables: &Tables,
    piece: Piece,
    color: Color,
    occupied: u64,
    from: u64,
    king: Square,
) -> (r: (u64, u32, u64))
    ensures
        r.0 == attacks_of(piece, color, occupied, from),
        r.1 == count_over(from, contact_check_fn(piece, color, occupied, king.idx()), 64),
        r.1 <= 64,
        r.2 == union_over(from, contact_block_fn(piece, color, occupied, king.idx()), 64),
{
    let ghost f = crate::position::piece_mask_fn(piece, color, occupied);
    let ghost p = contact_check_fn(piece, color, occupied, king.idx());
    let ghost g = contact_block_fn(piece, color, occupied, king.idx());
    let kb: u64 = king.to_bitboard().0;
    let mut rest = Bitboard(from).squares();
    let mut attacked: u64 = 0;
    let mut checks: u32 = 0;
    let mut block: u64 = 0;
    let ghost mut done: int = 0;
    proof {
        lemma_pending_start(from);
    }
    loop
        invariant
            0 <= done <= 64,
            f == crate::position::piece_mask_fn(piece, color, occupied),
            p == contact_check_fn(piece, color, occupied, king.idx()),
            g == contact_block_fn(piece, color, occupied, king.idx()),
            kb == single(king.idx()),
            pending(from, rest.bitboard.0, done),
            attacked == union_over(from, f, done),
            checks == count_over(from, p, done),
            checks <= done,
            block == union_over(from, g, done),
        ensures
            attacked == union_over(from, f, 64),
            checks == count_over(from, p, 64),
            checks <= 64,
            block == union_over(from, g, 64),
        decreases 64 - done,
    {
        match next_cell(&mut rest, Ghost(from), Ghost(done)) {
            None => {
                proof {
                    lemma_union_skip(from, f, done, 64);
                    lemma_count_skip(from, p, done, 64);
                    lemma_union_skip(from, g, done, 64);
                }
                break ;
            },
            Some(a) => {
                let m: u64 = piece_attack(tables, piece, color, Bitboard(occupied), a).0;
                proof {
                    lemma_union_skip(from, f, done, a.idx());
                    lemma_count_skip(from, p, done, a.idx());
                    lemma_union_skip(from, g, done, a.idx());
                    done = a.idx() + 1;
                }
                attacked = attacked | m;
                let check: bool = (m & kb) != 0;
                let b: u64 = if check {
                    a.to_bitboard().0
                } else {
                    0
                };
                if check {
                    checks = checks + 1;
                }
                block = block | b;
            },
        }
    }
    (attacked, checks, block)
}

/// Narrows what a pin leaves to the pieces that the slider on the cell `a`
/// pins along its line of the family `axis`.
fn pin_axis(
    pins: &mut Vec<u64>,
    tables: &Tables,
    axis: Line,
    attack: u64,
    xray: u64,
    own: u64,
    king: Square,
    a: Square,
    Ghost(occupied): Ghost<u64>,
)
    requires
        old(pins)@.len() == 64,
        (attack, xray) == slide_masks(axis, occupied, a.idx()),
    ensures
        final(pins)@.len() == 64,
        forall|s: int|
            0 <= s < 64 ==> #[trigger] final(pins)@[s] == pin_step(
                old(pins)@[s],
                axis,
                occupied,
                own,
                king.idx(),
                a.idx(),
                s,
            ),
{
    let kb: u64 = king.to_bitboard().0;
    if intersects(Bitboard(xray), Bitboard(kb)) {
        let cross = axis.cross();
        let ck: u8 = cross.index(king);
        let ca: u8 = cross.index(a);
        let cand: u64 = own & attack;
        let mut rest = Bitboard(cand).squares();
        let ghost mut done: int = 0;
        proof {
            lemma_pending_start(cand);
        }
        loop
            invariant
                0 <= done <= 64,
                pins@.len() == 64,
                cross == axis.crossing(),
                ck == cross.index_of(king.idx()),
                ca == cross.index_of(a.idx()),
                cand == own & attack,
                kb == single(king.idx()),
                xray & kb != 0,
                (attack, xray) == slide_masks(axis, occupied, a.idx()),
                pending(cand, rest.bitboard.0, done),
                forall|s: int|
                    0 <= s < 64 ==> #[trigger] pins@[s] == (if s < done {
                        pin_step(old(pins)@[s], axis, occupied, own, king.idx(), a.idx(), s)
                    } else {
                        old(pins)@[s]
                    }),
            ensures
                pins@.len() == 64,
                forall|s: int|
                    0 <= s < 64 ==> #[trigger] pins@[s] == pin_step(
                        old(pins)@[s],
                        axis,
                        occupied,
                        own,
                        king.idx(),
                        a.idx(),
                        s,
                    ),
            decreases 64 - done,
        {
            match next_cell(&mut rest, Ghost(cand), Ghost(done)) {
                None => {
                    break ;
                },
                Some(sq) => {
                    let cs: u8 = cross.index(sq);
                    let i: usize = sq.index() as usize;
                    if between(ck, cs, ca) {
                        let line: u64 = axis.line(axis.index(sq)).0;
                        let narrowed: u64 = pins[i] & line;
                        pins.set(i, narrowed);
                    }
                    proof {
                        done = sq.idx() + 1;
                    }
                },
            }
        }
    }
}

/// The attacks, checks and pins of the opposing sliders on the cells of `from`,
/// each along its lines of the two families `a1` and `a2`.
fn slide_threats(
    tables: &Tables,
    a1: Line,
    a2: Line,
    occupied: u64,
    own: u64,
    from: u64,
    king: Square,
    pins: &mut Vec<u64>,
) -> (r: (u64, u32, u64))
    requires
        old(pins)@.len() == 64,
    ensures
        r.0 == union_over(from, slide_attack_fn(a1, a2, occupied), 64),
        r.1 == count_over(from, slide_check_fn(a1, occupied, king.idx()), 64) + count_over(
            from,
            slide_check_fn(a2, occupied, king.idx()),
            64,
        ),
        r.1 <= 128,
        r.2 == union_over(from, slide_block_fn(a1, a2, occupied, king.idx()), 64),
        final(pins)@.len() == 64,
        forall|s: int|
            0 <= s < 64 ==> #[trigger] final(pins)@[s] == pins_over(
                from,
                a1,
                a2,
                occupied,
                own,
                king.idx(),
                s,
                64,
                old(pins)@[s],
            ),
{
    let ghost f = slide_attack_fn(a1, a2, occupied);
    let ghost on_first = slide_check_fn(a1, occupied, king.idx());
    let ghost on_second = slide_check_fn(a2, occupied, king.idx());
    let ghost g = slide_block_fn(a1, a2, occupied, king.idx());
    let ghost k = king.idx();
    let kb: u64 = king.to_bitboard().0;
    let mut rest = Bitboard(from).squares();
    let mut attacked: u64 = 0;
    let mut checks1: u32 = 0;
    let mut checks2: u32 = 0;
    let mut block: u64 = 0;
    let ghost mut done: int = 0;
    proof {
        lemma_pending_start(from);
    }
    loop
        invariant
            0 <= done <= 64,
            f == slide_attack_fn(a1, a2, occupied),
            on_first == slide_check_fn(a1, occupied, king.idx()),
            on_second == slide_check_fn(a2, occupied, king.idx()),
            g == slide_block_fn(a1, a2, occupied, king.idx()),
            k == king.idx(),
            kb == single(k),
            pending(from, rest.bitboard.0, done),
            attacked == union_over(from, f, done),
            checks1 == count_over(from, on_first, done),
            checks2 == count_over(from, on_second, done),
            checks1 <= done,
            checks2 <= done,
            block == union_over(from, g, done),
            pins@.len() == 64,
            forall|s: int|
                0 <= s < 64 ==> #[trigger] pins@[s] == pins_over(
                    from,
                    a1,
                    a2,
                    occupied,
                    own,
                    k,
                    s,
                    done,
                    old(pins)@[s],
                ),
        ensures
            attacked == union_over(from, f, 64),
            checks1 == count_over(from, on_first, 64),
            checks2 == count_over(from, on_second, 64),
            checks1 <= 64,
            checks2 <= 64,
            block == union_over(from, g, 64),
            pins@.len() == 64,
            forall|s: int|
                0 <= s < 64 ==> #[trigger] pins@[s] == pins_over(
                    from,
                    a1,
                    a2,
                    occupied,
                    own,
                    k,
                    s,
                    64,
                    old(pins)@[s],
                ),
        decreases 64 - done,
    {
        match next_cell(&mut rest, Ghost(from), Ghost(done)) {
            None => {
                proof {
                    lemma_union_skip(from, f, done, 64);
                    lemma_count_skip(from, on_first, done, 64);
                    lemma_count_skip(from, on_second, done, 64);
                    lemma_union_skip(from, g, done, 64);
                    assert forall|s: int| 0 <= s < 64 implies #[trigger] pins@[s] == pins_over(
                        from,
                        a1,
                        a2,
                        occupied,
                        own,
                        k,
                        s,
                        64,
                        old(pins)@[s],
                    ) by {
                        lemma_pins_skip(from, a1, a2, occupied, own, k, s, done, 64, old(pins)@[s]);
                    }
                }
                break ;
            },
            Some(a) => {
                let ghost before = pins@;
                let e1 = tables.slide(a1, a, Bitboard(occupied));
                let e2 = tables.slide(a2, a, Bitboard(occupied));
                let ab: u64 = a.to_bitboard().0;
                proof {
                    lemma_union_skip(from, f, done, a.idx());
                    lemma_count_skip(from, on_first, done, a.idx());
                    lemma_count_skip(from, on_second, done, a.idx());
                    lemma_union_skip(from, g, done, a.idx());
                    assert forall|s: int| 0 <= s < 64 implies #[trigger] before[s] == pins_over(
                        from,
                        a1,
                        a2,
                        occupied,
                        own,
                        k,
                        s,
                        a.idx(),
                        old(pins)@[s],
                    ) by {
                        lemma_pins_skip(
                            from,
                            a1,
                            a2,
                            occupied,
                            own,
                            k,
                            s,
                            done,
                            a.idx(),
                            old(pins)@[s],
                        );
                    }
                }
                attacked = attacked | (e1.0.0 | e2.0.0);
                let c1: bool = (e1.0.0 & kb) != 0;
                let c2: bool = (e2.0.0 & kb) != 0;
                let b1: u64 = if c1 {
                    (e1.0.0 & tables.between(a1.cross(), a, king).0) | ab
                } else {
                    0
                };
                let b2: u64 = if c2 {
                    (e2.0.0 & tables.between(a2.cross(), a, king).0) | ab
                } else {
                    0
                };
                if c1 {
                    checks1 = checks1 + 1;
                }
                if c2 {
                    checks2 = checks2 + 1;
                }
                block = block | (b1 | b2);
                pin_axis(pins, tables, a1, e1.0.0, e1.1.0, own, king, a, Ghost(occupied));
                let ghost middle = pins@;
                pin_axis(pins, tables, a2, e2.0.0, e2.1.0, own, king, a, Ghost(occupied));
                proof {
                    assert forall|s: int| 0 <= s < 64 implies #[trigger] pins@[s] == pins_over(
                        from,
                        a1,
                        a2,
                        occupied,
                        own,
                        k,
                        s,
                        a.idx() + 1,
                        old(pins)@[s],
                    ) by {
                        assert(middle[s] == pin_step(before[s], a1, occupied, own, k, a.idx(), s));
                    }
                    done = a.idx() + 1;
                }
            },
        }
    }
    (attacked, checks1 + checks2, block)
}

/// Appends the moves of a piece from the cell `src` to each cell of `targets`.
fn push_targets(moves: &mut Vec<Move>, src: Square, piece: Piece, targets: u64)
    ensures
        final(moves)@ == old(moves)@ + moves_to(src, piece, targets),
{
    let ghost f = step_fn(src, piece);
    let mut rest = Bitboard(targets).squares();
    let ghost mut done: int = 0;
    proof {
        lemma_pending_start(targets);
        assert(moves@ =~= old(moves)@ + moves_over(targets, f, 0));
    }
    loop
        invariant
            0 <= done <= 64,
            f == step_fn(src, piece),
            pending(targets, rest.bitboard.0, done),
            moves@ == old(moves)@ + moves_over(targets, f, done),
        ensures
            moves@ == old(moves)@ + moves_over(targets, f, 64),
        decreases 64 - done,
    {
        match next_cell(&mut rest, Ghost(targets), Ghost(done)) {
            None => {
                proof {
                    lemma_moves_skip(targets, f, done, 64);
                }
                break ;
            },
            Some(dst) => {
                proof {
                    lemma_moves_skip(targets, f, done, dst.idx());
                    dst.lemma_idx();
                    assert(moves@.push(Move::Normal(src, dst, piece)) =~= old(moves)@ + moves_over(
                        targets,
                        f,
                        dst.idx() + 1,
                    ));
                    done = dst.idx() + 1;
                }
                moves.push(Move::Normal(src, dst, piece));
            },
        }
    }
}

impl Position {
    /// Whether `t` holds what the pass over the opposing pieces finds here.
    pub open spec fn found(self, t: Threats) -> bool {
        &&& t.attacked == self.attacked()
        &&& t.checks == self.checks()
        &&& t.protect == self.protect()
        &&& t.pins@.len() == 64
        &&& forall|s: int| 0 <= s < 64 ==> #[trigger] t.pins@[s] == self.pin_mask(s)
    }

    /// The pass over the opposing pieces, for the king on the given cell.
    pub fn threats(&self, tables: &Tables, king: Square) -> (t: Threats)
        requires
            self.has_king(),
            king.idx() == self.king_cell(),
        ensures
            self.found(t),
    {
        let them = self.turn.other();
        let enemy: Pieces = *self.board.get(them);
        let own: u64 = self.board.get(self.turn).occupied().0;
        let mut lifted = self.board.occupied();
        lifted.unset(king);
        let occ: u64 = lifted.0;
        let mut pins: Vec<u64> = Vec::new();
        let mut i: u8 = 0;
        while i < 64
            invariant
                i <= 64,
                pins@.len() == i,
                forall|s: int| 0 <= s < i ==> #[trigger] pins@[s] == u64::MAX,
            decreases 64 - i,
        {
            pins.push(u64::MAX);
            i = i + 1;
        }
        let pawns = contact_threats(tables, Piece::Pawn, them, occ, enemy.pawns.0, king);
        let knights = contact_threats(tables, Piece::Knight, them, occ, enemy.knights.0, king);
        let ghost start = pins@;
        let orthogonal = slide_threats(
            tables,
            Line::Rank,
            Line::File,
            occ,
            own,
            enemy.rooks.0 | enemy.queens.0,
            king,
            &mut pins,
        );
        let ghost middle = pins@;
        let diagonal = slide_threats(
            tables,
            Line::MainDiag,
            Line::SecondDiag,
            occ,
            own,
            enemy.bishops.0 | enemy.queens.0,
            king,
            &mut pins,
        );
        let kings = attacks_from(tables, Piece::King, them, lifted, enemy.kings);
        let attacked: u64 = pawns.0 | knights.0 | orthogonal.0 | diagonal.0 | kings.0;
        let checks: u32 = pawns.1 + knights.1 + orthogonal.1 + diagonal.1;
        let blocks: u64 = pawns.2 | knights.2 | orthogonal.2 | diagonal.2;
        let protect: u64 = if checks == 0 {
            u64::MAX
        } else {
            blocks
        };
        proof {
            assert forall|s: int| 0 <= s < 64 implies #[trigger] pins@[s] == self.pin_mask(s) by {
                assert(start[s] == u64::MAX);
                assert(middle[s] == pins_over(
                    self.orthogonal(),
                    Line::Rank,
                    Line::File,
                    occ,
                    own,
                    king.idx(),
                    s,
                    64,
                    start[s],
                ));
            }
        }
        Threats { attacked, checks, protect, pins }
    }

    /// Appends the moves of the knights, bishops, rooks or queens.
    fn push_piece_moves(&self, tables: &Tables, t: &Threats, piece: Piece, moves: &mut Vec<Move>)
        requires
            self.found(*t),
        ensures
            final(moves)@ == old(moves)@ + self.piece_moves(piece),
    {
        let ghost f = self.piece_moves_fn(piece);
        let from: u64 = self.board.get(self.turn).get(piece).0;
        let occupied = self.board.occupied();
        let own: u64 = self.board.get(self.turn).occupied().0;
        let mut rest = Bitboard(from).squares();
        let ghost mut done: int = 0;
        proof {
            lemma_pending_start(from);
            assert(moves@ =~= old(moves)@ + moves_over(from, f, 0));
        }
        loop
            invariant
                0 <= done <= 64,
                self.found(*t),
                f == self.piece_moves_fn(piece),
                from == self.own().mask(piece),
                occupied.0 == self.board.all(),
                own == self.own().all(),
                pending(from, rest.bitboard.0, done),
                moves@ == old(moves)@ + moves_over(from, f, done),
            ensures
                moves@ == old(moves)@ + moves_over(from, f, 64),
            decreases 64 - done,
        {
            match next_cell(&mut rest, Ghost(from), Ghost(done)) {
                None => {
                    proof {
                        lemma_moves_skip(from, f, done, 64);
                    }
                    break ;
                },
                Some(src) => {
                    let ghost before = moves@;
                    let reach: u64 = piece_attack(tables, piece, self.turn, occupied, src).0;
                    let targets: u64 = reach & t.protect & !own & t.pins[src.index() as usize];
                    push_targets(moves, src, piece, targets);
                    proof {
                        lemma_moves_skip(from, f, done, src.idx());
                        src.lemma_idx();
                        assert(targets == self.targets(piece, src.idx()));
                        assert(moves@ =~= old(moves)@ + moves_over(from, f, src.idx() + 1));
                        done = src.idx() + 1;
                    }
                },
            }
        }
    }

    /// Appends the single steps of the pawns, or their double steps.
    fn push_pawn_steps(&self, t: &Threats, double: bool, moves: &mut Vec<Move>)
        requires
            self.found(*t),
        ensures
            final(moves)@ == old(moves)@ + (if double {
                moves_over(self.double_pushes(), self.double_push_fn(), 64)
            } else {
                moves_over(self.single_pushes(), self.single_push_fn(), 64)
            }),
    {
        let pawns: u64 = self.board.get(self.turn).pawns.0;
        let occ: u64 = self.board.occupied().0;
        let back = Direction::pawn(self.turn.other());
        let last: u8 = match self.turn {
            Color::White => 7,
            Color::Black => 0,
        };
        let single: u64 = match self.turn {
            Color::White => (pawns << 8) & !occ,
            Color::Black => (pawns >> 8) & !occ,
        };
        let from: u64 = if double {
            match self.turn {
                Color::White => (single << 8) & Line::Rank.line(3).0,
                Color::Black => (single >> 8) & Line::Rank.line(4).0,
            }
        } else {
            single
        };
        let ghost f = if double {
            self.double_push_fn()
        } else {
            self.single_push_fn()
        };
        let mut rest = Bitboard(from).squares();
        let ghost mut done: int = 0;
        proof {
            lemma_pending_start(from);
            assert(moves@ =~= old(moves)@ + moves_over(from, f, 0));
        }
        loop
            invariant
                0 <= done <= 64,
                self.found(*t),
                f == (if double {
                    self.double_push_fn()
                } else {
                    self.single_push_fn()
                }),
                from == (if double {
                    self.double_pushes()
                } else {
                    self.single_pushes()
                }),
                occ == self.board.all(),
                back == self.backward(),
                last == self.last_rank(),
                pending(from, rest.bitboard.0, done),
                moves@ == old(moves)@ + moves_over(from, f, done),
            ensures
                moves@ == old(moves)@ + moves_over(from, f, 64),
            decreases 64 - done,
        {
            match next_cell(&mut rest, Ghost(from), Ghost(done)) {
                None => {
                    proof {
                        lemma_moves_skip(from, f, done, 64);
                    }
                    break ;
                },
                Some(dst) => {
                    let ghost before = moves@;
                    proof {
                        lemma_moves_skip(from, f, done, dst.idx());
                        dst.lemma_idx();
                    }
                    let first = dst.step(back);
                    let origin = if double {
                        match first {
                            Some(mid) => mid.step(back),
                            None => None,
                        }
                    } else {
                        first
                    };
                    match origin {
                        None => {},
                        Some(src) => {
                            proof {
                                src.lemma_idx();
                            }
                            let allowed: u64 = t.protect & !occ & t.pins[src.index() as usize];
                            if Bitboard(allowed).at(dst) {
                                if !double && dst.rank() == last {
                                    moves.push(Move::Promotion(src, dst, Piece::Queen));
                                    moves.push(Move::Promotion(src, dst, Piece::Rook));
                                    moves.push(Move::Promotion(src, dst, Piece::Knight));
                                    moves.push(Move::Promotion(src, dst, Piece::Bishop));
                                } else {
                                    moves.push(Move::Normal(src, dst, Piece::Pawn));
                                }
                            }
                        },
                    }
                    proof {
                        assert(moves@ =~= before + f(dst.idx()));
                        assert(moves@ =~= old(moves)@ + moves_over(from, f, dst.idx() + 1));
                        done = dst.idx() + 1;
                    }
                },
            }
        }
    }

    /// Appends the captures of the pawn on the cell `src` on the cells of
    /// `targets`.
    fn push_captures_from(
        &self,
        tables: &Tables,
        src: Square,
        targets: u64,
        moves: &mut Vec<Move>,
    )
        ensures
            final(moves)@ == old(moves)@ + moves_over(targets, self.capture_to_fn(src.idx()), 64),
    {
        let ghost f = self.capture_to_fn(src.idx());
        let them = self.turn.other();
        let back = Direction::pawn(them);
        let last: u8 = match self.turn {
            Color::White => 7,
            Color::Black => 0,
        };
        let mut rest = Bitboard(targets).squares();
        let ghost mut done: int = 0;
        proof {
            lemma_pending_start(targets);
            src.lemma_idx();
            assert(moves@ =~= old(moves)@ + moves_over(targets, f, 0));
        }
        loop
            invariant
                0 <= done <= 64,
                f == self.capture_to_fn(src.idx()),
                them == self.turn.opposite(),
                back == self.backward(),
                last == self.last_rank(),
                Square::of(src.idx()) == src,
                pending(targets, rest.bitboard.0, done),
                moves@ == old(moves)@ + moves_over(targets, f, done),
            ensures
                moves@ == old(moves)@ + moves_over(targets, f, 64),
            decreases 64 - done,
        {
            match next_cell(&mut rest, Ghost(targets), Ghost(done)) {
                None => {
                    proof {
                        lemma_moves_skip(targets, f, done, 64);
                    }
                    break ;
                },
                Some(dst) => {
                    let ghost before = moves@;
                    proof {
                        lemma_moves_skip(targets, f, done, dst.idx());
                        dst.lemma_idx();
                    }
                    let passing: bool = match self.en_passant {
                        Some(ep) => {
                            proof {
                                ep.lemma_idx();
                            }
                            ep.index() == dst.index()
                        },
                        None => false,
                    };
                    assert(passing == (self.en_passant == Some(Square::of(dst.idx()))));
                    if passing {
                        let mut mine: Pieces = *self.board.get(self.turn);
                        mine.pawns.unset(src);
                        mine.pawns.set(dst);
                        let mut theirs: Pieces = *self.board.get(them);
                        match dst.step(back) {
                            Some(c) => {
                                theirs.pawns.unset(c);
                            },
                            None => {},
                        }
                        let mut board: Board = self.board;
                        board.put(self.turn, mine);
                        board.put(them, theirs);
                        assert(board == self.en_passant_board(src.idx(), dst.idx()));
                        if !board.in_check(tables, self.turn) {
                            moves.push(Move::EnPassant(src, dst));
                        }
                    } else if dst.rank() == last {
                        moves.push(Move::Promotion(src, dst, Piece::Queen));
                        moves.push(Move::Promotion(src, dst, Piece::Rook));
                        moves.push(Move::Promotion(src, dst, Piece::Bishop));
                        moves.push(Move::Promotion(src, dst, Piece::Knight));
                    } else {
                        moves.push(Move::Normal(src, dst, Piece::Pawn));
                    }
                    proof {
                        assert(moves@ =~= before + f(dst.idx()));
                        assert(moves@ =~= old(moves)@ + moves_over(targets, f, dst.idx() + 1));
                        done = dst.idx() + 1;
                    }
                },
            }
        }
    }

    /// Appends the captures of the pawns.
    fn push_captures(&self, tables: &Tables, t: &Threats, moves: &mut Vec<Move>)
        requires
            self.found(*t),
        ensures
            final(moves)@ == old(moves)@ + moves_over(self.own().pawns.0, self.captures_fn(), 64),
    {
        let ghost f = self.captures_fn();
        let from: u64 = self.board.get(self.turn).pawns.0;
        let occupied = self.board.occupied();
        let theirs: u64 = self.board.get(self.turn.other()).occupied().0;
        let passing: u64 = match self.en_passant {
            None => 0,
            Some(sq) => sq.to_bitboard().0,
        };
        let mut rest = Bitboard(from).squares();
        let ghost mut done: int = 0;
        proof {
            lemma_pending_start(from);
            assert(moves@ =~= old(moves)@ + moves_over(from, f, 0));
        }
        loop
            invariant
                0 <= done <= 64,
                self.found(*t),
                f == self.captures_fn(),
                from == self.own().pawns.0,
                occupied.0 == self.board.all(),
                theirs == self.enemy().all(),
                passing == self.en_passant_mask(),
                pending(from, rest.bitboard.0, done),
                moves@ == old(moves)@ + moves_over(from, f, done),
            ensures
                moves@ == old(moves)@ + moves_over(from, f, 64),
            decreases 64 - done,
        {
            match next_cell(&mut rest, Ghost(from), Ghost(done)) {
                None => {
                    proof {
                        lemma_moves_skip(from, f, done, 64);
                    }
                    break ;
                },
                Some(src) => {
                    let reach: u64 = piece_attack(tables, Piece::Pawn, self.turn, occupied, src).0;
                    let targets: u64 = reach & ((t.protect & theirs & t.pins[src.index() as usize])
                        | passing);
                    self.push_captures_from(tables, src, targets, moves);
                    proof {
                        lemma_moves_skip(from, f, done, src.idx());
                        assert(targets == self.capture_targets(src.idx()));
                        assert(moves@ =~= old(moves)@ + moves_over(from, f, src.idx() + 1));
                        done = src.idx() + 1;
                    }
                },
            }
        }
    }

    /// Appends the castling moves.
    fn push_castles(&self, t: &Threats, moves: &mut Vec<Move>)
        requires
            self.found(*t),
        ensures
            final(moves)@ == old(moves)@ + self.castle_moves(),
    {
        let rights = *self.castling_rights.get(self.turn);
        let occ: u64 = self.board.occupied().0;
        let masks = castle_masks(self.turn);
        if rights.kingside && (masks.0 & t.attacked) == 0 && (masks.1 & occ) == 0 {
            moves.push(Move::KingsideCastle);
        }
        if rights.queenside && (masks.2 & t.attacked) == 0 && (masks.3 & occ) == 0 {
            moves.push(Move::QueensideCastle);
        }
        assert(moves@ =~= old(moves)@ + self.castle_moves());
    }

    /// The legal moves of the side to move, each once: none without a king; in
    /// a well-formed position, the moves that the pieces can make and that
    /// leave the king of the side to move out of check, and no others.
    pub fn legal_moves(&self, tables: &Tables) -> (moves: Vec<Move>)
        ensures
            moves@ == self.legal_move_seq(),
            moves@.no_duplicates(),
            !self.has_king() ==> moves@.len() == 0,
            self.wf() ==> forall|m: Move|
                #![trigger moves@.contains(m)]
                #![trigger self.by_the_rules(m)]
                moves@.contains(m) <==> self.by_the_rules(m),
    {
        proof {
            self.lemma_legal_moves_unique();
            if self.wf() {
                assert forall|m: Move|
                    #![trigger self.legal_move_seq().contains(m)]
                    #![trigger self.by_the_rules(m)]
                    self.legal_move_seq().contains(m) <==> self.by_the_rules(m) by {
                    self.lemma_legal_moves_by_the_rules(m);
                }
            }
        }
        let mut moves: Vec<Move> = Vec::new();
        let kings = self.board.get(self.turn).kings;
        let king = match kings.squares().next() {
            None => {
                return moves;
            },
            Some(sq) => sq,
        };
        proof {
            king.lemma_idx();
        }
        let t = self.threats(tables, king);
        let own: u64 = self.board.get(self.turn).occupied().0;
        let targets: u64 = tables.king(king).0 & !t.attacked & !own;
        push_targets(&mut moves, king, Piece::King, targets);
        assert(moves@ =~= moves_to(Square::of(self.king_cell()), Piece::King, self.king_targets()));
        if t.checks > 1 {
            return moves;
        }
        self.push_piece_moves(tables, &t, Piece::Knight, &mut moves);
        self.push_piece_moves(tables, &t, Piece::Bishop, &mut moves);
        self.push_piece_moves(tables, &t, Piece::Rook, &mut moves);
        self.push_piece_moves(tables, &t, Piece::Queen, &mut moves);
        self.push_pawn_steps(&t, false, &mut moves);
        self.push_pawn_steps(&t, true, &mut moves);
        self.push_captures(tables, &t, &mut moves);
        self.push_castles(&t, &mut moves);
        moves
    }
}

} // verus!
