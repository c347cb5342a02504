//! The rules of the game, stated without the masks of move generation, and the
//! proof that move generation yields the moves that the rules allow, and no
//! others.
use vstd::prelude::*;
use crate::bitboard::{
    bit, lemma_bit_and, lemma_bit_not, lemma_bit_or, lemma_bit_single, lemma_bit_zero, on_board,
    rank_of, single, Direction, Square,
};
use crate::constants::{king_mask, Line};
use crate::geometry::{
    adjacent, knight_jump, lemma_king_steps, lemma_knight_jumps, lemma_pawn_takes, pawn_takes,
};
use crate::laws::{lemma_concat_contains, lemma_moves_over_contains, lemma_moves_to_contains};
use crate::pieces::Piece;
use crate::position::{attacks_of, piece_mask, piece_mask_fn, Position};
use crate::repr::{Color, Move};
use crate::safety::{
    lemma_all_bits, lemma_board_bits, lemma_piece_mask_bits, lemma_union_bits, threatens,
};

verus! {

impl Position {
    /// Whether no piece stands on cell `t`.
    pub open spec fn empty_at(self, t: int) -> bool {
        self.own().vacant(t) && self.enemy().vacant(t)
    }

    /// The direction in which the pawns of the side to move advance.
    pub open spec fn forward(self) -> Direction {
        Direction::pawn_spec(self.turn)
    }

    /// The rank on which the pawns of the side to move start.
    pub open spec fn start_rank(self) -> int {
        match self.turn {
            Color::White => 1,
            Color::Black => 6,
        }
    }

    /// Whether a pawn on cell `s` can advance to cell `d`: one step to an empty
    /// cell, or two steps from the rank on which it starts over an empty cell to
    /// an empty cell.
    pub open spec fn pawn_steps(self, s: int, d: int) -> bool {
        ||| self.forward().step_from(s) == Some(d) && self.empty_at(d)
        ||| {
            &&& rank_of(s) == self.start_rank()
            &&& self.forward().step_from(s) matches Some(mid) && self.forward().step_from(mid)
                == Some(d) && self.empty_at(mid) && self.empty_at(d)
        }
    }

    /// Whether a pawn on cell `s` can capture on cell `d`: it attacks the cell,
    /// and a piece of the other side stands there.
    pub open spec fn pawn_captures(self, s: int, d: int) -> bool {
        pawn_takes(self.turn, s, d) && !self.enemy().vacant(d)
    }

    /// Whether a piece of the given kind of the side to move stands on cell `s`
    /// and can go to cell `d` by the way that its kind moves, where that side has
    /// no piece: a king to a cell that touches its own, a knight by its jump, a
    /// bishop, a rook or a queen along a line with nothing in between, a pawn by
    /// an advance or a capture.
    pub open spec fn goes(self, kind: Piece, s: int, d: int) -> bool {
        &&& on_board(s)
        &&& on_board(d)
        &&& bit(self.own().mask(kind), s)
        &&& self.own().vacant(d)
        &&& match kind {
            Piece::King => adjacent(s, d),
            Piece::Knight => knight_jump(s, d),
            Piece::Pawn => self.pawn_steps(s, d) || self.pawn_captures(s, d),
            _ => threatens(kind, self.turn, self.board.all(), s, d),
        }
    }

    /// Whether cell `d` touches the cell of a king of the other side.
    pub open spec fn near_enemy_king(self, d: int) -> bool {
        exists|e: int| on_board(e) && bit(self.enemy().kings.0, e) && #[trigger] adjacent(e, d)
    }

    /// Whether the move is one that the pieces can make, leaving aside whether
    /// it leaves the king in check: a piece goes as its kind goes, the king not
    /// next to the other king; a pawn that reaches the last rank becomes a queen,
    /// a rook, a bishop or a knight, and no other pawn does; a pawn captures in
    /// passing on the en-passant cell; and the side castles as `can_castle_kingside`
    /// and `can_castle_queenside` say.
    pub open spec fn permitted(self, m: Move) -> bool {
        match m {
            Move::Normal(src, dst, kind) => {
                &&& self.goes(kind, src.idx(), dst.idx())
                &&& kind == Piece::Pawn ==> rank_of(dst.idx()) != self.last_rank()
                &&& kind == Piece::King ==> !self.near_enemy_king(dst.idx())
            },
            Move::Promotion(src, dst, to) => {
                &&& to == Piece::Queen || to == Piece::Rook || to == Piece::Bishop || to
                    == Piece::Knight
                &&& self.goes(Piece::Pawn, src.idx(), dst.idx())
                &&& rank_of(dst.idx()) == self.last_rank()
            },
            Move::EnPassant(src, dst) => {
                &&& bit(self.own().pawns.0, src.idx())
                &&& self.en_passant == Some(dst)
                &&& pawn_takes(self.turn, src.idx(), dst.idx())
            },
            Move::KingsideCastle => self.can_castle_kingside(),
            Move::QueensideCastle => self.can_castle_queenside(),
        }
    }

    /// Whether the rules allow the move: the side to move has a king, the move
    /// is one that the pieces can make, and it leaves that king out of check.
    pub open spec fn by_the_rules(self, m: Move) -> bool {
        &&& self.has_king()
        &&& self.permitted(m)
        &&& !self.after(m).board.checked(self.turn)
    }

    /// The moves of the king that are generated are moves that a king can make.
    pub proof fn lemma_king_permitted(self, m: Move)
        requires
            self.wf(),
            self.has_king(),
            self.king_moves().contains(m),
        ensures
            self.permitted(m),
    {
        self.lemma_wf_set_up();
        let k = self.king_cell();
        lemma_bit_single(k);
        Square::lemma_of(k);
        lemma_moves_to_contains(Square::of(k), Piece::King, self.king_targets(), m);
        let d = choose|d: int|
            0 <= d < 64 && bit(self.king_targets(), d) && m == Move::Normal(
                Square::of(k),
                #[trigger] Square::of(d),
                Piece::King,
            );
        Square::lemma_of(d);
        lemma_bit_and(king_mask(k) & !self.attacked(), !self.own().all());
        lemma_bit_and(king_mask(k), !self.attacked());
        lemma_bit_not(self.own().all());
        lemma_bit_not(self.attacked());
        lemma_all_bits(self.own(), d);
        lemma_king_steps(k, d);
        if self.near_enemy_king(d) {
            let e = choose|e: int|
                on_board(e) && bit(self.enemy().kings.0, e) && #[trigger] adjacent(e, d);
            self.lemma_king_reach(e, d);
        }
    }

    /// A cell that touches the cell of a king of the other side is among the
    /// attacked cells.
    pub proof fn lemma_king_reach(self, e: int, d: int)
        requires
            on_board(e),
            bit(self.enemy().kings.0, e),
            adjacent(e, d),
        ensures
            bit(self.attacked(), d),
    {
        let them = self.turn.opposite();
        let occ = self.behind_king();
        let en = self.enemy();
        let p = attacks_of(Piece::Pawn, them, occ, en.pawns.0);
        let n = attacks_of(Piece::Knight, them, occ, en.knights.0);
        let o = crate::position::union_over(
            self.orthogonal(),
            crate::movegen::slide_attack_fn(Line::Rank, Line::File, occ),
            64,
        );
        let dg = crate::position::union_over(
            self.diagonal(),
            crate::movegen::slide_attack_fn(Line::MainDiag, Line::SecondDiag, occ),
            64,
        );
        let kg = attacks_of(Piece::King, them, occ, en.kings.0);
        lemma_bit_or(p | n | o | dg, kg);
        lemma_union_bits(en.kings.0, piece_mask_fn(Piece::King, them, occ), 64, d);
        lemma_king_steps(e, d);
        assert(bit(piece_mask_fn(Piece::King, them, occ)(e), d));
    }

    /// The moves of the knights, bishops, rooks and queens that are generated are
    /// moves that such pieces can make.
    pub proof fn lemma_piece_permitted(self, piece: Piece, m: Move)
        requires
            piece == Piece::Knight || piece == Piece::Bishop || piece == Piece::Rook || piece
                == Piece::Queen,
            self.piece_moves(piece).contains(m),
        ensures
            self.permitted(m),
    {
        self.lemma_piece_moves_contains(piece, m);
        let (s, d) = choose|s: int, d: int|
            0 <= s < 64 && 0 <= d < 64 && bit(self.own().mask(piece), s) && bit(
                self.targets(piece, s),
                d,
            ) && m == Move::Normal(#[trigger] Square::of(s), #[trigger] Square::of(d), piece);
        Square::lemma_of(s);
        Square::lemma_of(d);
        let reach = piece_mask(piece, self.turn, self.board.all(), s);
        lemma_bit_and(reach & self.protect() & !self.own().all(), self.pin_mask(s));
        lemma_bit_and(reach & self.protect(), !self.own().all());
        lemma_bit_and(reach, self.protect());
        lemma_bit_not(self.own().all());
        lemma_all_bits(self.own(), d);
        lemma_piece_mask_bits(piece, self.turn, self.board.all(), s, d);
        lemma_knight_jumps(s, d);
    }

    /// The single steps of the pawns that are generated are moves that pawns can
    /// make.
    pub proof fn lemma_single_push_permitted(self, m: Move)
        requires
            self.single_push_moves().contains(m),
        ensures
            self.permitted(m),
    {
        let f = self.single_push_fn();
        lemma_moves_over_contains(self.single_pushes(), f, 64, m);
        let d = choose|d: int|
            0 <= d < 64 && bit(self.single_pushes(), d) && (#[trigger] f(d)).contains(m);
        self.lemma_single_pushes(d);
        let s = self.backward().step_from(d)->0;
        let q = self.single_push_to(d);
        let i = choose|i: int| 0 <= i < q.len() && q[i] == m;
        assert(q[i] == m);
        lemma_board_bits(self.board, d);
        Square::lemma_of(s);
        Square::lemma_of(d);
    }

    /// The double steps of the pawns that are generated are moves that pawns can
    /// make.
    pub proof fn lemma_double_push_permitted(self, m: Move)
        requires
            self.double_push_moves().contains(m),
        ensures
            self.permitted(m),
    {
        let f = self.double_push_fn();
        lemma_moves_over_contains(self.double_pushes(), f, 64, m);
        let d = choose|d: int|
            0 <= d < 64 && bit(self.double_pushes(), d) && (#[trigger] f(d)).contains(m);
        let single = self.single_pushes();
        crate::bitboard::lemma_bit_shift(single, d);
        match self.turn {
            Color::White => {
                lemma_bit_and(single << 8, Line::Rank.mask(3));
                crate::geometry::lemma_line_mask(Line::Rank, 3, d);
            },
            Color::Black => {
                lemma_bit_and(single >> 8, Line::Rank.mask(4));
                crate::geometry::lemma_line_mask(Line::Rank, 4, d);
            },
        }
        let q = self.double_push_to(d);
        let i = choose|i: int| 0 <= i < q.len() && q[i] == m;
        assert(q[i] == m);
        let mid = self.backward().step_from(d)->0;
        self.lemma_single_pushes(mid);
        let s = self.backward().step_from(mid)->0;
        lemma_bit_and(self.protect(), !self.board.all());
        lemma_bit_and(self.protect() & !self.board.all(), self.pin_mask(s));
        lemma_bit_not(self.board.all());
        lemma_board_bits(self.board, d);
        lemma_board_bits(self.board, mid);
        Square::lemma_of(s);
        Square::lemma_of(d);
    }

    /// The captures of the pawns that are generated are moves that pawns can
    /// make.
    #[verifier::rlimit(30)]
    pub proof fn lemma_capture_permitted(self, m: Move)
        requires
            self.wf(),
            self.legal_move_seq().contains(m),
            self.capture_moves().contains(m),
        ensures
            self.permitted(m),
    {
        let own = self.own();
        let f = self.captures_fn();
        lemma_moves_over_contains(own.pawns.0, f, 64, m);
        let s = choose|s: int| 0 <= s < 64 && bit(own.pawns.0, s) && (#[trigger] f(s)).contains(m);
        let g = self.capture_to_fn(s);
        lemma_moves_over_contains(self.capture_targets(s), g, 64, m);
        let d = choose|d: int|
            0 <= d < 64 && bit(self.capture_targets(s), d) && (#[trigger] g(d)).contains(m);
        let q = self.capture_to(s, d);
        let i = choose|i: int| 0 <= i < q.len() && q[i] == m;
        assert(q[i] == m);
        Square::lemma_of(s);
        Square::lemma_of(d);
        let reach = piece_mask(Piece::Pawn, self.turn, self.board.all(), s);
        let inner = self.protect() & self.enemy().all() & self.pin_mask(s);
        lemma_bit_and(reach, inner | self.en_passant_mask());
        lemma_pawn_takes(self.turn, s, d);
        if self.en_passant == Some(Square::of(d)) {
        } else {
            lemma_bit_or(inner, self.en_passant_mask());
            lemma_bit_and(self.protect() & self.enemy().all(), self.pin_mask(s));
            lemma_bit_and(self.protect(), self.enemy().all());
            lemma_bit_zero(0);
            match self.en_passant {
                Some(sq) => {
                    sq.lemma_idx();
                    lemma_bit_single(sq.idx());
                },
                None => {},
            }
            lemma_all_bits(self.enemy(), d);
            assert(self.board.0.count_at(d) + self.board.1.count_at(d) <= 1);
        }
    }

    /// Every move that is generated is one that the rules allow.
    pub proof fn lemma_generated_by_the_rules(self, m: Move)
        requires
            self.wf(),
            self.legal_move_seq().contains(m),
        ensures
            self.by_the_rules(m),
    {
        self.lemma_legal_parts(m);
        self.lemma_legal_moves_keep_king_safe(m);
        if self.king_moves().contains(m) {
            self.lemma_king_permitted(m);
        } else if self.piece_moves(Piece::Knight).contains(m) {
            self.lemma_piece_permitted(Piece::Knight, m);
        } else if self.piece_moves(Piece::Bishop).contains(m) {
            self.lemma_piece_permitted(Piece::Bishop, m);
        } else if self.piece_moves(Piece::Rook).contains(m) {
            self.lemma_piece_permitted(Piece::Rook, m);
        } else if self.piece_moves(Piece::Queen).contains(m) {
            self.lemma_piece_permitted(Piece::Queen, m);
        } else if self.single_push_moves().contains(m) {
            self.lemma_single_push_permitted(m);
        } else if self.double_push_moves().contains(m) {
            self.lemma_double_push_permitted(m);
        } else if self.capture_moves().contains(m) {
            self.lemma_capture_permitted(m);
        } else {
            let first: Seq<Move> = if self.can_castle_kingside() {
                seq![Move::KingsideCastle]
            } else {
                Seq::empty()
            };
            let second: Seq<Move> = if self.can_castle_queenside() {
                seq![Move::QueensideCastle]
            } else {
                Seq::empty()
            };
            lemma_concat_contains(first, second, m);
            if first.contains(m) {
                let i = choose|i: int| 0 <= i < first.len() && first[i] == m;
                assert(first[i] == m);
            }
            if second.contains(m) {
                let i = choose|i: int| 0 <= i < second.len() && second[i] == m;
                assert(second[i] == m);
            }
        }
    }
}


/// Where a count over the cells of a mask is not zero, a cell of the mask
/// meets the condition.
pub proof fn lemma_count_some(from: u64, p: spec_fn(int) -> bool, n: int) -> (a: int)
    requires
        crate::position::count_over(from, p, n) >= 1,
    ensures
        0 <= a < n,
        bit(from, a),
        p(a),
    decreases n,
{
    if n <= 0 {
        0
    } else if bit(from, n - 1) && p(n - 1) {
        n - 1
    } else {
        lemma_count_some(from, p, n - 1)
    }
}

/// Where a count over the cells of a mask is two or more, two cells of the mask
/// meet the condition.
pub proof fn lemma_count_pair(from: u64, p: spec_fn(int) -> bool, n: int) -> (r: (int, int))
    requires
        crate::position::count_over(from, p, n) >= 2,
    ensures
        0 <= r.0 < r.1 < n,
        bit(from, r.0),
        p(r.0),
        bit(from, r.1),
        p(r.1),
    decreases n,
{
    if n <= 0 {
        (0, 0)
    } else if bit(from, n - 1) && p(n - 1) {
        let a = lemma_count_some(from, p, n - 1);
        (a, n - 1)
    } else {
        lemma_count_pair(from, p, n - 1)
    }
}

/// Every cell of the board is in the mask of all cells.
pub proof fn lemma_bit_full(d: int)
    requires
        on_board(d),
    ensures
        bit(u64::MAX, d),
{
    let du = d as u64;
    assert((0xffff_ffff_ffff_ffffu64 >> du) & 1 == 1) by (bit_vector)
        requires
            du < 64,
    ;
}

impl Position {
    /// The number of checks in one of the six ways.
    pub open spec fn checks_in(self, way: int) -> nat {
        crate::position::count_over(self.checkers(way), self.check_fn(way), 64)
    }

    /// Where there is a check, a piece gives check.
    pub proof fn lemma_one_checker(self) -> (r: (int, int))
        requires
            self.checks() >= 1,
        ensures
            self.gives_check(r.0, r.1),
    {
        self.lemma_checks_sum();
        let way: int = if self.checks_in(0) >= 1 {
            0
        } else if self.checks_in(1) >= 1 {
            1
        } else if self.checks_in(2) >= 1 {
            2
        } else if self.checks_in(3) >= 1 {
            3
        } else if self.checks_in(4) >= 1 {
            4
        } else {
            5
        };
        let a = lemma_count_some(self.checkers(way), self.check_fn(way), 64);
        (way, a)
    }

    /// Where there are two checks or more, two pieces give check, or one piece
    /// gives check in two ways.
    pub proof fn lemma_two_checkers(self) -> (r: (int, int, int, int))
        requires
            self.checks() >= 2,
        ensures
            self.gives_check(r.0, r.1),
            self.gives_check(r.2, r.3),
            r.0 != r.2 || r.1 != r.3,
    {
        self.lemma_checks_sum();
        if exists|w: int| 0 <= w < 6 && #[trigger] self.checks_in(w) >= 2 {
            let w = choose|w: int| 0 <= w < 6 && #[trigger] self.checks_in(w) >= 2;
            let (a, b) = lemma_count_pair(self.checkers(w), self.check_fn(w), 64);
            (w, a, w, b)
        } else {
            assert(self.checks_in(0) <= 1 && self.checks_in(1) <= 1 && self.checks_in(2) <= 1
                && self.checks_in(3) <= 1 && self.checks_in(4) <= 1 && self.checks_in(5) <= 1);
            let w1: int = if self.checks_in(0) >= 1 {
                0
            } else if self.checks_in(1) >= 1 {
                1
            } else if self.checks_in(2) >= 1 {
                2
            } else if self.checks_in(3) >= 1 {
                3
            } else {
                4
            };
            let w2: int = if w1 < 1 && self.checks_in(1) >= 1 {
                1
            } else if w1 < 2 && self.checks_in(2) >= 1 {
                2
            } else if w1 < 3 && self.checks_in(3) >= 1 {
                3
            } else if w1 < 4 && self.checks_in(4) >= 1 {
                4
            } else {
                5
            };
            let a = lemma_count_some(self.checkers(w1), self.check_fn(w1), 64);
            let b = lemma_count_some(self.checkers(w2), self.check_fn(w2), 64);
            (w1, a, w2, b)
        }
    }

    /// A cell that parries the check of a piece that gives check is one of the
    /// cells on which checks can be parried.
    pub proof fn lemma_parry_in_blocks(self, way: int, a: int, d: int)
        requires
            self.gives_check(way, a),
            bit(self.parry(way, a), d),
        ensures
            bit(self.blocks(), d),
    {
        let them = self.turn.opposite();
        let occ = self.behind_king();
        let k = self.king_cell();
        let g0 = crate::movegen::contact_block_fn(Piece::Pawn, them, occ, k);
        let g1 = crate::movegen::contact_block_fn(Piece::Knight, them, occ, k);
        let g2 = crate::movegen::slide_block_fn(Line::Rank, Line::File, occ, k);
        let g4 = crate::movegen::slide_block_fn(Line::MainDiag, Line::SecondDiag, occ, k);
        let u0 = crate::position::union_over(self.enemy().pawns.0, g0, 64);
        let u1 = crate::position::union_over(self.enemy().knights.0, g1, 64);
        let u2 = crate::position::union_over(self.orthogonal(), g2, 64);
        let u4 = crate::position::union_over(self.diagonal(), g4, 64);
        lemma_bit_or(u0, u1);
        lemma_bit_or(u0 | u1, u2);
        lemma_bit_or(u0 | u1 | u2, u4);
        lemma_union_bits(self.enemy().pawns.0, g0, 64, d);
        lemma_union_bits(self.enemy().knights.0, g1, 64, d);
        lemma_union_bits(self.orthogonal(), g2, 64, d);
        lemma_union_bits(self.diagonal(), g4, 64, d);
        let b2 = crate::movegen::slide_block(Line::Rank, occ, k, a);
        let b3 = crate::movegen::slide_block(Line::File, occ, k, a);
        let b4 = crate::movegen::slide_block(Line::MainDiag, occ, k, a);
        let b5 = crate::movegen::slide_block(Line::SecondDiag, occ, k, a);
        lemma_bit_or(b2, b3);
        lemma_bit_or(b4, b5);
        if way == 0 {
            assert(bit(g0(a), d));
        } else if way == 1 {
            assert(bit(g1(a), d));
        } else if way == 2 || way == 3 {
            assert(bit(g2(a), d));
        } else {
            assert(bit(g4(a), d));
        }
    }

    /// A cell that the pins do not leave to the piece on cell `s` is off the line
    /// of a slider that pins that piece. The lemma gives the way in which the
    /// slider would give check, and its cell.
    pub proof fn lemma_pinner(self, s: int, d: int) -> (r: (int, int))
        requires
            on_board(d),
            !bit(self.pin_mask(s), d),
        ensures
            2 <= r.0 < 6,
            on_board(r.1),
            bit(self.checkers(r.0), r.1),
            crate::movegen::slide_pins(
                way_axis_of(r.0),
                self.behind_king(),
                self.own().all(),
                self.king_cell(),
                r.1,
                s,
            ),
            !bit(way_axis_of(r.0).mask(way_axis_of(r.0).index_of(s)), d),
    {
        let occ = self.behind_king();
        let own = self.own().all();
        let k = self.king_cell();
        lemma_bit_full(d);
        let inner = crate::movegen::pins_over(
            self.orthogonal(),
            Line::Rank,
            Line::File,
            occ,
            own,
            k,
            s,
            64,
            u64::MAX,
        );
        if bit(inner, d) {
            let (second, a) = lemma_pins_witness(
                self.diagonal(),
                Line::MainDiag,
                Line::SecondDiag,
                occ,
                own,
                k,
                s,
                64,
                inner,
                d,
            );
            (
                if second {
                    5
                } else {
                    4
                },
                a,
            )
        } else {
            let (second, a) = lemma_pins_witness(
                self.orthogonal(),
                Line::Rank,
                Line::File,
                occ,
                own,
                k,
                s,
                64,
                u64::MAX,
                d,
            );
            (
                if second {
                    3
                } else {
                    2
                },
                a,
            )
        }
    }
}

/// The family of lines of a way to give check.
pub open spec fn way_axis_of(way: int) -> Line {
    crate::safety::way_axis(way)
}

/// A cell that was left to a piece before and is not left to it by the sliders
/// below `n` is off the line of one of those sliders that pins the piece. The
/// lemma tells whether it is the slider's line of the second family, and gives
/// the slider's cell.
pub proof fn lemma_pins_witness(
    from: u64,
    a1: Line,
    a2: Line,
    occupied: u64,
    own: u64,
    k: int,
    s: int,
    n: int,
    init: u64,
    d: int,
) -> (r: (bool, int))
    requires
        0 <= n <= 64,
        bit(init, d),
        !bit(crate::movegen::pins_over(from, a1, a2, occupied, own, k, s, n, init), d),
    ensures
        0 <= r.1 < n,
        bit(from, r.1),
        !r.0 ==> crate::movegen::slide_pins(a1, occupied, own, k, r.1, s) && !bit(
            a1.mask(a1.index_of(s)),
            d,
        ),
        r.0 ==> crate::movegen::slide_pins(a2, occupied, own, k, r.1, s) && !bit(
            a2.mask(a2.index_of(s)),
            d,
        ),
    decreases n,
{
    if n <= 0 {
        (false, 0)
    } else {
        let prev = crate::movegen::pins_over(from, a1, a2, occupied, own, k, s, n - 1, init);
        if !bit(prev, d) {
            lemma_pins_witness(from, a1, a2, occupied, own, k, s, n - 1, init, d)
        } else {
            let mid = crate::movegen::pin_step(prev, a1, occupied, own, k, n - 1, s);
            lemma_bit_and(prev, a1.mask(a1.index_of(s)));
            lemma_bit_and(mid, a2.mask(a2.index_of(s)));
            if !bit(mid, d) {
                (false, n - 1)
            } else {
                (true, n - 1)
            }
        }
    }
}


/// Whether cell `d` lies on the way from cell `a` to cell `k`: on a ray from
/// `a` that goes on to `k`.
pub open spec fn on_the_way(a: int, d: int, k: int) -> bool {
    exists|dir: Direction, i: int, j: int|
        1 <= i < j < 8 && #[trigger] crate::geometry::ray_cell(a, dir, i) == Some(d)
            && #[trigger] crate::geometry::ray_cell(a, dir, j) == Some(k)
}

/// Whether the board `after` comes from the board `before` by a move of the
/// side `us` that takes one of its pieces, not the king, from the cell `src`
/// to the cell `dst` and takes what the other side had there: the other side
/// keeps its other pieces, the cell `src` is empty, the cell `dst` is occupied,
/// and every other cell is occupied as before.
pub open spec fn exchanged(
    before: crate::position::Board,
    after: crate::position::Board,
    us: Color,
    src: int,
    dst: int,
) -> bool {
    &&& crate::safety::shifted(before, after, us, src, dst)
    &&& forall|kind: Piece, a: int|
        bit(before.of(us.opposite()).mask(kind), a) && a != dst ==> #[trigger] bit(
            after.of(us.opposite()).mask(kind),
            a,
        )
    &&& !bit(after.all(), src)
    &&& after.of(us).kings == before.of(us).kings
}

/// The board after a piece other than the king has gone from the cell `s` to
/// the cell `d` comes from the board before by that move.
pub proof fn lemma_board_after_exchanged(
    b: crate::position::Board,
    us: Color,
    from: Piece,
    to: Piece,
    s: int,
    d: int,
)
    requires
        b.tidy(),
        on_board(s),
        on_board(d),
        s != d,
        bit(b.of(us).mask(from), s),
        from != Piece::King,
        to != Piece::King,
    ensures
        exchanged(b, crate::safety::board_after(b, us, from, to, s, d), us, s, d),
{
    let after = crate::safety::board_after(b, us, from, to, s, d);
    let them = us.opposite();
    crate::safety::lemma_board_after(b, us, from, to, s, d);
    assert forall|kind: Piece, a: int| bit(b.of(them).mask(kind), a) && a != d implies #[trigger] bit(
        after.of(them).mask(kind),
        a,
    ) by {
        crate::safety::lemma_without_bits(b.of(them), d, kind, a);
    }
    b.lemma_tidy_cell(us, from, s);
    let own = b.of(us);
    own.lemma_count_lifted(from, s, s);
    lemma_bit_and(own.mask(from), !single(s));
    lemma_bit_single(s);
    lemma_bit_not(single(s));
    let lifted = own.lifted(from, s);
    lemma_bit_single(d);
    lemma_bit_or(lifted.mask(to), single(d));
    assert(lifted.vacant(s)) by {
        assert(!bit(lifted.mask(from), s));
        assert(b.0.count_at(s) + b.1.count_at(s) <= 1);
    }
    assert(lifted.dropped(to, d).vacant(s));
    crate::safety::lemma_without_bits(b.of(them), d, Piece::Pawn, s);
    crate::safety::lemma_without_bits(b.of(them), d, Piece::Knight, s);
    crate::safety::lemma_without_bits(b.of(them), d, Piece::Bishop, s);
    crate::safety::lemma_without_bits(b.of(them), d, Piece::Rook, s);
    crate::safety::lemma_without_bits(b.of(them), d, Piece::Queen, s);
    crate::safety::lemma_without_bits(b.of(them), d, Piece::King, s);
    lemma_board_bits(after, s);
}

impl Position {
    /// Whether a move to cell `d` does away with the check that the piece on
    /// cell `a` gives in the given way: it takes the piece, or it puts a piece in
    /// the way of a slider.
    pub open spec fn answers(self, way: int, a: int, d: int) -> bool {
        d == a || (way >= 2 && on_the_way(a, d, self.king_cell()))
    }

    /// The way of a slider that gives check: the direction and the number of
    /// steps in which it reaches the king with nothing in between.
    pub proof fn lemma_check_way(self, way: int, a: int) -> (r: (Direction, int))
        requires
            on_board(self.king_cell()),
            2 <= way < 6,
            self.gives_check(way, a),
        ensures
            crate::geometry::runs_along(way_axis_of(way), r.0),
            1 <= r.1 < 8,
            crate::geometry::ray_cell(a, r.0, r.1) == Some(self.king_cell()),
            crate::geometry::blockers(
                crate::geometry::in_mask(self.behind_king()),
                a,
                r.0,
                r.1 - 1,
            ) == 0,
    {
        let k = self.king_cell();
        let occ = self.behind_king();
        let axis = way_axis_of(way);
        crate::safety::lemma_meets(crate::constants::slide_masks(axis, occ, a).0, k);
        crate::geometry::lemma_slide_masks(axis, occ, a, k, 0);
        let dir = if crate::geometry::reaches(crate::geometry::in_mask(occ), a, axis.up(), k, 0) {
            axis.up()
        } else {
            axis.down()
        };
        let j = choose|j: int|
            1 <= j < 8 && #[trigger] crate::geometry::ray_cell(a, dir, j) == Some(k)
                && crate::geometry::blockers(crate::geometry::in_mask(occ), a, dir, j - 1) == 0;
        (dir, j)
    }

    /// A piece that gives check still does after a move of another piece than
    /// the king that neither takes it nor, if it is a slider, puts a piece in its
    /// way.
    pub proof fn lemma_checker_stays(
        self,
        after: crate::position::Board,
        src: int,
        dst: int,
        way: int,
        a: int,
    )
        requires
            self.king_set_up(),
            on_board(src),
            on_board(dst),
            bit(self.board.all(), src),
            exchanged(self.board, after, self.turn, src, dst),
            self.gives_check(way, a),
            !self.answers(way, a, dst),
        ensures
            after.checked(self.turn),
    {
        let k = self.king_cell();
        let us = self.turn;
        let them = us.opposite();
        let occ = self.behind_king();
        crate::safety::lemma_checked(after, us, k);
        lemma_bit_or(self.enemy().rooks.0, self.enemy().queens.0);
        lemma_bit_or(self.enemy().bishops.0, self.enemy().queens.0);
        if way == 0 || way == 1 {
            let kind = if way == 0 {
                Piece::Pawn
            } else {
                Piece::Knight
            };
            crate::safety::lemma_meets(piece_mask(kind, them, occ, a), k);
            assert(bit(after.of(them).mask(kind), a));
            assert(threatens(kind, them, after.all(), a, k));
        } else {
            let axis = way_axis_of(way);
            let (dir, j) = self.lemma_check_way(way, a);
            let first = crate::geometry::in_mask(occ);
            let second = crate::geometry::in_mask(after.all());
            assert forall|i: int|
                1 <= i <= j - 1 && crate::geometry::ray_cell(a, dir, i) is Some implies !second(
                #[trigger] crate::geometry::ray_cell(a, dir, i)->0,
            ) by {
                let c = crate::geometry::ray_cell(a, dir, i)->0;
                crate::geometry::lemma_blockers_none(first, a, dir, j - 1, i);
                crate::geometry::lemma_ray_distinct(a, dir, i, j);
                self.lemma_behind_king(c);
                self.lemma_behind_king(src);
                if c == dst {
                    assert(on_the_way(a, dst, k));
                }
            }
            crate::geometry::lemma_blockers_clear(second, a, dir, j - 1);
            assert(crate::geometry::reaches(second, a, dir, k, 0));
            assert(crate::geometry::slides(after.all(), axis, a, k, 0));
            let kind = if way == 2 || way == 3 {
                if bit(self.enemy().rooks.0, a) {
                    Piece::Rook
                } else {
                    Piece::Queen
                }
            } else {
                if bit(self.enemy().bishops.0, a) {
                    Piece::Bishop
                } else {
                    Piece::Queen
                }
            };
            assert(bit(after.of(them).mask(kind), a));
            assert(threatens(kind, them, after.all(), a, k));
        }
    }

    /// A move that does away with the check of a piece goes to a cell that
    /// parries that check.
    pub proof fn lemma_answer_parries(self, way: int, a: int, d: int)
        requires
            on_board(self.king_cell()),
            on_board(d),
            self.gives_check(way, a),
            self.answers(way, a, d),
        ensures
            bit(self.parry(way, a), d),
    {
        let k = self.king_cell();
        let occ = self.behind_king();
        lemma_bit_single(a);
        if way >= 2 {
            let axis = way_axis_of(way);
            let cross = axis.crossing();
            let attack = crate::constants::slide_masks(axis, occ, a).0;
            let between = crate::constants::between_mask(
                cross,
                cross.index_of(a),
                cross.index_of(k),
            );
            lemma_bit_or(attack & between, single(a));
            lemma_bit_and(attack, between);
            if d != a {
                let (dir, j) = self.lemma_check_way(way, a);
                let (dir2, i, j2) = choose|dir2: Direction, i: int, j2: int|
                    1 <= i < j2 < 8 && #[trigger] crate::geometry::ray_cell(a, dir2, i) == Some(d)
                        && #[trigger] crate::geometry::ray_cell(a, dir2, j2) == Some(k);
                crate::geometry::lemma_rays_meet(a, dir, j, dir2, j2);
                crate::geometry::lemma_blockers_grow(
                    crate::geometry::in_mask(occ),
                    a,
                    dir,
                    i - 1,
                    j - 1,
                );
                assert(crate::geometry::reaches(crate::geometry::in_mask(occ), a, dir, d, 0));
                crate::geometry::lemma_slide_masks(axis, occ, a, d, 0);
                crate::geometry::lemma_crossing_along(axis, a, dir, i);
                crate::geometry::lemma_crossing_along(axis, a, dir, j);
                if cross.index_of(a) <= cross.index_of(k) {
                    crate::geometry::lemma_span(cross, cross.index_of(a), cross.index_of(k), d);
                } else {
                    crate::geometry::lemma_span(cross, cross.index_of(k), cross.index_of(a), d);
                }
                crate::geometry::lemma_on_line(axis, a, dir, i);
                crate::geometry::lemma_on_line(axis, a, dir, j);
            }
        }
    }
}


impl Position {
    /// A piece that gives check stands on a cell of the other side that is not
    /// the king's cell, so it is occupied once the king is lifted.
    pub proof fn lemma_checker_occupies(self, way: int, a: int)
        requires
            self.king_set_up(),
            self.gives_check(way, a),
        ensures
            a != self.king_cell(),
            bit(self.behind_king(), a),
            !self.enemy().vacant(a),
    {
        lemma_bit_or(self.enemy().rooks.0, self.enemy().queens.0);
        lemma_bit_or(self.enemy().bishops.0, self.enemy().queens.0);
        lemma_all_bits(self.enemy(), a);
        lemma_board_bits(self.board, a);
        self.lemma_behind_king(a);
    }

    /// One piece does not give check in two ways.
    pub proof fn lemma_one_way(self, w1: int, w2: int, a: int)
        requires
            self.wf(),
            self.has_king(),
            self.gives_check(w1, a),
            self.gives_check(w2, a),
        ensures
            w1 == w2,
    {
        self.lemma_wf_set_up();
        let k = self.king_cell();
        lemma_bit_or(self.enemy().rooks.0, self.enemy().queens.0);
        lemma_bit_or(self.enemy().bishops.0, self.enemy().queens.0);
        let them = self.turn.opposite();
        assert(self.board.0.count_at(a) + self.board.1.count_at(a) <= 1);
        if w1 >= 2 && w2 >= 2 && w1 != w2 {
            let (d1, j1) = self.lemma_check_way(w1, a);
            let (d2, j2) = self.lemma_check_way(w2, a);
            crate::geometry::lemma_rays_meet(a, d1, j1, d2, j2);
        }
    }

    /// One move does not do away with two checks.
    pub proof fn lemma_one_answer(self, w1: int, a1: int, w2: int, a2: int, d: int)
        requires
            self.wf(),
            self.has_king(),
            on_board(d),
            self.gives_check(w1, a1),
            self.gives_check(w2, a2),
            w1 != w2 || a1 != a2,
            self.answers(w1, a1, d),
        ensures
            !self.answers(w2, a2, d),
    {
        self.lemma_wf_set_up();
        let k = self.king_cell();
        let occ = crate::geometry::in_mask(self.behind_king());
        if a1 == a2 {
            self.lemma_one_way(w1, w2, a1);
        } else if self.answers(w2, a2, d) {
            self.lemma_checker_occupies(w1, a1);
            self.lemma_checker_occupies(w2, a2);
            if d == a1 {
                // the first piece would stand in the way of the second
                self.lemma_blocked_by(w2, a2, a1);
            } else if d == a2 {
                self.lemma_blocked_by(w1, a1, a2);
            } else {
                let (e1, i1, j1) = choose|dir: Direction, i: int, j: int|
                    1 <= i < j < 8 && #[trigger] crate::geometry::ray_cell(a1, dir, i) == Some(d)
                        && #[trigger] crate::geometry::ray_cell(a1, dir, j) == Some(k);
                let (e2, i2, j2) = choose|dir: Direction, i: int, j: int|
                    1 <= i < j < 8 && #[trigger] crate::geometry::ray_cell(a2, dir, i) == Some(d)
                        && #[trigger] crate::geometry::ray_cell(a2, dir, j) == Some(k);
                crate::geometry::lemma_ray_from_cell(a1, e1, i1, j1 - i1);
                crate::geometry::lemma_ray_from_cell(a2, e2, i2, j2 - i2);
                crate::geometry::lemma_rays_meet(d, e1, j1 - i1, e2, j2 - i2);
                crate::geometry::lemma_ray_step(a1, e1, i1);
                crate::geometry::lemma_ray_step(a2, e2, i2);
                if i1 < i2 {
                    crate::geometry::lemma_ray_from_cell(a2, e2, i2, i1);
                    assert(crate::geometry::ray_cell(a2, e2, i2 - i1) == Some(a1));
                    assert(on_the_way(a2, a1, k));
                    self.lemma_blocked_by(w2, a2, a1);
                } else if i2 < i1 {
                    crate::geometry::lemma_ray_from_cell(a1, e1, i1, i2);
                    assert(crate::geometry::ray_cell(a1, e1, i1 - i2) == Some(a2));
                    assert(on_the_way(a1, a2, k));
                    self.lemma_blocked_by(w1, a1, a2);
                }
            }
        }
    }

    /// No occupied cell lies on the way of a slider that gives check.
    pub proof fn lemma_blocked_by(self, way: int, a: int, x: int)
        requires
            on_board(self.king_cell()),
            self.gives_check(way, a),
            way >= 2,
            bit(self.behind_king(), x),
        ensures
            !on_the_way(a, x, self.king_cell()),
    {
        let k = self.king_cell();
        if on_the_way(a, x, k) {
            let (dir, j) = self.lemma_check_way(way, a);
            let (dir2, i, j2) = choose|dir2: Direction, i: int, j2: int|
                1 <= i < j2 < 8 && #[trigger] crate::geometry::ray_cell(a, dir2, i) == Some(x)
                    && #[trigger] crate::geometry::ray_cell(a, dir2, j2) == Some(k);
            crate::geometry::lemma_rays_meet(a, dir, j, dir2, j2);
            crate::geometry::lemma_blockers_none(
                crate::geometry::in_mask(self.behind_king()),
                a,
                dir,
                j - 1,
                i,
            );
        }
    }

    /// A piece that is pinned and leaves the line of the pin leaves its king in
    /// check.
    pub proof fn lemma_pin_broken(
        self,
        after: crate::position::Board,
        src: int,
        dst: int,
        way: int,
        a: int,
    )
        requires
            self.king_set_up(),
            on_board(src),
            on_board(dst),
            on_board(a),
            exchanged(self.board, after, self.turn, src, dst),
            2 <= way < 6,
            bit(self.checkers(way), a),
            crate::movegen::slide_pins(
                way_axis_of(way),
                self.behind_king(),
                self.own().all(),
                self.king_cell(),
                a,
                src,
            ),
            !bit(way_axis_of(way).mask(way_axis_of(way).index_of(src)), dst),
        ensures
            after.checked(self.turn),
    {
        let k = self.king_cell();
        let us = self.turn;
        let them = us.opposite();
        let occ = self.behind_king();
        let axis = way_axis_of(way);
        let cross = axis.crossing();
        let masks = crate::constants::slide_masks(axis, occ, a);
        crate::safety::lemma_meets(masks.1, k);
        crate::geometry::lemma_slide_masks(axis, occ, a, k, 1);
        lemma_bit_and(self.own().all(), masks.0);
        crate::geometry::lemma_slide_masks(axis, occ, a, src, 0);
        let first = crate::geometry::in_mask(occ);
        let second = crate::geometry::in_mask(after.all());
        let dir = if crate::geometry::reaches(first, a, axis.up(), k, 1) {
            axis.up()
        } else {
            axis.down()
        };
        let j = choose|j: int|
            1 <= j < 8 && #[trigger] crate::geometry::ray_cell(a, dir, j) == Some(k)
                && crate::geometry::blockers(first, a, dir, j - 1) == 1;
        let dir2 = if crate::geometry::reaches(first, a, axis.up(), src, 0) {
            axis.up()
        } else {
            axis.down()
        };
        let i = choose|i: int|
            1 <= i < 8 && #[trigger] crate::geometry::ray_cell(a, dir2, i) == Some(src)
                && crate::geometry::blockers(first, a, dir2, i - 1) == 0;
        crate::geometry::lemma_crossing_along(axis, a, dir, j);
        crate::geometry::lemma_crossing_along(axis, a, dir2, i);
        Self::lemma_same_way(axis, dir, dir2, j, i, cross.index_of(a), cross.index_of(k),
            cross.index_of(src));
        assert(i < j);
        crate::geometry::lemma_ray_step(a, dir, 0);
        crate::geometry::lemma_on_line(axis, a, dir, i);
        crate::geometry::lemma_on_line(axis, a, dir, 0);
        crate::geometry::lemma_line_mask(axis, axis.index_of(src), dst);
        crate::geometry::lemma_line_mask(axis, axis.index_of(src), a);
        assert(a != dst);
        self.lemma_behind_king(src);
        lemma_all_bits(self.own(), src);
        lemma_board_bits(self.board, src);
        crate::geometry::lemma_ray_distinct(a, dir, i, j);
        assert(first(src));
        assert(!second(src));
        assert forall|c: int|
            1 <= c <= j - 1 && c != i && crate::geometry::ray_cell(a, dir, c) is Some implies first(
            #[trigger] crate::geometry::ray_cell(a, dir, c)->0,
        ) == second(crate::geometry::ray_cell(a, dir, c)->0) by {
            let x = crate::geometry::ray_cell(a, dir, c)->0;
            crate::geometry::lemma_ray_distinct(a, dir, c, j);
            if c < i {
                crate::geometry::lemma_ray_distinct(a, dir, c, i);
            } else {
                crate::geometry::lemma_ray_distinct(a, dir, i, c);
            }
            crate::geometry::lemma_on_line(axis, a, dir, c);
            crate::geometry::lemma_line_mask(axis, axis.index_of(src), x);
            self.lemma_behind_king(x);
        }
        crate::geometry::lemma_blockers_differ(first, second, a, dir, j - 1, i);
        assert(crate::geometry::blockers(second, a, dir, j - 1) == 0);
        assert(crate::geometry::reaches(second, a, dir, k, 0));
        assert(crate::geometry::slides(after.all(), axis, a, k, 0));
        crate::safety::lemma_checked(after, us, k);
        lemma_bit_or(self.enemy().rooks.0, self.enemy().queens.0);
        lemma_bit_or(self.enemy().bishops.0, self.enemy().queens.0);
        let kind = if way == 2 || way == 3 {
            if bit(self.enemy().rooks.0, a) {
                Piece::Rook
            } else {
                Piece::Queen
            }
        } else {
            if bit(self.enemy().bishops.0, a) {
                Piece::Bishop
            } else {
                Piece::Queen
            }
        };
        assert(bit(after.of(them).mask(kind), a));
        assert(threatens(kind, them, after.all(), a, k));
    }

    /// A move of a piece other than the king that leaves the king out of check
    /// is made with one check at most, to a cell that parries the checks and
    /// that the pins leave to the piece.
    pub proof fn lemma_safe_move_allowed(
        self,
        after: crate::position::Board,
        src: int,
        dst: int,
    )
        requires
            self.wf(),
            self.has_king(),
            on_board(src),
            on_board(dst),
            bit(self.board.all(), src),
            exchanged(self.board, after, self.turn, src, dst),
            !after.checked(self.turn),
        ensures
            self.checks() <= 1,
            bit(self.protect(), dst),
            bit(self.pin_mask(src), dst),
    {
        self.lemma_wf_set_up();
        if self.checks() >= 2 {
            let (w1, a1, w2, a2) = self.lemma_two_checkers();
            if !self.answers(w1, a1, dst) {
                self.lemma_checker_stays(after, src, dst, w1, a1);
            }
            if !self.answers(w2, a2, dst) {
                self.lemma_checker_stays(after, src, dst, w2, a2);
            }
            self.lemma_one_answer(w1, a1, w2, a2, dst);
        }
        if self.checks() == 0 {
            lemma_bit_full(dst);
        } else {
            let (w, a) = self.lemma_one_checker();
            if !self.answers(w, a, dst) {
                self.lemma_checker_stays(after, src, dst, w, a);
            }
            self.lemma_answer_parries(w, a, dst);
            self.lemma_parry_in_blocks(w, a, dst);
        }
        if !bit(self.pin_mask(src), dst) {
            let (w, a) = self.lemma_pinner(src, dst);
            self.lemma_pin_broken(after, src, dst, w, a);
        }
    }
}


impl Position {
    /// The king's cell is attacked by every piece that gives check.
    pub proof fn lemma_checker_attacks(self, way: int, a: int)
        requires
            self.king_set_up(),
            self.gives_check(way, a),
        ensures
            bit(self.attacked(), self.king_cell()),
    {
        let k = self.king_cell();
        let them = self.turn.opposite();
        let occ = self.behind_king();
        lemma_bit_or(self.enemy().rooks.0, self.enemy().queens.0);
        lemma_bit_or(self.enemy().bishops.0, self.enemy().queens.0);
        if way == 0 || way == 1 {
            let kind = if way == 0 {
                Piece::Pawn
            } else {
                Piece::Knight
            };
            crate::safety::lemma_meets(piece_mask(kind, them, occ, a), k);
            self.lemma_attacked(kind, a, k);
        } else {
            let axis = way_axis_of(way);
            crate::safety::lemma_meets(crate::constants::slide_masks(axis, occ, a).0, k);
            crate::geometry::lemma_slide_masks(axis, occ, a, k, 0);
            let kind = if way == 2 || way == 3 {
                if bit(self.enemy().rooks.0, a) {
                    Piece::Rook
                } else {
                    Piece::Queen
                }
            } else {
                if bit(self.enemy().bishops.0, a) {
                    Piece::Bishop
                } else {
                    Piece::Queen
                }
            };
            self.lemma_attacked(kind, a, k);
        }
    }

    /// An attacked cell that touches no king of the other side is threatened,
    /// once the king of the side to move is lifted, by another piece of the other
    /// side.
    pub proof fn lemma_attacked_by(self, t: int) -> (r: (Piece, int))
        requires
            bit(self.attacked(), t),
            !self.near_enemy_king(t),
        ensures
            on_board(r.1),
            r.0 != Piece::King,
            bit(self.enemy().mask(r.0), r.1),
            threatens(r.0, self.turn.opposite(), self.behind_king(), r.1, t),
    {
        let them = self.turn.opposite();
        let occ = self.behind_king();
        let en = self.enemy();
        let fo = crate::movegen::slide_attack_fn(Line::Rank, Line::File, occ);
        let fd = crate::movegen::slide_attack_fn(Line::MainDiag, Line::SecondDiag, occ);
        let p = attacks_of(Piece::Pawn, them, occ, en.pawns.0);
        let n = attacks_of(Piece::Knight, them, occ, en.knights.0);
        let o = crate::position::union_over(self.orthogonal(), fo, 64);
        let dg = crate::position::union_over(self.diagonal(), fd, 64);
        let kg = attacks_of(Piece::King, them, occ, en.kings.0);
        lemma_bit_or(p, n);
        lemma_bit_or(p | n, o);
        lemma_bit_or(p | n | o, dg);
        lemma_bit_or(p | n | o | dg, kg);
        lemma_bit_or(en.rooks.0, en.queens.0);
        lemma_bit_or(en.bishops.0, en.queens.0);
        lemma_union_bits(en.pawns.0, piece_mask_fn(Piece::Pawn, them, occ), 64, t);
        lemma_union_bits(en.knights.0, piece_mask_fn(Piece::Knight, them, occ), 64, t);
        lemma_union_bits(self.orthogonal(), fo, 64, t);
        lemma_union_bits(self.diagonal(), fd, 64, t);
        lemma_union_bits(en.kings.0, piece_mask_fn(Piece::King, them, occ), 64, t);
        if bit(kg, t) {
            let e = choose|e: int|
                0 <= e < 64 && bit(en.kings.0, e) && bit(
                    #[trigger] piece_mask_fn(Piece::King, them, occ)(e),
                    t,
                );
            lemma_king_steps(e, t);
            assert(adjacent(e, t));
            (Piece::Pawn, 0)
        } else if bit(p, t) {
            let a = choose|a: int|
                0 <= a < 64 && bit(en.pawns.0, a) && bit(
                    #[trigger] piece_mask_fn(Piece::Pawn, them, occ)(a),
                    t,
                );
            (Piece::Pawn, a)
        } else if bit(n, t) {
            let a = choose|a: int|
                0 <= a < 64 && bit(en.knights.0, a) && bit(
                    #[trigger] piece_mask_fn(Piece::Knight, them, occ)(a),
                    t,
                );
            (Piece::Knight, a)
        } else if bit(o, t) {
            let a = choose|a: int| 0 <= a < 64 && bit(self.orthogonal(), a) && bit(#[trigger] fo(a), t);
            lemma_bit_or(
                crate::constants::slide_masks(Line::Rank, occ, a).0,
                crate::constants::slide_masks(Line::File, occ, a).0,
            );
            crate::geometry::lemma_slide_masks(Line::Rank, occ, a, t, 0);
            crate::geometry::lemma_slide_masks(Line::File, occ, a, t, 0);
            if bit(en.rooks.0, a) {
                (Piece::Rook, a)
            } else {
                (Piece::Queen, a)
            }
        } else {
            let a = choose|a: int| 0 <= a < 64 && bit(self.diagonal(), a) && bit(#[trigger] fd(a), t);
            lemma_bit_or(
                crate::constants::slide_masks(Line::MainDiag, occ, a).0,
                crate::constants::slide_masks(Line::SecondDiag, occ, a).0,
            );
            crate::geometry::lemma_slide_masks(Line::MainDiag, occ, a, t, 0);
            crate::geometry::lemma_slide_masks(Line::SecondDiag, occ, a, t, 0);
            if bit(en.bishops.0, a) {
                (Piece::Bishop, a)
            } else {
                (Piece::Queen, a)
            }
        }
    }

    /// No piece threatens the cell that it stands on.
    pub proof fn lemma_no_self_threat(kind: Piece, color: Color, occupied: u64, a: int)
        requires
            on_board(a),
        ensures
            !threatens(kind, color, occupied, a, a),
    {
        lemma_knight_jumps(a, a);
        lemma_pawn_takes(color, a, a);
        if kind == Piece::Bishop || kind == Piece::Rook || kind == Piece::Queen {
            assert forall|axis: Line| !crate::geometry::slides(occupied, axis, a, a, 0) by {
                if crate::geometry::slides(occupied, axis, a, a, 0) {
                    let dir = if crate::geometry::reaches(
                        crate::geometry::in_mask(occupied),
                        a,
                        axis.up(),
                        a,
                        0,
                    ) {
                        axis.up()
                    } else {
                        axis.down()
                    };
                    let j = choose|j: int|
                        1 <= j < 8 && #[trigger] crate::geometry::ray_cell(a, dir, j) == Some(a)
                            && crate::geometry::blockers(
                            crate::geometry::in_mask(occupied),
                            a,
                            dir,
                            j - 1,
                        ) == 0;
                    crate::geometry::lemma_ray_leaves(a, dir, j);
                }
            }
        }
    }

    /// A move of the king that the rules allow is generated.
    pub proof fn lemma_king_generated(self, src: Square, dst: Square)
        requires
            self.wf(),
            self.by_the_rules(Move::Normal(src, dst, Piece::King)),
        ensures
            self.legal_move_seq().contains(Move::Normal(src, dst, Piece::King)),
    {
        let m = Move::Normal(src, dst, Piece::King);
        self.lemma_wf_set_up();
        let k = self.king_cell();
        let d = dst.idx();
        let us = self.turn;
        let them = us.opposite();
        let occ = self.behind_king();
        src.lemma_idx();
        dst.lemma_idx();
        lemma_bit_single(k);
        assert(src.idx() == k);
        let after = self.after(m).board;
        assert(after == crate::safety::board_after(self.board, us, Piece::King, Piece::King, k, d));
        crate::safety::lemma_board_after(self.board, us, Piece::King, Piece::King, k, d);
        crate::bitboard::lemma_single_moved(k, d);
        crate::safety::lemma_checked(after, us, d);
        if bit(self.attacked(), d) {
            let (kind, a) = self.lemma_attacked_by(d);
            Self::lemma_no_self_threat(kind, them, occ, a);
            crate::safety::lemma_without_bits(self.enemy(), d, kind, a);
            assert(bit(after.of(them).mask(kind), a));
            self.board.lemma_tidy_cell(us, Piece::King, k);
            assert forall|c: int| c != d && bit(after.all(), c) implies bit(occ, c) by {
                self.lemma_behind_king(c);
                lemma_board_bits(after, c);
                lemma_board_bits(self.board, c);
                crate::safety::lemma_moved_bits(self.own(), Piece::King, Piece::King, k, d, c);
                self.own().lemma_count_lifted(Piece::King, k, k);
                self.own().lemma_without_vacant(d);
                crate::safety::lemma_without_bits(self.enemy(), d, Piece::Pawn, c);
                crate::safety::lemma_without_bits(self.enemy(), d, Piece::Knight, c);
                crate::safety::lemma_without_bits(self.enemy(), d, Piece::Bishop, c);
                crate::safety::lemma_without_bits(self.enemy(), d, Piece::Rook, c);
                crate::safety::lemma_without_bits(self.enemy(), d, Piece::Queen, c);
                crate::safety::lemma_without_bits(self.enemy(), d, Piece::King, c);
                if c == k {
                    let lifted = self.own().lifted(Piece::King, k);
                    lemma_bit_and(self.own().kings.0, !single(k));
                    lemma_bit_not(single(k));
                    lemma_bit_single(d);
                    lemma_bit_or(lifted.kings.0, single(d));
                    assert(self.board.0.count_at(k) + self.board.1.count_at(k) <= 1);
                    assert(lifted.dropped(Piece::King, d).vacant(k));
                }
            }
            match kind {
                Piece::Pawn | Piece::Knight => {},
                _ => {
                    if crate::geometry::slides(occ, Line::MainDiag, a, d, 0) {
                        Self::lemma_slides_fewer(occ, after.all(), Line::MainDiag, a, d);
                    }
                    if crate::geometry::slides(occ, Line::SecondDiag, a, d, 0) {
                        Self::lemma_slides_fewer(occ, after.all(), Line::SecondDiag, a, d);
                    }
                    if crate::geometry::slides(occ, Line::Rank, a, d, 0) {
                        Self::lemma_slides_fewer(occ, after.all(), Line::Rank, a, d);
                    }
                    if crate::geometry::slides(occ, Line::File, a, d, 0) {
                        Self::lemma_slides_fewer(occ, after.all(), Line::File, a, d);
                    }
                },
            }
            assert(threatens(kind, them, after.all(), a, d));
        }
        lemma_king_steps(k, d);
        lemma_all_bits(self.own(), d);
        lemma_bit_not(self.own().all());
        lemma_bit_not(self.attacked());
        lemma_bit_and(king_mask(k), !self.attacked());
        lemma_bit_and(king_mask(k) & !self.attacked(), !self.own().all());
        lemma_moves_to_contains(Square::of(k), Piece::King, self.king_targets(), m);
        assert(m == Move::Normal(Square::of(k), Square::of(d), Piece::King));
        self.lemma_legal_parts(m);
    }

    /// A move of a knight, bishop, rook or queen that the rules allow is
    /// generated.
    pub proof fn lemma_piece_generated(self, src: Square, dst: Square, piece: Piece)
        requires
            self.wf(),
            piece == Piece::Knight || piece == Piece::Bishop || piece == Piece::Rook || piece
                == Piece::Queen,
            self.by_the_rules(Move::Normal(src, dst, piece)),
        ensures
            self.legal_move_seq().contains(Move::Normal(src, dst, piece)),
    {
        let m = Move::Normal(src, dst, piece);
        let s = src.idx();
        let d = dst.idx();
        let us = self.turn;
        src.lemma_idx();
        dst.lemma_idx();
        let after = self.after(m).board;
        assert(after == crate::safety::board_after(self.board, us, piece, piece, s, d));
        lemma_board_after_exchanged(self.board, us, piece, piece, s, d);
        lemma_all_bits(self.own(), s);
        lemma_all_bits(self.own(), d);
        lemma_board_bits(self.board, s);
        self.lemma_safe_move_allowed(after, s, d);
        let reach = piece_mask(piece, us, self.board.all(), s);
        lemma_piece_mask_bits(piece, us, self.board.all(), s, d);
        lemma_knight_jumps(s, d);
        lemma_bit_not(self.own().all());
        lemma_bit_and(reach, self.protect());
        lemma_bit_and(reach & self.protect(), !self.own().all());
        lemma_bit_and(reach & self.protect() & !self.own().all(), self.pin_mask(s));
        assert(bit(self.targets(piece, s), d));
        self.lemma_piece_moves_contains(piece, m);
        assert(m == Move::Normal(Square::of(s), Square::of(d), piece));
        self.lemma_legal_parts(m);
    }
}


impl Position {
    /// The cell one step ahead of a pawn of the side to move, if it is empty, is
    /// among the cells on which a pawn can arrive by a single step.
    pub proof fn lemma_single_push_bit(self, s: int, d: int)
        requires
            on_board(s),
            bit(self.own().pawns.0, s),
            self.forward().step_from(s) == Some(d),
            self.empty_at(d),
        ensures
            on_board(d),
            bit(self.single_pushes(), d),
            self.backward().step_from(d) == Some(s),
            !bit(self.board.all(), d),
    {
        let pawns = self.own().pawns.0;
        let occ = self.board.all();
        lemma_bit_not(occ);
        lemma_board_bits(self.board, d);
        crate::bitboard::lemma_bit_shift(pawns, d);
        match self.turn {
            Color::White => {
                lemma_bit_and(pawns << 8, !occ);
            },
            Color::Black => {
                lemma_bit_and(pawns >> 8, !occ);
            },
        }
    }

    /// What a pawn does that goes from the cell `s` to the cell `d` without
    /// capturing in passing: it stays a pawn unless it reaches the last rank,
    /// where it becomes a queen, a rook, a bishop or a knight.
    pub open spec fn pawn_move(self, m: Move, s: int, d: int) -> bool {
        if rank_of(d) == self.last_rank() {
            ||| m == Move::Promotion(Square::of(s), Square::of(d), Piece::Queen)
            ||| m == Move::Promotion(Square::of(s), Square::of(d), Piece::Rook)
            ||| m == Move::Promotion(Square::of(s), Square::of(d), Piece::Bishop)
            ||| m == Move::Promotion(Square::of(s), Square::of(d), Piece::Knight)
        } else {
            m == Move::Normal(Square::of(s), Square::of(d), Piece::Pawn)
        }
    }

    /// A single step of a pawn to a cell that parries the checks and that the
    /// pins leave to it is generated.
    pub proof fn lemma_single_step_generated(self, m: Move, s: int, d: int)
        requires
            on_board(s),
            bit(self.own().pawns.0, s),
            self.forward().step_from(s) == Some(d),
            self.empty_at(d),
            bit(self.protect(), d),
            bit(self.pin_mask(s), d),
            self.pawn_move(m, s, d),
        ensures
            self.single_push_moves().contains(m),
    {
        self.lemma_single_push_bit(s, d);
        lemma_bit_not(self.board.all());
        lemma_bit_and(self.protect(), !self.board.all());
        lemma_bit_and(self.protect() & !self.board.all(), self.pin_mask(s));
        let q = self.single_push_to(d);
        if rank_of(d) == self.last_rank() {
            assert(q[0] == Move::Promotion(Square::of(s), Square::of(d), Piece::Queen));
            assert(q[1] == Move::Promotion(Square::of(s), Square::of(d), Piece::Rook));
            assert(q[2] == Move::Promotion(Square::of(s), Square::of(d), Piece::Knight));
            assert(q[3] == Move::Promotion(Square::of(s), Square::of(d), Piece::Bishop));
        } else {
            assert(q[0] == m);
        }
        assert(q.contains(m));
        let f = self.single_push_fn();
        assert(f(d).contains(m));
        lemma_moves_over_contains(self.single_pushes(), f, 64, m);
    }

    /// A double step of a pawn to a cell that parries the checks and that the
    /// pins leave to it is generated.
    pub proof fn lemma_double_step_generated(self, m: Move, s: int, d: int)
        requires
            on_board(s),
            bit(self.own().pawns.0, s),
            rank_of(s) == self.start_rank(),
            self.forward().step_from(s) matches Some(mid) && self.forward().step_from(mid) == Some(d)
                && self.empty_at(mid) && self.empty_at(d),
            bit(self.protect(), d),
            bit(self.pin_mask(s), d),
            m == Move::Normal(Square::of(s), Square::of(d), Piece::Pawn),
        ensures
            self.double_push_moves().contains(m),
    {
        let mid = self.forward().step_from(s)->0;
        self.lemma_single_push_bit(s, mid);
        let single = self.single_pushes();
        crate::bitboard::lemma_bit_shift(single, d);
        lemma_board_bits(self.board, d);
        match self.turn {
            Color::White => {
                lemma_bit_and(single << 8, Line::Rank.mask(3));
                crate::geometry::lemma_line_mask(Line::Rank, 3, d);
            },
            Color::Black => {
                lemma_bit_and(single >> 8, Line::Rank.mask(4));
                crate::geometry::lemma_line_mask(Line::Rank, 4, d);
            },
        }
        assert(bit(self.double_pushes(), d));
        lemma_bit_not(self.board.all());
        lemma_bit_and(self.protect(), !self.board.all());
        lemma_bit_and(self.protect() & !self.board.all(), self.pin_mask(s));
        let q = self.double_push_to(d);
        assert(q[0] == m);
        let f = self.double_push_fn();
        assert(f(d).contains(m));
        lemma_moves_over_contains(self.double_pushes(), f, 64, m);
    }

    /// A capture of a pawn, other than one in passing, on a cell that parries
    /// the checks and that the pins leave to it is generated.
    pub proof fn lemma_pawn_capture_generated(self, m: Move, s: int, d: int)
        requires
            self.wf(),
            on_board(s),
            bit(self.own().pawns.0, s),
            self.pawn_captures(s, d),
            bit(self.protect(), d),
            bit(self.pin_mask(s), d),
            self.pawn_move(m, s, d),
        ensures
            self.capture_moves().contains(m),
    {
        let us = self.turn;
        lemma_pawn_takes(us, s, d);
        lemma_all_bits(self.enemy(), d);
        let reach = piece_mask(Piece::Pawn, us, self.board.all(), s);
        let inner = self.protect() & self.enemy().all() & self.pin_mask(s);
        lemma_bit_and(self.protect(), self.enemy().all());
        lemma_bit_and(self.protect() & self.enemy().all(), self.pin_mask(s));
        lemma_bit_or(inner, self.en_passant_mask());
        lemma_bit_and(reach, inner | self.en_passant_mask());
        assert(bit(self.capture_targets(s), d));
        match self.en_passant {
            Some(e) => {
                e.lemma_idx();
                Square::lemma_of(d);
            },
            None => {},
        }
        assert(self.en_passant != Some(Square::of(d)));
        let q = self.capture_to(s, d);
        if rank_of(d) == self.last_rank() {
            assert(q[0] == Move::Promotion(Square::of(s), Square::of(d), Piece::Queen));
            assert(q[1] == Move::Promotion(Square::of(s), Square::of(d), Piece::Rook));
            assert(q[2] == Move::Promotion(Square::of(s), Square::of(d), Piece::Bishop));
            assert(q[3] == Move::Promotion(Square::of(s), Square::of(d), Piece::Knight));
        } else {
            assert(q[0] == m);
        }
        assert(q.contains(m));
        let g = self.capture_to_fn(s);
        assert(g(d).contains(m));
        lemma_moves_over_contains(self.capture_targets(s), g, 64, m);
        let f = self.captures_fn();
        assert(f(s).contains(m));
        lemma_moves_over_contains(self.own().pawns.0, f, 64, m);
    }

    /// A move of a pawn, other than a capture in passing, that the rules allow
    /// is generated.
    pub proof fn lemma_pawn_generated(self, m: Move, src: Square, dst: Square, to: Piece)
        requires
            self.wf(),
            (m == Move::Normal(src, dst, Piece::Pawn) && to == Piece::Pawn) || m
                == Move::Promotion(src, dst, to),
            self.by_the_rules(m),
        ensures
            self.legal_move_seq().contains(m),
    {
        let s = src.idx();
        let d = dst.idx();
        let us = self.turn;
        src.lemma_idx();
        dst.lemma_idx();
        let after = self.after(m).board;
        assert(after == crate::safety::board_after(self.board, us, Piece::Pawn, to, s, d));
        lemma_board_after_exchanged(self.board, us, Piece::Pawn, to, s, d);
        lemma_all_bits(self.own(), s);
        lemma_board_bits(self.board, s);
        self.lemma_safe_move_allowed(after, s, d);
        assert(self.pawn_move(m, s, d));
        if self.pawn_captures(s, d) {
            self.lemma_pawn_capture_generated(m, s, d);
        } else if self.forward().step_from(s) == Some(d) && self.empty_at(d) {
            self.lemma_single_step_generated(m, s, d);
        } else {
            self.lemma_double_step_generated(m, s, d);
        }
        self.lemma_legal_parts(m);
    }

    /// A castling move that the rules allow is generated.
    pub proof fn lemma_castle_generated(self, m: Move)
        requires
            self.wf(),
            m == Move::KingsideCastle || m == Move::QueensideCastle,
            self.by_the_rules(m),
        ensures
            self.legal_move_seq().contains(m),
    {
        self.lemma_wf_set_up();
        let k = self.king_cell();
        crate::safety::lemma_castle_cells(self.turn);
        if m == Move::KingsideCastle {
            crate::safety::lemma_apart(
                crate::constants::safe_king_castle(self.turn),
                self.attacked(),
                k,
            );
        } else {
            crate::safety::lemma_apart(
                crate::constants::safe_queen_castle(self.turn),
                self.attacked(),
                k,
            );
        }
        if self.checks() >= 1 {
            let (w, a) = self.lemma_one_checker();
            self.lemma_checker_attacks(w, a);
        }
        self.lemma_castling();
    }
}

/// The kind of a slider that stands on a cell of the rooks and queens, or of
/// the bishops and queens, of a side.
pub open spec fn slider_on(p: crate::pieces::Pieces, way: int, a: int) -> Piece {
    if way == 2 || way == 3 {
        if bit(p.rooks.0, a) {
            Piece::Rook
        } else {
            Piece::Queen
        }
    } else {
        if bit(p.bishops.0, a) {
            Piece::Bishop
        } else {
            Piece::Queen
        }
    }
}

/// The cell that a pawn has passed does not lie on the way of any piece to a
/// cell that the pawn attacks: from the one cell to the other it is one file
/// and two ranks.
pub proof fn lemma_passed_cell_off_way(color: Color, e: int, c: int, k: int, a: int)
    requires
        on_board(a),
        on_board(e),
        Direction::pawn_spec(color).step_from(e) == Some(c),
        pawn_takes(color, c, k),
    ensures
        !on_the_way(a, e, k),
{
    if on_the_way(a, e, k) {
        let (dir, i, j) = choose|dir: Direction, i: int, j: int|
            1 <= i < j < 8 && #[trigger] crate::geometry::ray_cell(a, dir, i) == Some(e)
                && #[trigger] crate::geometry::ray_cell(a, dir, j) == Some(k);
        crate::geometry::lemma_ray_from_cell(a, dir, i, j - i);
        lemma_off_ray(e, dir, j - i, k);
    }
}

/// A cell one file and two ranks away is on no ray.
pub proof fn lemma_off_ray(e: int, dir: Direction, n: int, k: int)
    requires
        on_board(e),
        on_board(k),
        1 <= n,
        crate::bitboard::file_of(k) - crate::bitboard::file_of(e) == 1 || crate::bitboard::file_of(
            k,
        ) - crate::bitboard::file_of(e) == -1,
        rank_of(k) - rank_of(e) == 2 || rank_of(k) - rank_of(e) == -2,
    ensures
        crate::geometry::ray_cell(e, dir, n) != Some(k),
{
    reveal(crate::geometry::ray_cell);
    let f = crate::geometry::along(crate::bitboard::file_of(e), dir.df(), n);
    let rr = crate::geometry::along(rank_of(e), dir.dr(), n);
    if 0 <= f < 8 && 0 <= rr < 8 {
        crate::geometry::lemma_cell(f, rr);
    }
}

impl Position {
    /// A cell on the way to the king is a cell of the board other than the
    /// king's.
    pub proof fn lemma_on_the_way_cell(self, a: int, x: int)
        requires
            on_board(a),
            on_the_way(a, x, self.king_cell()),
        ensures
            on_board(x),
            x != self.king_cell(),
    {
        let k = self.king_cell();
        let (dir, i, j) = choose|dir: Direction, i: int, j: int|
            1 <= i < j < 8 && #[trigger] crate::geometry::ray_cell(a, dir, i) == Some(x)
                && #[trigger] crate::geometry::ray_cell(a, dir, j) == Some(k);
        crate::geometry::lemma_ray_distinct(a, dir, i, j);
        crate::geometry::lemma_ray_step(a, dir, i);
    }

    /// A slider that gives check threatens the king on every board on which it
    /// still stands and on which the cells between it and the king are empty.
    pub proof fn lemma_slider_threat(self, other: crate::position::Board, way: int, a: int)
        requires
            self.king_set_up(),
            2 <= way < 6,
            self.gives_check(way, a),
            bit(other.of(self.turn.opposite()).mask(slider_on(self.enemy(), way, a)), a),
            forall|c: int|
                on_the_way(a, c, self.king_cell()) && !bit(self.behind_king(), c) ==> !bit(
                    other.all(),
                    c,
                ),
        ensures
            bit(self.enemy().mask(slider_on(self.enemy(), way, a)), a),
            threatens(
                slider_on(self.enemy(), way, a),
                self.turn.opposite(),
                other.all(),
                a,
                self.king_cell(),
            ),
    {
        let k = self.king_cell();
        let occ = self.behind_king();
        let axis = way_axis_of(way);
        lemma_bit_or(self.enemy().rooks.0, self.enemy().queens.0);
        lemma_bit_or(self.enemy().bishops.0, self.enemy().queens.0);
        let (dir, j) = self.lemma_check_way(way, a);
        let first = crate::geometry::in_mask(occ);
        let second = crate::geometry::in_mask(other.all());
        assert forall|i: int|
            1 <= i <= j - 1 && crate::geometry::ray_cell(a, dir, i) is Some implies !second(
            #[trigger] crate::geometry::ray_cell(a, dir, i)->0,
        ) by {
            let c = crate::geometry::ray_cell(a, dir, i)->0;
            crate::geometry::lemma_blockers_none(first, a, dir, j - 1, i);
            assert(on_the_way(a, c, k));
        }
        crate::geometry::lemma_blockers_clear(second, a, dir, j - 1);
        assert(crate::geometry::reaches(second, a, dir, k, 0));
        assert(crate::geometry::slides(other.all(), axis, a, k, 0));
    }

    /// Whether a capture in passing on the cell `e` does away with the check that
    /// the piece on cell `a` gives in the given way: it takes the pawn that gives
    /// it, or it puts the capturing pawn in the way of a slider.
    pub open spec fn passing_answers(self, way: int, a: int, e: int) -> bool {
        (way == 0 && self.backward().step_from(e) == Some(a)) || (way >= 2 && on_the_way(
            a,
            e,
            self.king_cell(),
        ))
    }

    /// A piece that gives check still does after a capture in passing that
    /// neither takes it nor puts a pawn in its way.
    pub proof fn lemma_passing_checker_stays(self, src: Square, dst: Square, way: int, a: int)
        requires
            self.wf(),
            self.has_king(),
            self.permitted(Move::EnPassant(src, dst)),
            self.gives_check(way, a),
            !self.passing_answers(way, a, dst.idx()),
        ensures
            self.after(Move::EnPassant(src, dst)).board.checked(self.turn),
    {
        self.lemma_wf_set_up();
        let us = self.turn;
        let them = us.opposite();
        let k = self.king_cell();
        let e = dst.idx();
        let s = src.idx();
        dst.lemma_idx();
        src.lemma_idx();
        let c = self.backward().step_from(e)->0;
        let en = self.enemy();
        let m = Move::EnPassant(src, dst);
        let after = self.after(m).board;
        assert(after == crate::validity::board_taking(
            self.board,
            us,
            Piece::Pawn,
            Piece::Pawn,
            s,
            e,
            Some(c),
        ));
        self.board.lemma_tidy_cell(them, Piece::Pawn, c);
        self.board.lemma_tidy_cell(us, Piece::Pawn, s);
        lemma_bit_or(en.rooks.0, en.queens.0);
        lemma_bit_or(en.bishops.0, en.queens.0);
        lemma_pawn_takes(us, s, e);
        assert(after.of(us).kings == self.own().kings);
        crate::safety::lemma_checked(after, us, k);
        let occ = self.behind_king();
        if way == 0 || way == 1 {
            let kind = if way == 0 {
                Piece::Pawn
            } else {
                Piece::Knight
            };
            crate::safety::lemma_meets(piece_mask(kind, them, occ, a), k);
            crate::safety::lemma_without_bits(en, c, kind, a);
            assert(bit(after.of(them).mask(kind), a));
            assert(threatens(kind, them, after.all(), a, k));
        } else {
            let kind = slider_on(en, way, a);
            crate::safety::lemma_without_bits(en, c, kind, a);
            assert(bit(after.of(them).mask(kind), a));
            assert forall|x: int| on_the_way(a, x, k) && !bit(occ, x) implies !bit(
                after.all(),
                x,
            ) by {
                self.lemma_on_the_way_cell(a, x);
                self.lemma_behind_king(x);
                lemma_board_bits(self.board, x);
                lemma_board_bits(after, x);
                crate::safety::lemma_moved_bits(self.own(), Piece::Pawn, Piece::Pawn, s, e, x);
                crate::safety::lemma_without_bits(en, c, Piece::Pawn, x);
                crate::safety::lemma_without_bits(en, c, Piece::Knight, x);
                crate::safety::lemma_without_bits(en, c, Piece::Bishop, x);
                crate::safety::lemma_without_bits(en, c, Piece::Rook, x);
                crate::safety::lemma_without_bits(en, c, Piece::Queen, x);
                crate::safety::lemma_without_bits(en, c, Piece::King, x);
                lemma_all_bits(self.own(), s);
                lemma_board_bits(self.board, s);
            }
            self.lemma_slider_threat(after, way, a);
        }
    }

    /// A capture in passing that the rules allow is made with one check at most:
    /// it cannot do away with two checks.
    pub proof fn lemma_passing_one_check(self, src: Square, dst: Square)
        requires
            self.wf(),
            self.by_the_rules(Move::EnPassant(src, dst)),
        ensures
            self.checks() <= 1,
    {
        if self.checks() >= 2 {
            self.lemma_wf_set_up();
            let k = self.king_cell();
            let e = dst.idx();
            dst.lemma_idx();
            let them = self.turn.opposite();
            let (w1, a1, w2, a2) = self.lemma_two_checkers();
            if !self.passing_answers(w1, a1, e) {
                self.lemma_passing_checker_stays(src, dst, w1, a1);
            }
            if !self.passing_answers(w2, a2, e) {
                self.lemma_passing_checker_stays(src, dst, w2, a2);
            }
            if w1 >= 2 && w2 >= 2 {
                assert(self.answers(w1, a1, e));
                self.lemma_one_answer(w1, a1, w2, a2, e);
            } else if w1 == 0 && w2 == 0 {
            } else {
                let (c, a) = if w1 == 0 {
                    (a1, a2)
                } else {
                    (a2, a1)
                };
                crate::safety::lemma_meets(
                    piece_mask(Piece::Pawn, them, self.behind_king(), c),
                    k,
                );
                lemma_pawn_takes(them, c, k);
                lemma_passed_cell_off_way(them, e, c, k, a);
            }
        }
    }

    /// A capture in passing that the rules allow is generated.
    pub proof fn lemma_passing_generated(self, src: Square, dst: Square)
        requires
            self.wf(),
            self.by_the_rules(Move::EnPassant(src, dst)),
        ensures
            self.legal_move_seq().contains(Move::EnPassant(src, dst)),
    {
        let m = Move::EnPassant(src, dst);
        let s = src.idx();
        let d = dst.idx();
        let us = self.turn;
        src.lemma_idx();
        dst.lemma_idx();
        self.lemma_wf_set_up();
        self.lemma_passing_one_check(src, dst);
        lemma_pawn_takes(us, s, d);
        lemma_bit_single(d);
        let reach = piece_mask(Piece::Pawn, us, self.board.all(), s);
        let inner = self.protect() & self.enemy().all() & self.pin_mask(s);
        lemma_bit_or(inner, self.en_passant_mask());
        lemma_bit_and(reach, inner | self.en_passant_mask());
        assert(bit(self.capture_targets(s), d));
        match self.backward().step_from(d) {
            None => {},
            Some(c) => {
                let e = self.enemy();
                crate::bitboard::lemma_clear_absent(e.knights.0, c);
                crate::bitboard::lemma_clear_absent(e.bishops.0, c);
                crate::bitboard::lemma_clear_absent(e.rooks.0, c);
                crate::bitboard::lemma_clear_absent(e.queens.0, c);
                crate::bitboard::lemma_clear_absent(e.kings.0, c);
            },
        }
        assert(self.after(m).board == self.en_passant_board(s, d));
        let q = self.capture_to(s, d);
        assert(q[0] == m);
        let g = self.capture_to_fn(s);
        assert(g(d).contains(m));
        lemma_moves_over_contains(self.capture_targets(s), g, 64, m);
        let f = self.captures_fn();
        assert(f(s).contains(m));
        lemma_moves_over_contains(self.own().pawns.0, f, 64, m);
        self.lemma_legal_parts(m);
    }

    /// Every move that the rules allow is generated.
    pub proof fn lemma_by_the_rules_generated(self, m: Move)
        requires
            self.wf(),
            self.by_the_rules(m),
        ensures
            self.legal_move_seq().contains(m),
    {
        match m {
            Move::Normal(src, dst, piece) => {
                match piece {
                    Piece::King => {
                        self.lemma_king_generated(src, dst);
                    },
                    Piece::Pawn => {
                        self.lemma_pawn_generated(m, src, dst, Piece::Pawn);
                    },
                    _ => {
                        self.lemma_piece_generated(src, dst, piece);
                    },
                }
            },
            Move::Promotion(src, dst, to) => {
                self.lemma_pawn_generated(m, src, dst, to);
            },
            Move::EnPassant(src, dst) => {
                self.lemma_passing_generated(src, dst);
            },
            _ => {
                self.lemma_castle_generated(m);
            },
        }
    }

    /// The moves that are generated are the moves that the rules allow: in a
    /// well-formed position, a move is among the legal moves exactly when the
    /// pieces can make it and it leaves the king of the side to move out of
    /// check.
    pub proof fn lemma_legal_moves_by_the_rules(self, m: Move)
        requires
            self.wf(),
        ensures
            self.legal_move_seq().contains(m) <==> self.by_the_rules(m),
    {
        if self.legal_move_seq().contains(m) {
            self.lemma_generated_by_the_rules(m);
        }
        if self.by_the_rules(m) {
            self.lemma_by_the_rules_generated(m);
        }
    }

    /// Whether the rules allow the side to move no move at all.
    pub open spec fn has_no_move(self) -> bool {
        forall|m: Move| !self.by_the_rules(m)
    }

    /// Whether the side to move is mated: its king is in check, and the rules
    /// allow it no move.
    pub open spec fn mated(self) -> bool {
        self.checked() && self.has_no_move()
    }

    /// Whether the side to move is stalemated: its king is not in check, and the
    /// rules allow it no move.
    pub open spec fn stalled(self) -> bool {
        !self.checked() && self.has_no_move()
    }

    /// No move is generated exactly when the side to move is mated or
    /// stalemated.
    pub proof fn lemma_no_move_is_mate_or_stalemate(self)
        requires
            self.wf(),
        ensures
            self.legal_move_seq().len() == 0 <==> self.mated() || self.stalled(),
    {
        let moves = self.legal_move_seq();
        if moves.len() == 0 {
            assert forall|m: Move| !self.by_the_rules(m) by {
                self.lemma_legal_moves_by_the_rules(m);
            }
        } else {
            let m = moves[0];
            assert(moves.contains(m));
            self.lemma_legal_moves_by_the_rules(m);
        }
    }
}

} // verus!
