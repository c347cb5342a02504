//! What holds of every position of a game: no cell holds two pieces, no side
//! has two kings, a side that may castle has king and rook at home, and a pawn
//! stands behind the en-passant cell. Legal moves keep all of this.
use vstd::prelude::*;
use crate::bitboard::{
    bit, lemma_bit_and, lemma_bit_not, lemma_bit_or, lemma_bit_single, lemma_bit_zero,
    lemma_clear_absent, lemma_lowest, lemma_single_moved, lowest, on_board, single, Direction,
    Square,
};
use crate::pieces::{Piece, Pieces};
use crate::position::{king_home, king_rook_home, queen_rook_home, Board, Position};
use crate::repr::{Color, Colored, Move};
use crate::safety::{board_after, lemma_all_bits, lemma_without_bits};

verus! {

/// One if the condition holds, zero if not.
pub open spec fn one_if(b: bool) -> int {
    if b {
        1
    } else {
        0
    }
}

/// Whether a mask of kings holds one king at most.
pub open spec fn one_king_at_most(kings: u64) -> bool {
    kings == 0 || kings == single(lowest(kings))
}

impl Pieces {
    /// The number of pieces of one side on cell `s`.
    pub open spec fn count_at(self, s: int) -> int {
        one_if(bit(self.pawns.0, s)) + one_if(bit(self.knights.0, s)) + one_if(
            bit(self.bishops.0, s),
        ) + one_if(bit(self.rooks.0, s)) + one_if(bit(self.queens.0, s)) + one_if(
            bit(self.kings.0, s),
        )
    }

    /// The number of pieces on a cell after a piece has been taken from a cell.
    pub proof fn lemma_count_lifted(self, kind: Piece, s: int, t: int)
        requires
            on_board(s),
            bit(self.mask(kind), s),
        ensures
            self.lifted(kind, s).count_at(t) == self.count_at(t) - one_if(t == s),
            forall|other: Piece| other != kind ==> self.lifted(kind, s).mask(other) == self.mask(other),
    {
        lemma_bit_single(s);
        lemma_bit_not(single(s));
        lemma_bit_and(self.mask(kind), !single(s));
        if on_board(t) {
            assert(bit(!single(s), t) == !bit(single(s), t));
        }
    }

    /// The number of pieces on a cell after a piece has been put on a cell.
    pub proof fn lemma_count_dropped(self, kind: Piece, d: int, t: int)
        requires
            on_board(d),
            !bit(self.mask(kind), d),
        ensures
            self.dropped(kind, d).count_at(t) == self.count_at(t) + one_if(t == d),
            forall|other: Piece| other != kind ==> self.dropped(kind, d).mask(other) == self.mask(other),
    {
        lemma_bit_single(d);
        lemma_bit_or(self.mask(kind), single(d));
    }

    /// The number of pieces on a cell after what stood on a cell has been taken.
    pub proof fn lemma_count_without(self, d: int, t: int)
        requires
            on_board(d),
        ensures
            self.without(d).count_at(t) == if t == d {
                0
            } else {
                self.count_at(t)
            },
    {
        lemma_without_bits(self, d, Piece::Pawn, t);
        lemma_without_bits(self, d, Piece::Knight, t);
        lemma_without_bits(self, d, Piece::Bishop, t);
        lemma_without_bits(self, d, Piece::Rook, t);
        lemma_without_bits(self, d, Piece::Queen, t);
        lemma_without_bits(self, d, Piece::King, t);
    }
}

/// The mask of one cell is not empty, and the cell is its lowest.
pub proof fn lemma_single_lowest(d: int)
    requires
        on_board(d),
    ensures
        single(d) != 0,
        lowest(single(d)) == d,
        one_king_at_most(single(d)),
{
    lemma_bit_single(d);
    lemma_bit_zero(single(d));
    assert(bit(single(d), d));
    lemma_lowest(single(d));
}

/// A side that has one king at most has one king at most after a cell has been
/// cleared, and the king that it still has is the one that it had.
pub proof fn lemma_king_without(kings: u64, d: int)
    requires
        on_board(d),
        one_king_at_most(kings),
    ensures
        one_king_at_most(kings & !single(d)),
        kings & !single(d) == 0 || kings & !single(d) == kings,
{
    let du = d as u64;
    if kings == 0 {
        assert(0u64 & !(1u64 << du) == 0) by (bit_vector);
    } else {
        let k = lowest(kings);
        lemma_lowest(kings);
        if k == d {
            assert((1u64 << du) & !(1u64 << du) == 0) by (bit_vector);
        } else {
            lemma_bit_single(k);
            lemma_clear_absent(kings, d);
        }
    }
}

impl Colored<Pieces> {
    /// Whether no cell holds two pieces and no side has two kings.
    pub open spec fn tidy(self) -> bool {
        &&& forall|s: int| on_board(s) ==> #[trigger] self.0.count_at(s) + self.1.count_at(s) <= 1
        &&& one_king_at_most(self.0.kings.0)
        &&& one_king_at_most(self.1.kings.0)
    }

    /// On a tidy board a cell that holds a piece of the one side holds none of
    /// the other, and one kind of piece only.
    pub proof fn lemma_tidy_cell(self, c: Color, kind: Piece, s: int)
        requires
            self.tidy(),
            on_board(s),
            bit(self.of(c).mask(kind), s),
        ensures
            self.of(c.opposite()).vacant(s),
            forall|other: Piece| other != kind ==> !bit(#[trigger] self.of(c).mask(other), s),
    {
        assert(self.0.count_at(s) + self.1.count_at(s) <= 1);
    }
}

/// The board after a move stays tidy: a piece of the kind `from` of the side
/// `us` leaves the cell `s`, a piece of the kind `to` arrives on the cell `d`
/// where that side had none, and what the other side had there is taken. A king
/// stays a king, and nothing else becomes one.
pub proof fn lemma_board_after_tidy(b: Board, us: Color, from: Piece, to: Piece, s: int, d: int)
    requires
        b.tidy(),
        on_board(s),
        on_board(d),
        bit(b.of(us).mask(from), s),
        b.of(us).vacant(d),
        (from == Piece::King) == (to == Piece::King),
    ensures
        board_after(b, us, from, to, s, d).tidy(),
{
    let after = board_after(b, us, from, to, s, d);
    let own = b.of(us);
    let enemy = b.of(us.opposite());
    let lifted = own.lifted(from, s);
    let mine = lifted.dropped(to, d);
    let theirs = enemy.without(d);
    assert forall|t: int| on_board(t) implies #[trigger] after.0.count_at(t) + after.1.count_at(t)
        <= 1 by {
        own.lemma_count_lifted(from, s, t);
        own.lemma_count_lifted(from, s, d);
        lifted.lemma_count_dropped(to, d, t);
        enemy.lemma_count_without(d, t);
        assert(own.count_at(d) == 0);
        assert(b.0.count_at(t) + b.1.count_at(t) <= 1);
    }
    lemma_king_without(enemy.kings.0, d);
    lemma_bit_and(own.mask(from), !single(s));
    own.lemma_count_lifted(from, s, s);
    lifted.lemma_count_dropped(to, d, d);
    if from == Piece::King {
        lemma_bit_zero(own.kings.0);
        assert(bit(own.kings.0, s));
        lemma_lowest(own.kings.0);
        lemma_bit_single(lowest(own.kings.0));
        lemma_single_moved(s, d);
        lemma_single_lowest(d);
    }
}

impl Position {
    /// Whether the side of the given colour, while it may castle, has the rook
    /// of that wing on its home cell, and its king, if it has one, as well.
    pub open spec fn rights_hold(self, c: Color) -> bool {
        let rights = self.castling_rights.of(c);
        let pieces = self.board.of(c);
        &&& rights.kingside ==> bit(pieces.rooks.0, king_rook_home(c).idx()) && (pieces.kings.0
            != 0 ==> bit(pieces.kings.0, king_home(c).idx()))
        &&& rights.queenside ==> bit(pieces.rooks.0, queen_rook_home(c).idx()) && (pieces.kings.0
            != 0 ==> bit(pieces.kings.0, king_home(c).idx()))
    }

    /// Whether the en-passant cell, if there is one, is empty and has a pawn of
    /// the side that has just moved behind it.
    pub open spec fn passing_holds(self) -> bool {
        self.en_passant matches Some(e) ==> {
            &&& self.own().vacant(e.idx())
            &&& self.enemy().vacant(e.idx())
            &&& self.backward().step_from(e.idx()) matches Some(c) && bit(self.enemy().pawns.0, c)
        }
    }

    /// Whether the position is one of a game: the board is tidy, the castling
    /// rights of both sides hold, and so does the en-passant cell.
    pub open spec fn wf(self) -> bool {
        &&& self.board.tidy()
        &&& self.rights_hold(Color::White)
        &&& self.rights_hold(Color::Black)
        &&& self.passing_holds()
    }

    /// In a position of a game in which the side to move has a king, that king
    /// is set up as the rules have it.
    pub proof fn lemma_wf_set_up(self)
        requires
            self.wf(),
            self.has_king(),
        ensures
            self.king_set_up(),
    {
        reveal(Square::idx);
        let k = self.king_cell();
        lemma_lowest(self.own().kings.0);
        lemma_bit_single(k);
        self.board.lemma_tidy_cell(self.turn, Piece::King, k);
        assert(self.enemy().vacant(k));
        assert(self.own().kings.0 == single(k));
        match self.en_passant {
            Some(e) => {
                e.lemma_idx();
                let c = self.backward().step_from(e.idx())->0;
                let enemy = self.enemy();
                self.board.lemma_tidy_cell(self.turn.opposite(), Piece::Pawn, c);
                assert(!bit(enemy.mask(Piece::Knight), c));
                assert(!bit(enemy.mask(Piece::Bishop), c));
                assert(!bit(enemy.mask(Piece::Rook), c));
                assert(!bit(enemy.mask(Piece::Queen), c));
                assert(!bit(enemy.mask(Piece::King), c));
                assert(self.pawn_behind(e));
            },
            None => {},
        }
    }

    /// No legal move leaves the king of the side that makes it in check.
    pub proof fn lemma_legal_moves_keep_king_safe(self, m: Move)
        requires
            self.wf(),
            self.legal_move_seq().contains(m),
        ensures
            !self.after(m).board.checked(self.turn),
    {
        self.lemma_legal_parts(m);
        self.lemma_wf_set_up();
        self.lemma_legal_move_safe(m);
    }
}


/// The board after a move on which the piece taken stands on the cell `c`,
/// which need not be the cell `d` that the moving piece arrives on.
pub open spec fn board_taking(
    b: Board,
    us: Color,
    from: Piece,
    to: Piece,
    s: int,
    d: int,
    c: Option<int>,
) -> Board {
    b.with(us, b.of(us).lifted(from, s).dropped(to, d)).with(
        us.opposite(),
        match c {
            Some(c) => b.of(us.opposite()).without(c),
            None => b.of(us.opposite()),
        },
    )
}

/// Such a board stays tidy if the cell that the piece arrives on was empty.
#[verifier::rlimit(30)]
pub proof fn lemma_board_taking_tidy(
    b: Board,
    us: Color,
    from: Piece,
    to: Piece,
    s: int,
    d: int,
    c: Option<int>,
)
    requires
        b.tidy(),
        on_board(s),
        on_board(d),
        c matches Some(x) ==> on_board(x),
        bit(b.of(us).mask(from), s),
        b.of(us).vacant(d),
        b.of(us.opposite()).vacant(d),
        from != Piece::King,
        to != Piece::King,
    ensures
        board_taking(b, us, from, to, s, d, c).tidy(),
{
    let after = board_taking(b, us, from, to, s, d, c);
    let own = b.of(us);
    let enemy = b.of(us.opposite());
    let lifted = own.lifted(from, s);
    lemma_bit_and(own.mask(from), !single(s));
    assert forall|t: int| on_board(t) implies #[trigger] after.0.count_at(t) + after.1.count_at(t)
        <= 1 by {
        own.lemma_count_lifted(from, s, t);
        lifted.lemma_count_dropped(to, d, t);
        match c {
            Some(x) => {
                enemy.lemma_count_without(x, t);
            },
            None => {},
        }
        assert(own.count_at(d) == 0);
        assert(enemy.count_at(d) == 0);
        assert(b.0.count_at(t) + b.1.count_at(t) <= 1);
    }
    match c {
        Some(x) => {
            lemma_king_without(enemy.kings.0, x);
        },
        None => {},
    }
    own.lemma_count_lifted(from, s, s);
    lifted.lemma_count_dropped(to, d, d);
}

impl Position {
    /// Whether the move makes no new king: it is no promotion to a king.
    pub open spec fn crowns_nobody(m: Move) -> bool {
        match m {
            Move::Promotion(_, _, to) => to != Piece::King,
            _ => true,
        }
    }

    /// After any move that makes no new king, the castling rights of both sides
    /// hold if they held before and no side had two kings.
    pub proof fn lemma_after_rights(self, m: Move)
        requires
            self.rights_hold(Color::White),
            self.rights_hold(Color::Black),
            one_king_at_most(self.enemy().kings.0),
            Self::crowns_nobody(m),
        ensures
            self.after(m).rights_hold(Color::White),
            self.after(m).rights_hold(Color::Black),
    {
        reveal(Square::idx);
        let us = self.turn;
        let them = us.opposite();
        let o = self.outcome(m);
        let next = self.after(m);
        assert(self.rights_hold(us) && self.rights_hold(them));
        // the side that has moved
        assert(next.rights_hold(us)) by {
            match m {
                Move::Normal(src, dst, piece) => {
                    src.lemma_idx();
                    dst.lemma_idx();
                    crate::bitboard::lemma_bit_moved(self.own().mask(piece), src.idx(), dst.idx());
                },
                Move::EnPassant(src, dst) => {},
                Move::Promotion(src, dst, to) => {
                    dst.lemma_idx();
                    lemma_bit_or(self.own().lifted(Piece::Pawn, src.idx()).mask(to), single(
                        dst.idx(),
                    ));
                },
                _ => {},
            }
        }
        // the other side
        assert(next.rights_hold(them)) by {
            match m {
                Move::Normal(_, dst, _) => {
                    dst.lemma_idx();
                    lemma_king_without(self.enemy().kings.0, dst.idx());
                },
                Move::Promotion(_, dst, _) => {
                    dst.lemma_idx();
                    lemma_king_without(self.enemy().kings.0, dst.idx());
                },
                Move::EnPassant(_, dst) => {
                    dst.lemma_idx();
                    match Direction::pawn_spec(them).step_from(dst.idx()) {
                        Some(c) => {
                            lemma_king_without(self.enemy().kings.0, c);
                        },
                        None => {},
                    }
                },
                _ => {},
            }
        }
    }
}


/// Whether a pawn that goes from cell `s` to cell `d` takes a double step.
pub open spec fn double_step(s: int, d: int) -> bool {
    crate::bitboard::rank_of(s) - crate::bitboard::rank_of(d) > 1 || crate::bitboard::rank_of(d)
        - crate::bitboard::rank_of(s) > 1
}

impl Position {
    /// After a move that takes a piece of the kind `from` from the cell `s` and
    /// puts a piece of the kind `to` on the cell `d`, where the side to move had
    /// none, the position is again one of a game. A king stays a king and nothing
    /// else becomes one; a pawn that takes a double step passes an empty cell.
    pub proof fn lemma_after_wf_shift(self, m: Move, from: Piece, to: Piece, s: int, d: int)
        requires
            self.wf(),
            on_board(s),
            on_board(d),
            bit(self.own().mask(from), s),
            self.own().vacant(d),
            (from == Piece::King) == (to == Piece::King),
            (m == Move::Normal(Square::of(s), Square::of(d), from) && to == from) || (m
                == Move::Promotion(Square::of(s), Square::of(d), to) && from == Piece::Pawn),
            m == Move::Normal(Square::of(s), Square::of(d), Piece::Pawn) && double_step(s, d) ==> {
                let forward = Direction::pawn_spec(self.turn);
                &&& forward.step_from(s) matches Some(mid) && forward.step_from(mid) == Some(d)
                    && self.own().vacant(mid) && self.enemy().vacant(mid)
            },
        ensures
            self.after(m).wf(),
    {
        let us = self.turn;
        let them = us.opposite();
        Square::lemma_of(s);
        Square::lemma_of(d);
        let next = self.after(m);
        assert(next.board == board_after(self.board, us, from, to, s, d));
        lemma_board_after_tidy(self.board, us, from, to, s, d);
        self.lemma_after_rights(m);
        if m == Move::Normal(Square::of(s), Square::of(d), Piece::Pawn) && double_step(s, d) {
            let forward = Direction::pawn_spec(us);
            let mid = forward.step_from(s)->0;
            Square::lemma_of(mid);
            crate::safety::lemma_moved_bits(self.own(), from, to, s, d, mid);
            crate::bitboard::lemma_bit_moved(self.own().pawns.0, s, d);
            lemma_without_bits(self.enemy(), d, Piece::Pawn, mid);
            lemma_without_bits(self.enemy(), d, Piece::Knight, mid);
            lemma_without_bits(self.enemy(), d, Piece::Bishop, mid);
            lemma_without_bits(self.enemy(), d, Piece::Rook, mid);
            lemma_without_bits(self.enemy(), d, Piece::Queen, mid);
            lemma_without_bits(self.enemy(), d, Piece::King, mid);
            assert(next.en_passant == Some(Square::of(mid)));
            assert(next.passing_holds());
        } else {
            assert(next.en_passant is None);
        }
    }

    /// After a legal capture in passing the position is again one of a game.
    pub proof fn lemma_after_wf_passing(self, src: Square, dst: Square)
        requires
            self.wf(),
            self.legal_move_seq().contains(Move::EnPassant(src, dst)),
        ensures
            self.after(Move::EnPassant(src, dst)).wf(),
    {
        let m = Move::EnPassant(src, dst);
        self.lemma_en_passant(src, dst);
        src.lemma_idx();
        dst.lemma_idx();
        let us = self.turn;
        let c = Direction::pawn_spec(us.opposite()).step_from(dst.idx());
        let next = self.after(m);
        assert(next.board == board_taking(
            self.board,
            us,
            Piece::Pawn,
            Piece::Pawn,
            src.idx(),
            dst.idx(),
            c,
        ));
        lemma_board_taking_tidy(self.board, us, Piece::Pawn, Piece::Pawn, src.idx(), dst.idx(), c);
        self.lemma_after_rights(m);
    }

    /// After a castling move that is allowed the position is again one of a
    /// game.
    pub proof fn lemma_after_wf_castle(self, m: Move)
        requires
            self.wf(),
            self.has_king(),
            (m == Move::KingsideCastle && self.can_castle_kingside()) || (m
                == Move::QueensideCastle && self.can_castle_queenside()),
        ensures
            self.after(m).wf(),
    {
        reveal(Square::idx);
        self.lemma_wf_set_up();
        let us = self.turn;
        let k = self.king_cell();
        crate::safety::lemma_castle_cells(us);
        self.lemma_after_rights(m);
        let (kt, rh, rt) = if m == Move::KingsideCastle {
            (k + 2, k + 3, k + 1)
        } else {
            (k - 2, k - 4, k - 1)
        };
        let free = if m == Move::KingsideCastle {
            crate::constants::free_king_castle(us)
        } else {
            crate::constants::free_queen_castle(us)
        };
        crate::safety::lemma_apart(free, self.board.all(), kt);
        crate::safety::lemma_apart(free, self.board.all(), rt);
        crate::safety::lemma_board_bits(self.board, kt);
        crate::safety::lemma_board_bits(self.board, rt);
        lemma_bit_single(k);
        let first = board_after(self.board, us, Piece::King, Piece::King, k, kt);
        lemma_board_after_tidy(self.board, us, Piece::King, Piece::King, k, kt);
        self.enemy().lemma_without_vacant(kt);
        self.enemy().lemma_without_vacant(rt);
        crate::safety::lemma_moved_bits(self.own(), Piece::King, Piece::King, k, kt, rt);
        lemma_board_after_tidy(first, us, Piece::Rook, Piece::Rook, rh, rt);
        let next = self.after(m);
        assert(next.board == board_after(first, us, Piece::Rook, Piece::Rook, rh, rt));
    }

    /// A legal move of the king keeps a position one of a game.
    pub proof fn lemma_king_keeps_wf(self, m: Move)
        requires
            self.wf(),
            self.has_king(),
            self.king_moves().contains(m),
        ensures
            self.after(m).wf(),
    {
        self.lemma_wf_set_up();
        let k = self.king_cell();
        let own = self.own();
        lemma_bit_single(k);
        crate::laws::lemma_moves_to_contains(Square::of(k), Piece::King, self.king_targets(), m);
        let d = choose|d: int|
            0 <= d < 64 && bit(self.king_targets(), d) && m == Move::Normal(
                Square::of(k),
                #[trigger] Square::of(d),
                Piece::King,
            );
        lemma_bit_and(crate::constants::king_mask(k) & !self.attacked(), !own.all());
        lemma_bit_not(own.all());
        lemma_all_bits(own, d);
        self.lemma_after_wf_shift(m, Piece::King, Piece::King, k, d);
    }

    /// A legal single step of a pawn keeps a position one of a game.
    pub proof fn lemma_single_push_keeps_wf(self, m: Move)
        requires
            self.wf(),
            self.single_push_moves().contains(m),
        ensures
            self.after(m).wf(),
    {
        let f = self.single_push_fn();
        crate::laws::lemma_moves_over_contains(self.single_pushes(), f, 64, m);
        let d = choose|d: int|
            0 <= d < 64 && bit(self.single_pushes(), d) && (#[trigger] f(d)).contains(m);
        self.lemma_single_pushes(d);
        let s = self.backward().step_from(d)->0;
        let q = self.single_push_to(d);
        let i = choose|i: int| 0 <= i < q.len() && q[i] == m;
        assert(q[i] == m);
        crate::safety::lemma_board_bits(self.board, d);
        let to = match m {
            Move::Promotion(_, _, to) => to,
            _ => Piece::Pawn,
        };
        self.lemma_after_wf_shift(m, Piece::Pawn, to, s, d);
    }

    /// A legal double step of a pawn keeps a position one of a game.
    pub proof fn lemma_double_push_keeps_wf(self, m: Move)
        requires
            self.wf(),
            self.double_push_moves().contains(m),
        ensures
            self.after(m).wf(),
    {
        let f = self.double_push_fn();
        crate::laws::lemma_moves_over_contains(self.double_pushes(), f, 64, m);
        let d = choose|d: int|
            0 <= d < 64 && bit(self.double_pushes(), d) && (#[trigger] f(d)).contains(m);
        let single = self.single_pushes();
        crate::bitboard::lemma_bit_shift(single, d);
        match self.turn {
            Color::White => {
                lemma_bit_and(single << 8, crate::constants::Line::Rank.mask(3));
            },
            Color::Black => {
                lemma_bit_and(single >> 8, crate::constants::Line::Rank.mask(4));
            },
        }
        let q = self.double_push_to(d);
        let i = choose|i: int| 0 <= i < q.len() && q[i] == m;
        assert(q[i] == m);
        let mid = self.backward().step_from(d)->0;
        self.lemma_single_pushes(mid);
        let s = self.backward().step_from(mid)->0;
        lemma_bit_and(self.protect(), !self.board.all());
        lemma_bit_and(self.protect() & !self.board.all(), self.pin_mask(s));
        lemma_bit_not(self.board.all());
        crate::safety::lemma_board_bits(self.board, d);
        crate::safety::lemma_board_bits(self.board, mid);
        self.lemma_after_wf_shift(m, Piece::Pawn, Piece::Pawn, s, d);
    }

    /// A legal capture of a pawn keeps a position one of a game.
    pub proof fn lemma_captures_keep_wf(self, m: Move)
        requires
            self.wf(),
            self.legal_move_seq().contains(m),
            self.capture_moves().contains(m),
        ensures
            self.after(m).wf(),
    {
        let own = self.own();
        let f = self.captures_fn();
        crate::laws::lemma_moves_over_contains(own.pawns.0, f, 64, m);
        let s = choose|s: int| 0 <= s < 64 && bit(own.pawns.0, s) && (#[trigger] f(s)).contains(m);
        let g = self.capture_to_fn(s);
        crate::laws::lemma_moves_over_contains(self.capture_targets(s), g, 64, m);
        let d = choose|d: int|
            0 <= d < 64 && bit(self.capture_targets(s), d) && (#[trigger] g(d)).contains(m);
        let q = self.capture_to(s, d);
        let i = choose|i: int| 0 <= i < q.len() && q[i] == m;
        assert(q[i] == m);
        if self.en_passant == Some(Square::of(d)) {
            self.lemma_after_wf_passing(Square::of(s), Square::of(d));
        } else {
            self.lemma_capture_keeps_wf(m, s, d);
        }
    }

    /// An allowed castling move keeps a position one of a game.
    pub proof fn lemma_castles_keep_wf(self, m: Move)
        requires
            self.wf(),
            self.has_king(),
            self.castle_moves().contains(m),
        ensures
            self.after(m).wf(),
    {
        let first: Seq<Move> = if self.can_castle_kingside() {
            seq![Move::KingsideCastle]
        } else {
            Seq::empty()
        };
        let second: Seq<Move> = if self.can_castle_queenside() {
            seq![Move::QueensideCastle]
        } else {
            Seq::empty()
        };
        crate::laws::lemma_concat_contains(first, second, m);
        if first.contains(m) {
            let i = choose|i: int| 0 <= i < first.len() && first[i] == m;
            assert(first[i] == m);
        }
        if second.contains(m) {
            let i = choose|i: int| 0 <= i < second.len() && second[i] == m;
            assert(second[i] == m);
        }
        self.lemma_after_wf_castle(m);
    }

    /// Legal moves keep a position one of a game: after a legal move no cell
    /// holds two pieces, no side has two kings, the castling rights that are left
    /// hold, and a pawn that has taken a double step stands behind the
    /// en-passant cell.
    pub proof fn lemma_legal_moves_keep_wf(self, m: Move)
        requires
            self.wf(),
            self.legal_move_seq().contains(m),
        ensures
            self.after(m).wf(),
    {
        self.lemma_legal_parts(m);
        if self.king_moves().contains(m) {
            self.lemma_king_keeps_wf(m);
        } else if self.piece_moves(Piece::Knight).contains(m) {
            self.lemma_piece_keeps_wf(Piece::Knight, m);
        } else if self.piece_moves(Piece::Bishop).contains(m) {
            self.lemma_piece_keeps_wf(Piece::Bishop, m);
        } else if self.piece_moves(Piece::Rook).contains(m) {
            self.lemma_piece_keeps_wf(Piece::Rook, m);
        } else if self.piece_moves(Piece::Queen).contains(m) {
            self.lemma_piece_keeps_wf(Piece::Queen, m);
        } else if self.single_push_moves().contains(m) {
            self.lemma_single_push_keeps_wf(m);
        } else if self.double_push_moves().contains(m) {
            self.lemma_double_push_keeps_wf(m);
        } else if self.capture_moves().contains(m) {
            self.lemma_captures_keep_wf(m);
        } else {
            self.lemma_castles_keep_wf(m);
        }
    }

    /// A legal move of a knight, bishop, rook or queen keeps a position one of a
    /// game.
    pub proof fn lemma_piece_keeps_wf(self, piece: Piece, m: Move)
        requires
            self.wf(),
            piece == Piece::Knight || piece == Piece::Bishop || piece == Piece::Rook || piece
                == Piece::Queen,
            self.piece_moves(piece).contains(m),
        ensures
            self.after(m).wf(),
    {
        self.lemma_piece_moves_contains(piece, m);
        let (s, d) = choose|s: int, d: int|
            0 <= s < 64 && 0 <= d < 64 && bit(self.own().mask(piece), s) && bit(
                self.targets(piece, s),
                d,
            ) && m == Move::Normal(#[trigger] Square::of(s), #[trigger] Square::of(d), piece);
        let reach = crate::position::piece_mask(piece, self.turn, self.board.all(), s);
        lemma_bit_and(reach & self.protect() & !self.own().all(), self.pin_mask(s));
        lemma_bit_and(reach & self.protect(), !self.own().all());
        lemma_bit_not(self.own().all());
        lemma_all_bits(self.own(), d);
        self.lemma_after_wf_shift(m, piece, piece, s, d);
    }

    /// A legal capture of a pawn, other than one in passing, keeps a position one
    /// of a game.
    pub proof fn lemma_capture_keeps_wf(self, m: Move, s: int, d: int)
        requires
            self.wf(),
            on_board(s),
            0 <= d < 64,
            bit(self.own().pawns.0, s),
            bit(self.capture_targets(s), d),
            self.capture_to(s, d).contains(m),
            self.en_passant != Some(Square::of(d)),
        ensures
            self.after(m).wf(),
    {
        let q = self.capture_to(s, d);
        let i = choose|i: int| 0 <= i < q.len() && q[i] == m;
        assert(q[i] == m);
        let us = self.turn;
        let reach = crate::position::piece_mask(Piece::Pawn, us, self.board.all(), s);
        let inner = self.protect() & self.enemy().all() & self.pin_mask(s);
        lemma_bit_and(reach, inner | self.en_passant_mask());
        lemma_bit_or(inner, self.en_passant_mask());
        lemma_bit_and(self.protect() & self.enemy().all(), self.pin_mask(s));
        lemma_bit_and(self.protect(), self.enemy().all());
        lemma_bit_zero(0);
        match self.en_passant {
            Some(sq) => {
                sq.lemma_idx();
                lemma_bit_single(sq.idx());
            },
            None => {},
        }
        assert(!bit(self.en_passant_mask(), d));
        lemma_all_bits(self.enemy(), d);
        assert(self.board.0.count_at(d) + self.board.1.count_at(d) <= 1);
        assert(self.own().vacant(d));
        crate::geometry::lemma_pawn_takes(us, s, d);
        let to = match m {
            Move::Promotion(_, _, to) => to,
            _ => Piece::Pawn,
        };
        self.lemma_after_wf_shift(m, Piece::Pawn, to, s, d);
    }
}


/// The union of the first `n` of some masks.
pub open spec fn union_upto(masks: Seq<u64>, n: int) -> u64
    decreases n,
{
    if n <= 0 {
        0
    } else {
        union_upto(masks, n - 1) | masks[n - 1]
    }
}

/// Whether each of the first `n` masks has no cell in common with the masks
/// before it.
pub open spec fn apart_upto(masks: Seq<u64>, n: int) -> bool
    decreases n,
{
    if n <= 0 {
        true
    } else {
        apart_upto(masks, n - 1) && union_upto(masks, n - 1) & masks[n - 1] == 0
    }
}

/// The number of masks among the first `n` that hold cell `s`.
pub open spec fn holders(masks: Seq<u64>, s: int, n: int) -> int
    decreases n,
{
    if n <= 0 {
        0
    } else {
        holders(masks, s, n - 1) + one_if(bit(masks[n - 1], s))
    }
}

/// A cell is in the union of some masks exactly when one of them holds it.
pub proof fn lemma_union_upto(masks: Seq<u64>, s: int, n: int)
    requires
        0 <= n <= masks.len(),
    ensures
        0 <= holders(masks, s, n),
        bit(union_upto(masks, n), s) <==> holders(masks, s, n) >= 1,
    decreases n,
{
    lemma_bit_zero(0);
    if n > 0 {
        lemma_union_upto(masks, s, n - 1);
        lemma_bit_or(union_upto(masks, n - 1), masks[n - 1]);
    }
}

/// Masks that are apart hold every cell once at most.
pub proof fn lemma_apart_holders(masks: Seq<u64>, s: int, n: int)
    requires
        0 <= n <= masks.len(),
        apart_upto(masks, n),
    ensures
        holders(masks, s, n) <= 1,
    decreases n,
{
    if n > 0 {
        lemma_apart_holders(masks, s, n - 1);
        lemma_union_upto(masks, s, n - 1);
        lemma_bit_and(union_upto(masks, n - 1), masks[n - 1]);
        lemma_bit_zero(union_upto(masks, n - 1) & masks[n - 1]);
        if bit(masks[n - 1], s) && holders(masks, s, n - 1) >= 1 {
            assert(bit(union_upto(masks, n - 1) & masks[n - 1], s));
        }
    }
}

/// Masks that hold every cell once at most are apart.
pub proof fn lemma_holders_apart(masks: Seq<u64>, n: int)
    requires
        0 <= n <= masks.len(),
        forall|s: int| on_board(s) ==> #[trigger] holders(masks, s, masks.len() as int) <= 1,
    ensures
        apart_upto(masks, n),
    decreases n,
{
    if n > 0 {
        lemma_holders_apart(masks, n - 1);
        let both = union_upto(masks, n - 1) & masks[n - 1];
        if both != 0 {
            lemma_lowest(both);
            let s = lowest(both);
            lemma_bit_and(union_upto(masks, n - 1), masks[n - 1]);
            assert(bit(both, s));
            lemma_union_upto(masks, s, n - 1);
            lemma_holders_grow(masks, s, n, masks.len() as int);
            assert(holders(masks, s, masks.len() as int) <= 1);
        }
    }
}

/// The number of holders grows with the number of masks.
pub proof fn lemma_holders_grow(masks: Seq<u64>, s: int, m: int, n: int)
    requires
        0 <= m <= n <= masks.len(),
    ensures
        holders(masks, s, m) <= holders(masks, s, n),
    decreases n - m,
{
    if m < n {
        lemma_holders_grow(masks, s, m, n - 1);
    }
}

impl Colored<Pieces> {
    /// The twelve masks of the board.
    pub open spec fn masks(self) -> Seq<u64> {
        seq![
            self.0.pawns.0,
            self.0.knights.0,
            self.0.bishops.0,
            self.0.rooks.0,
            self.0.queens.0,
            self.0.kings.0,
            self.1.pawns.0,
            self.1.knights.0,
            self.1.bishops.0,
            self.1.rooks.0,
            self.1.queens.0,
            self.1.kings.0,
        ]
    }

    /// The pieces on a cell are the masks that hold it.
    pub proof fn lemma_masks_count(self, s: int)
        ensures
            holders(self.masks(), s, 12) == self.0.count_at(s) + self.1.count_at(s),
    {
        let m = self.masks();
        assert(holders(m, s, 0) == 0);
        assert(holders(m, s, 1) == holders(m, s, 0) + one_if(bit(m[0], s)));
        assert(holders(m, s, 2) == holders(m, s, 1) + one_if(bit(m[1], s)));
        assert(holders(m, s, 3) == holders(m, s, 2) + one_if(bit(m[2], s)));
        assert(holders(m, s, 4) == holders(m, s, 3) + one_if(bit(m[3], s)));
        assert(holders(m, s, 5) == holders(m, s, 4) + one_if(bit(m[4], s)));
        assert(holders(m, s, 6) == holders(m, s, 5) + one_if(bit(m[5], s)));
        assert(holders(m, s, 7) == holders(m, s, 6) + one_if(bit(m[6], s)));
        assert(holders(m, s, 8) == holders(m, s, 7) + one_if(bit(m[7], s)));
        assert(holders(m, s, 9) == holders(m, s, 8) + one_if(bit(m[8], s)));
        assert(holders(m, s, 10) == holders(m, s, 9) + one_if(bit(m[9], s)));
        assert(holders(m, s, 11) == holders(m, s, 10) + one_if(bit(m[10], s)));
        assert(holders(m, s, 12) == holders(m, s, 11) + one_if(bit(m[11], s)));
    }

    /// A board is tidy exactly when its twelve masks are apart and no side has
    /// two kings.
    pub proof fn lemma_tidy_apart(self)
        ensures
            self.tidy() <==> apart_upto(self.masks(), 12) && one_king_at_most(self.0.kings.0)
                && one_king_at_most(self.1.kings.0),
    {
        let m = self.masks();
        if apart_upto(m, 12) {
            assert forall|s: int| on_board(s) implies #[trigger] self.0.count_at(s)
                + self.1.count_at(s) <= 1 by {
                self.lemma_masks_count(s);
                lemma_apart_holders(m, s, 12);
            }
        }
        if self.tidy() {
            assert forall|s: int| on_board(s) implies #[trigger] holders(m, s, m.len() as int)
                <= 1 by {
                self.lemma_masks_count(s);
                assert(self.0.count_at(s) + self.1.count_at(s) <= 1);
            }
            lemma_holders_apart(m, 12);
        }
    }

    /// Whether no cell holds two pieces and no side has two kings.
    pub fn is_tidy(&self) -> (r: bool)
        ensures
            r == self.tidy(),
    {
        let masks: Vec<u64> = vec![
            self.0.pawns.0,
            self.0.knights.0,
            self.0.bishops.0,
            self.0.rooks.0,
            self.0.queens.0,
            self.0.kings.0,
            self.1.pawns.0,
            self.1.knights.0,
            self.1.bishops.0,
            self.1.rooks.0,
            self.1.queens.0,
            self.1.kings.0,
        ];
        proof {
            self.lemma_tidy_apart();
            assert(masks@ =~= self.masks());
        }
        let mut union: u64 = 0;
        let mut i: usize = 0;
        while i < 12
            invariant
                i <= 12,
                masks@ == self.masks(),
                self.tidy() <==> apart_upto(self.masks(), 12) && one_king_at_most(self.0.kings.0)
                    && one_king_at_most(self.1.kings.0),
                union == union_upto(masks@, i as int),
                apart_upto(masks@, i as int),
            decreases 12 - i,
        {
            if (union & masks[i]) != 0 {
                proof {
                    lemma_not_apart(masks@, i as int + 1, 12);
                }
                return false;
            }
            union = union | masks[i];
            i = i + 1;
        }
        one_king(self.0.kings.0) && one_king(self.1.kings.0)
    }
}

/// Masks of which some are not apart are not apart as a whole.
pub proof fn lemma_not_apart(masks: Seq<u64>, m: int, n: int)
    requires
        m <= n,
        !apart_upto(masks, m),
    ensures
        !apart_upto(masks, n),
    decreases n - m,
{
    if m < n {
        lemma_not_apart(masks, m, n - 1);
    }
}

/// Whether a mask of kings holds one king at most.
pub fn one_king(kings: u64) -> (r: bool)
    ensures
        r == one_king_at_most(kings),
{
    if kings == 0 {
        return true;
    }
    proof {
        lemma_lowest(kings);
    }
    let k: u32 = kings.trailing_zeros();
    kings == 1u64 << (k as u64)
}

impl Position {
    /// Whether the castling rights of the side of the given colour hold.
    fn rights_are_held(&self, c: Color) -> (r: bool)
        ensures
            r == self.rights_hold(c),
    {
        proof {
            reveal(Square::idx);
        }
        let rights = *self.castling_rights.get(c);
        let pieces = *self.board.get(c);
        let (king, king_rook, queen_rook) = match c {
            Color::White => (Square::E1, Square::H1, Square::A1),
            Color::Black => (Square::E8, Square::H8, Square::A8),
        };
        let king_home: bool = pieces.kings.0 == 0 || pieces.kings.at(king);
        let short: bool = !rights.kingside || (pieces.rooks.at(king_rook) && king_home);
        let long: bool = !rights.queenside || (pieces.rooks.at(queen_rook) && king_home);
        short && long
    }

    /// Whether the position is one of a game: no cell holds two pieces, no side
    /// has two kings, a side that may castle has king and rook at home, and the
    /// en-passant cell, if there is one, is empty and has a pawn of the side that
    /// has just moved behind it.
    pub fn is_valid(&self) -> (r: bool)
        ensures
            r == self.wf(),
    {
        if !self.board.is_tidy() {
            return false;
        }
        if !self.rights_are_held(Color::White) || !self.rights_are_held(Color::Black) {
            return false;
        }
        match self.en_passant {
            None => true,
            Some(e) => {
                let us = self.turn;
                let them = us.other();
                let own = *self.board.get(us);
                let enemy = *self.board.get(them);
                proof {
                    lemma_all_bits(own, e.idx());
                    lemma_all_bits(enemy, e.idx());
                }
                if own.occupied().at(e) || enemy.occupied().at(e) {
                    return false;
                }
                match e.step(Direction::pawn(them)) {
                    None => false,
                    Some(c) => enemy.pawns.at(c),
                }
            },
        }
    }
}


/// The position from which a game starts is one of a game.
pub proof fn lemma_initial_wf()
    ensures
        crate::fen::initial_position().wf(),
{
    reveal(Square::idx);
    let p = crate::fen::initial_position();
    let b = p.board;
    let m = b.masks();
    assert(union_upto(m, 0) == 0);
    assert(union_upto(m, 1) == union_upto(m, 0) | m[0]);
    assert(union_upto(m, 2) == union_upto(m, 1) | m[1]);
    assert(union_upto(m, 3) == union_upto(m, 2) | m[2]);
    assert(union_upto(m, 4) == union_upto(m, 3) | m[3]);
    assert(union_upto(m, 5) == union_upto(m, 4) | m[4]);
    assert(union_upto(m, 6) == union_upto(m, 5) | m[5]);
    assert(union_upto(m, 7) == union_upto(m, 6) | m[6]);
    assert(union_upto(m, 8) == union_upto(m, 7) | m[7]);
    assert(union_upto(m, 9) == union_upto(m, 8) | m[8]);
    assert(union_upto(m, 10) == union_upto(m, 9) | m[9]);
    assert(union_upto(m, 11) == union_upto(m, 10) | m[10]);
    let u1: u64 = 0u64 | 0xFF00u64;
    let u2: u64 = u1 | 0x42u64;
    let u3: u64 = u2 | 0x24u64;
    let u4: u64 = u3 | 0x81u64;
    let u5: u64 = u4 | 0x08u64;
    let u6: u64 = u5 | 0x10u64;
    let u7: u64 = u6 | 0x00FF_0000_0000_0000u64;
    let u8: u64 = u7 | 0x4200_0000_0000_0000u64;
    let u9: u64 = u8 | 0x2400_0000_0000_0000u64;
    let u10: u64 = u9 | 0x8100_0000_0000_0000u64;
    let u11: u64 = u10 | 0x0800_0000_0000_0000u64;
    assert(0u64 & 0xFF00u64 == 0 && u1 & 0x42u64 == 0 && u2 & 0x24u64 == 0 && u3 & 0x81u64 == 0
        && u4 & 0x08u64 == 0 && u5 & 0x10u64 == 0 && u6 & 0x00FF_0000_0000_0000u64 == 0 && u7
        & 0x4200_0000_0000_0000u64 == 0 && u8 & 0x2400_0000_0000_0000u64 == 0 && u9
        & 0x8100_0000_0000_0000u64 == 0 && u10 & 0x0800_0000_0000_0000u64 == 0 && u11
        & 0x1000_0000_0000_0000u64 == 0) by (bit_vector)
        requires
            u1 == 0u64 | 0xFF00u64,
            u2 == u1 | 0x42u64,
            u3 == u2 | 0x24u64,
            u4 == u3 | 0x81u64,
            u5 == u4 | 0x08u64,
            u6 == u5 | 0x10u64,
            u7 == u6 | 0x00FF_0000_0000_0000u64,
            u8 == u7 | 0x4200_0000_0000_0000u64,
            u9 == u8 | 0x2400_0000_0000_0000u64,
            u10 == u9 | 0x8100_0000_0000_0000u64,
            u11 == u10 | 0x0800_0000_0000_0000u64,
    ;
    assert(apart_upto(m, 0));
    assert(apart_upto(m, 1));
    assert(apart_upto(m, 2));
    assert(apart_upto(m, 3));
    assert(apart_upto(m, 4));
    assert(apart_upto(m, 5));
    assert(apart_upto(m, 6));
    assert(apart_upto(m, 7));
    assert(apart_upto(m, 8));
    assert(apart_upto(m, 9));
    assert(apart_upto(m, 10));
    assert(apart_upto(m, 11));
    assert(apart_upto(m, 12));
    let w: u64 = 0x10;
    let k: u64 = 0x1000_0000_0000_0000;
    lemma_lowest(w);
    lemma_lowest(k);
    let lw = lowest(w) as u64;
    let lk = lowest(k) as u64;
    assert(0x10u64 == 1u64 << lw) by (bit_vector)
        requires
            lw < 64,
            (0x10u64 >> lw) & 1 == 1,
    ;
    assert(0x1000_0000_0000_0000u64 == 1u64 << lk) by (bit_vector)
        requires
            lk < 64,
            (0x1000_0000_0000_0000u64 >> lk) & 1 == 1,
    ;
    b.lemma_tidy_apart();
    assert((0x81u64 >> 7u64) & 1 == 1 && (0x81u64 >> 0u64) & 1 == 1 && (0x10u64 >> 4u64) & 1 == 1
        && (0x8100_0000_0000_0000u64 >> 63u64) & 1 == 1 && (0x8100_0000_0000_0000u64 >> 56u64) & 1
        == 1 && (0x1000_0000_0000_0000u64 >> 60u64) & 1 == 1) by (bit_vector);
}

} // verus!
