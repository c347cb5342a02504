//! What holds of move generation, of the moves that it yields and of the
//! search, proved from the definitions.
use vstd::prelude::*;
use crate::bitboard::{bit, on_board, single, Square};
use crate::evaluation::position_score;
use crate::movegen::{capture_promotions, moves_over, moves_to, promotions, step_fn};
use crate::pieces::{Piece, Pieces};
use crate::position::Position;
use crate::repr::Move;
use crate::search::best_choice;

verus! {

/// A move is among the moves of the cells of a mask exactly when it is among
/// the moves of one of them.
pub proof fn lemma_moves_over_contains(from: u64, f: spec_fn(int) -> Seq<Move>, n: int, m: Move)
    ensures
        moves_over(from, f, n).contains(m) <==> exists|s: int|
            0 <= s < n && bit(from, s) && (#[trigger] f(s)).contains(m),
    decreases n,
{
    if n <= 0 {
        assert(moves_over(from, f, n) =~= Seq::empty());
    } else {
        lemma_moves_over_contains(from, f, n - 1, m);
        let before = moves_over(from, f, n - 1);
        if bit(from, n - 1) {
            let last = f(n - 1);
            lemma_concat_contains(before, last, m);
        }
    }
}

/// A move is in the one sequence after the other exactly when it is in one of
/// the two.
pub proof fn lemma_concat_contains(a: Seq<Move>, b: Seq<Move>, m: Move)
    ensures
        (a + b).contains(m) <==> a.contains(m) || b.contains(m),
{
    let all = a + b;
    if all.contains(m) {
        let i = choose|i: int| 0 <= i < all.len() && all[i] == m;
        if i < a.len() {
            assert(a[i] == m);
        } else {
            assert(b[i - a.len()] == m);
        }
    }
    if a.contains(m) {
        let i = choose|i: int| 0 <= i < a.len() && a[i] == m;
        assert(all[i] == m);
    }
    if b.contains(m) {
        let i = choose|i: int| 0 <= i < b.len() && b[i] == m;
        assert(all[a.len() + i] == m);
    }
}

/// The moves of a piece from a cell to the cells of a mask are the ordinary
/// moves of that piece from that cell to a cell of the mask.
pub proof fn lemma_moves_to_contains(src: Square, piece: Piece, targets: u64, m: Move)
    ensures
        moves_to(src, piece, targets).contains(m) <==> exists|d: int|
            0 <= d < 64 && bit(targets, d) && m == Move::Normal(src, #[trigger] Square::of(d), piece),
{
    let f = step_fn(src, piece);
    lemma_moves_over_contains(targets, f, 64, m);
    if moves_to(src, piece, targets).contains(m) {
        let d = choose|s: int| 0 <= s < 64 && bit(targets, s) && (#[trigger] f(s)).contains(m);
        assert(f(d)[0] == m);
    }
    if exists|d: int|
        0 <= d < 64 && bit(targets, d) && m == Move::Normal(src, #[trigger] Square::of(d), piece) {
        let d = choose|d: int|
            0 <= d < 64 && bit(targets, d) && m == Move::Normal(
                src,
                #[trigger] Square::of(d),
                piece,
            );
        assert(f(d)[0] == m);
        assert(f(d).contains(m));
    }
}

/// Whether a move is one of the two castling moves.
pub open spec fn is_castle(m: Move) -> bool {
    m == Move::KingsideCastle || m == Move::QueensideCastle
}

/// The moves of the cells of a mask hold no castling move if the moves of no
/// cell do.
pub proof fn lemma_moves_over_no_castle(from: u64, f: spec_fn(int) -> Seq<Move>, m: Move)
    requires
        is_castle(m),
        forall|s: int| 0 <= s < 64 ==> !(#[trigger] f(s)).contains(m),
    ensures
        !moves_over(from, f, 64).contains(m),
{
    lemma_moves_over_contains(from, f, 64, m);
}

impl Position {
    /// No castling move is among the moves of the pieces and pawns.
    pub proof fn lemma_castle_only_from_castling(self, m: Move)
        requires
            is_castle(m),
        ensures
            !moves_to(Square::of(self.king_cell()), Piece::King, self.king_targets()).contains(m),
            !self.piece_moves(Piece::Knight).contains(m),
            !self.piece_moves(Piece::Bishop).contains(m),
            !self.piece_moves(Piece::Rook).contains(m),
            !self.piece_moves(Piece::Queen).contains(m),
            !moves_over(self.single_pushes(), self.single_push_fn(), 64).contains(m),
            !moves_over(self.double_pushes(), self.double_push_fn(), 64).contains(m),
            !moves_over(self.own().pawns.0, self.captures_fn(), 64).contains(m),
    {
        lemma_moves_to_contains(
            Square::of(self.king_cell()),
            Piece::King,
            self.king_targets(),
            m,
        );
        self.lemma_piece_moves_no_castle(Piece::Knight, m);
        self.lemma_piece_moves_no_castle(Piece::Bishop, m);
        self.lemma_piece_moves_no_castle(Piece::Rook, m);
        self.lemma_piece_moves_no_castle(Piece::Queen, m);
        assert forall|s: int| 0 <= s < 64 implies !(#[trigger] self.single_push_fn()(s)).contains(
            m,
        ) by {
            let q = self.single_push_to(s);
            if q.contains(m) {
                let i = choose|i: int| 0 <= i < q.len() && q[i] == m;
                assert(q[i] == m);
            }
        }
        lemma_moves_over_no_castle(self.single_pushes(), self.single_push_fn(), m);
        assert forall|s: int| 0 <= s < 64 implies !(#[trigger] self.double_push_fn()(s)).contains(
            m,
        ) by {
            let q = self.double_push_to(s);
            if q.contains(m) {
                let i = choose|i: int| 0 <= i < q.len() && q[i] == m;
                assert(q[i] == m);
            }
        }
        lemma_moves_over_no_castle(self.double_pushes(), self.double_push_fn(), m);
        assert forall|s: int| 0 <= s < 64 implies !(#[trigger] self.captures_fn()(s)).contains(
            m,
        ) by {
            let g = self.capture_to_fn(s);
            assert forall|d: int| 0 <= d < 64 implies !(#[trigger] g(d)).contains(m) by {
                let q = self.capture_to(s, d);
                if q.contains(m) {
                    let i = choose|i: int| 0 <= i < q.len() && q[i] == m;
                    assert(q[i] == m);
                }
            }
            lemma_moves_over_no_castle(self.capture_targets(s), g, m);
        }
        lemma_moves_over_no_castle(self.own().pawns.0, self.captures_fn(), m);
    }

    /// No castling move is among the moves of the knights, bishops, rooks or
    /// queens.
    pub proof fn lemma_piece_moves_no_castle(self, piece: Piece, m: Move)
        requires
            is_castle(m),
        ensures
            !self.piece_moves(piece).contains(m),
    {
        let f = self.piece_moves_fn(piece);
        assert forall|s: int| 0 <= s < 64 implies !(#[trigger] f(s)).contains(m) by {
            lemma_moves_to_contains(Square::of(s), piece, self.targets(piece, s), m);
        }
        lemma_moves_over_no_castle(self.own().mask(piece), f, m);
    }

    /// Castling on the king's side is a legal move exactly when the side to move
    /// has a king and the right to castle, is in check at most once, no cell
    /// that the king stands on, crosses or lands on is attacked, and the cells
    /// between king and rook are empty. Castling on the queen's side likewise.
    pub proof fn lemma_castling(self)
        ensures
            self.legal_move_seq().contains(Move::KingsideCastle) <==> self.has_king()
                && self.checks() <= 1 && self.can_castle_kingside(),
            self.legal_move_seq().contains(Move::QueensideCastle) <==> self.has_king()
                && self.checks() <= 1 && self.can_castle_queenside(),
    {
        self.lemma_castling_of(Move::KingsideCastle);
        self.lemma_castling_of(Move::QueensideCastle);
    }

    /// A castling move is legal exactly when it is among the castling moves and
    /// there is a king in check at most once.
    pub proof fn lemma_castling_of(self, m: Move)
        requires
            is_castle(m),
        ensures
            self.legal_move_seq().contains(m) <==> self.has_king() && self.checks() <= 1 && (if m
                == Move::KingsideCastle {
                self.can_castle_kingside()
            } else {
                self.can_castle_queenside()
            }),
    {
        self.lemma_castle_only_from_castling(m);
        self.lemma_legal_parts(m);
        let first: Seq<Move> = if self.can_castle_kingside() {
            seq![Move::KingsideCastle]
        } else {
            Seq::empty()
        };
        let second: Seq<Move> = if self.can_castle_queenside() {
            seq![Move::QueensideCastle]
        } else {
            Seq::empty()
        };
        lemma_concat_contains(first, second, m);
        if first.contains(m) {
            let i = choose|i: int| 0 <= i < first.len() && first[i] == m;
            assert(first[i] == m);
        }
        if second.contains(m) {
            let i = choose|i: int| 0 <= i < second.len() && second[i] == m;
            assert(second[i] == m);
        }
        if self.can_castle_kingside() {
            assert(first[0] == Move::KingsideCastle);
        }
        if self.can_castle_queenside() {
            assert(second[0] == Move::QueensideCastle);
        }
    }
}


impl Position {
    /// The moves of the king.
    pub open spec fn king_moves(self) -> Seq<Move> {
        moves_to(Square::of(self.king_cell()), Piece::King, self.king_targets())
    }

    /// The single steps of the pawns.
    pub open spec fn single_push_moves(self) -> Seq<Move> {
        moves_over(self.single_pushes(), self.single_push_fn(), 64)
    }

    /// The double steps of the pawns.
    pub open spec fn double_push_moves(self) -> Seq<Move> {
        moves_over(self.double_pushes(), self.double_push_fn(), 64)
    }

    /// The captures of the pawns.
    pub open spec fn capture_moves(self) -> Seq<Move> {
        moves_over(self.own().pawns.0, self.captures_fn(), 64)
    }

    /// A move is legal exactly when there is a king and it is a move of the king
    /// or, with one check at most, a move of a knight, bishop, rook or queen, a
    /// step or a capture of a pawn, or a castling move.
    pub proof fn lemma_legal_parts(self, m: Move)
        ensures
            self.legal_move_seq().contains(m) <==> self.has_king() && (self.king_moves().contains(
                m,
            ) || (self.checks() <= 1 && (self.piece_moves(Piece::Knight).contains(m)
                || self.piece_moves(Piece::Bishop).contains(m) || self.piece_moves(
                Piece::Rook,
            ).contains(m) || self.piece_moves(Piece::Queen).contains(m)
                || self.single_push_moves().contains(m) || self.double_push_moves().contains(m)
                || self.capture_moves().contains(m) || self.castle_moves().contains(m)))),
    {
        let king = self.king_moves();
        if !self.has_king() {
            assert(self.legal_move_seq() =~= Seq::empty());
        } else if self.checks() > 1 {
        } else {
            let s1 = king + self.piece_moves(Piece::Knight);
            let s2 = s1 + self.piece_moves(Piece::Bishop);
            let s3 = s2 + self.piece_moves(Piece::Rook);
            let s4 = s3 + self.piece_moves(Piece::Queen);
            let s5 = s4 + self.single_push_moves();
            let s6 = s5 + self.double_push_moves();
            let s7 = s6 + self.capture_moves();
            lemma_concat_contains(king, self.piece_moves(Piece::Knight), m);
            lemma_concat_contains(s1, self.piece_moves(Piece::Bishop), m);
            lemma_concat_contains(s2, self.piece_moves(Piece::Rook), m);
            lemma_concat_contains(s3, self.piece_moves(Piece::Queen), m);
            lemma_concat_contains(s4, self.single_push_moves(), m);
            lemma_concat_contains(s5, self.double_push_moves(), m);
            lemma_concat_contains(s6, self.capture_moves(), m);
            lemma_concat_contains(s7, self.castle_moves(), m);
        }
    }

    /// The moves of the knights, bishops, rooks or queens are the ordinary moves
    /// of such a piece from a cell that holds one to a cell that it may go to.
    pub proof fn lemma_piece_moves_contains(self, piece: Piece, m: Move)
        ensures
            self.piece_moves(piece).contains(m) <==> exists|s: int, d: int|
                0 <= s < 64 && 0 <= d < 64 && bit(self.own().mask(piece), s) && bit(
                    self.targets(piece, s),
                    d,
                ) && m == Move::Normal(#[trigger] Square::of(s), #[trigger] Square::of(d), piece),
    {
        let f = self.piece_moves_fn(piece);
        let from = self.own().mask(piece);
        lemma_moves_over_contains(from, f, 64, m);
        if self.piece_moves(piece).contains(m) {
            let s = choose|s: int| 0 <= s < 64 && bit(from, s) && (#[trigger] f(s)).contains(m);
            lemma_moves_to_contains(Square::of(s), piece, self.targets(piece, s), m);
            let d = choose|d: int|
                0 <= d < 64 && bit(self.targets(piece, s), d) && m == Move::Normal(
                    Square::of(s),
                    #[trigger] Square::of(d),
                    piece,
                );
            assert(m == Move::Normal(Square::of(s), Square::of(d), piece));
        }
        if exists|s: int, d: int|
            0 <= s < 64 && 0 <= d < 64 && bit(from, s) && bit(self.targets(piece, s), d) && m
                == Move::Normal(#[trigger] Square::of(s), #[trigger] Square::of(d), piece) {
            let (s, d) = choose|s: int, d: int|
                0 <= s < 64 && 0 <= d < 64 && bit(from, s) && bit(self.targets(piece, s), d) && m
                    == Move::Normal(#[trigger] Square::of(s), #[trigger] Square::of(d), piece);
            lemma_moves_to_contains(Square::of(s), piece, self.targets(piece, s), m);
            assert(f(s).contains(m));
        }
    }

    /// A capture in passing is legal only if a pawn of the side to move stands on
    /// its first cell, its second cell is the en-passant cell and one that the
    /// pawn attacks, and the capture leaves the king of the side to move out of
    /// check.
    pub proof fn lemma_en_passant(self, src: Square, dst: Square)
        requires
            self.legal_move_seq().contains(Move::EnPassant(src, dst)),
        ensures
            self.has_king(),
            self.checks() <= 1,
            bit(self.own().pawns.0, src.idx()),
            bit(self.capture_targets(src.idx()), dst.idx()),
            self.en_passant == Some(dst),
            !self.en_passant_board(src.idx(), dst.idx()).checked(self.turn),
    {
        let m = Move::EnPassant(src, dst);
        self.lemma_legal_parts(m);
        lemma_moves_to_contains(Square::of(self.king_cell()), Piece::King, self.king_targets(), m);
        self.lemma_piece_moves_contains(Piece::Knight, m);
        self.lemma_piece_moves_contains(Piece::Bishop, m);
        self.lemma_piece_moves_contains(Piece::Rook, m);
        self.lemma_piece_moves_contains(Piece::Queen, m);
        lemma_moves_over_contains(self.single_pushes(), self.single_push_fn(), 64, m);
        assert forall|s: int| 0 <= s < 64 implies !(#[trigger] self.single_push_fn()(s)).contains(
            m,
        ) by {
            let q = self.single_push_to(s);
            if q.contains(m) {
                let i = choose|i: int| 0 <= i < q.len() && q[i] == m;
                assert(q[i] == m);
            }
        }
        lemma_moves_over_contains(self.double_pushes(), self.double_push_fn(), 64, m);
        assert forall|s: int| 0 <= s < 64 implies !(#[trigger] self.double_push_fn()(s)).contains(
            m,
        ) by {
            let q = self.double_push_to(s);
            if q.contains(m) {
                let i = choose|i: int| 0 <= i < q.len() && q[i] == m;
                assert(q[i] == m);
            }
        }
        let first: Seq<Move> = if self.can_castle_kingside() {
            seq![Move::KingsideCastle]
        } else {
            Seq::empty()
        };
        let second: Seq<Move> = if self.can_castle_queenside() {
            seq![Move::QueensideCastle]
        } else {
            Seq::empty()
        };
        lemma_concat_contains(first, second, m);
        if first.contains(m) {
            let i = choose|i: int| 0 <= i < first.len() && first[i] == m;
            assert(first[i] == m);
        }
        if second.contains(m) {
            let i = choose|i: int| 0 <= i < second.len() && second[i] == m;
            assert(second[i] == m);
        }
        assert(self.capture_moves().contains(m));
        let f = self.captures_fn();
        lemma_moves_over_contains(self.own().pawns.0, f, 64, m);
        let s = choose|s: int|
            0 <= s < 64 && bit(self.own().pawns.0, s) && (#[trigger] f(s)).contains(m);
        let g = self.capture_to_fn(s);
        lemma_moves_over_contains(self.capture_targets(s), g, 64, m);
        let d = choose|d: int|
            0 <= d < 64 && bit(self.capture_targets(s), d) && (#[trigger] g(d)).contains(m);
        let q = self.capture_to(s, d);
        let i = choose|i: int| 0 <= i < q.len() && q[i] == m;
        assert(q[i] == m);
        Square::lemma_of(s);
        Square::lemma_of(d);
    }
}


impl Position {
    /// Whether the capture in passing on the cell `dst` takes nothing but a
    /// pawn: no other piece of the other side stands on the cell behind `dst`.
    pub open spec fn pawn_behind(self, dst: Square) -> bool {
        match self.backward().step_from(dst.idx()) {
            None => true,
            Some(c) => {
                &&& !bit(self.enemy().knights.0, c)
                &&& !bit(self.enemy().bishops.0, c)
                &&& !bit(self.enemy().rooks.0, c)
                &&& !bit(self.enemy().queens.0, c)
                &&& !bit(self.enemy().kings.0, c)
            },
        }
    }

    /// A legal capture in passing leaves the king of the side that made it out
    /// of check: where making it would put that king in check, along the rank
    /// that the two pawns leave or otherwise, it is no legal move.
    pub proof fn lemma_en_passant_safe(self, src: Square, dst: Square)
        requires
            self.legal_move_seq().contains(Move::EnPassant(src, dst)),
            self.pawn_behind(dst),
        ensures
            !self.after(Move::EnPassant(src, dst)).board.checked(self.turn),
    {
        self.lemma_en_passant(src, dst);
        src.lemma_idx();
        dst.lemma_idx();
        let o = self.outcome(Move::EnPassant(src, dst));
        match self.backward().step_from(dst.idx()) {
            None => {},
            Some(c) => {
                let e = self.enemy();
                crate::bitboard::lemma_clear_absent(e.knights.0, c);
                crate::bitboard::lemma_clear_absent(e.bishops.0, c);
                crate::bitboard::lemma_clear_absent(e.rooks.0, c);
                crate::bitboard::lemma_clear_absent(e.queens.0, c);
                crate::bitboard::lemma_clear_absent(e.kings.0, c);
            },
        }
        assert(self.after(Move::EnPassant(src, dst)).board == self.en_passant_board(
            src.idx(),
            dst.idx(),
        ));
    }

    /// Out and back: when a piece of the side to move goes from the cell `a` to
    /// the vacant cell `b`, a piece of the other side from the cell `c` to the
    /// vacant cell `d`, and then both go back, every piece stands where it stood
    /// before.
    pub proof fn lemma_out_and_back(
        self,
        a: Square,
        b: Square,
        piece: Piece,
        c: Square,
        d: Square,
        other: Piece,
    )
        requires
            a != b && a != c && a != d && b != c && b != d && c != d,
            bit(self.own().mask(piece), a.idx()),
            bit(self.enemy().mask(other), c.idx()),
            self.own().vacant(b.idx()),
            self.own().vacant(c.idx()),
            self.own().vacant(d.idx()),
            self.enemy().vacant(a.idx()),
            self.enemy().vacant(b.idx()),
            self.enemy().vacant(d.idx()),
        ensures
            self.after(Move::Normal(a, b, piece)).after(Move::Normal(c, d, other)).after(
                Move::Normal(b, a, piece),
            ).after(Move::Normal(d, c, other)).board == self.board,
    {
        a.lemma_idx();
        b.lemma_idx();
        c.lemma_idx();
        d.lemma_idx();
        let (ai, bi, ci, di) = (a.idx(), b.idx(), c.idx(), d.idx());
        let mine = self.own();
        let theirs = self.enemy();
        let once = self.after(Move::Normal(a, b, piece));
        theirs.lemma_without_vacant(bi);
        let mine1 = mine.moved(piece, ai, bi);
        assert(once.board == self.board.with(self.turn, mine1));
        let twice = once.after(Move::Normal(c, d, other));
        mine.lemma_moved_vacant(piece, ai, bi, di);
        mine1.lemma_without_vacant(di);
        let theirs2 = theirs.moved(other, ci, di);
        assert(twice.board == self.board.with(self.turn, mine1).with(self.turn.opposite(), theirs2));
        let thrice = twice.after(Move::Normal(b, a, piece));
        theirs.lemma_moved_vacant(other, ci, di, ai);
        theirs2.lemma_without_vacant(ai);
        mine.lemma_moved_back(piece, ai, bi);
        assert(thrice.board == self.board.with(self.turn.opposite(), theirs2));
        let back = thrice.after(Move::Normal(d, c, other));
        mine.lemma_without_vacant(ci);
        theirs.lemma_moved_back(other, ci, di);
        assert(back.board == self.board);
    }

    /// Searched one half-move deep, the chosen move is a legal move that leads to
    /// a position with the lowest static score for the other side: no legal move
    /// gains more at once.
    pub proof fn lemma_best_at_depth_one(self)
        requires
            self.legal_move_seq().len() > 0,
        ensures
            best_choice(self, 1) is Some,
            self.legal_move_seq().contains(best_choice(self, 1)->0),
            forall|m: Move|
                self.legal_move_seq().contains(m) ==> -position_score(self.after(m))
                    <= -position_score(self.after(best_choice(self, 1)->0)),
    {
        crate::minimax::lemma_best_choice(self, 1);
        let chosen = best_choice(self, 1)->0;
        assert forall|m: Move| self.legal_move_seq().contains(m) implies -position_score(
            self.after(m),
        ) <= -position_score(self.after(chosen)) by {
            assert(crate::minimax::plain_score(self, m, 1) <= crate::minimax::plain_score(
                self,
                chosen,
                1,
            ));
        }
    }
}

} // verus!
