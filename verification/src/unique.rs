//! No move is generated twice.
use vstd::prelude::*;
use crate::bitboard::{bit, file_of, on_board, rank_of, Square};
use crate::movegen::{capture_promotions, moves_over, moves_to, promotions, step_fn};
use crate::pieces::Piece;
use crate::position::Position;
use crate::repr::Move;

verus! {

/// The number of the cell that the move leaves; -1 for a castling move.
pub open spec fn src_of(m: Move) -> int {
    match m {
        Move::Normal(s, _, _) => s.idx(),
        Move::EnPassant(s, _) => s.idx(),
        Move::Promotion(s, _, _) => s.idx(),
        _ => -1,
    }
}

/// The number of the cell that the move goes to; -1 for a castling move.
pub open spec fn dst_of(m: Move) -> int {
    match m {
        Move::Normal(_, d, _) => d.idx(),
        Move::EnPassant(_, d) => d.idx(),
        Move::Promotion(_, d, _) => d.idx(),
        _ => -1,
    }
}

/// The group of a move, in the order in which the groups are generated: the
/// moves of the king (0), of the knights (1), bishops (2), rooks (3) and queens
/// (4), the single steps of the pawns (5), their double steps (6), their
/// captures (7) and the castling moves (8). A pawn's move is a single step when
/// it stays on its file and goes one rank, a double step when it stays on its
/// file and goes further, and a capture when it leaves its file.
pub open spec fn group_of(m: Move) -> int {
    match m {
        Move::Normal(s, d, piece) => match piece {
            Piece::King => 0,
            Piece::Knight => 1,
            Piece::Bishop => 2,
            Piece::Rook => 3,
            Piece::Queen => 4,
            Piece::Pawn => pawn_group(s.idx(), d.idx()),
        },
        Move::Promotion(s, d, _) => pawn_group(s.idx(), d.idx()),
        Move::EnPassant(_, _) => 7,
        _ => 8,
    }
}

/// The group of the move of a pawn from cell `s` to cell `d`.
pub open spec fn pawn_group(s: int, d: int) -> int {
    if file_of(s) != file_of(d) {
        7
    } else if rank_of(d) - rank_of(s) == 1 || rank_of(s) - rank_of(d) == 1 {
        5
    } else {
        6
    }
}

/// Whether no move occurs twice in the sequence and every move of it has the
/// given number under `tag` and meets `all`.
pub open spec fn marked(
    q: Seq<Move>,
    tag: spec_fn(Move) -> int,
    value: int,
    all: spec_fn(Move) -> bool,
) -> bool {
    &&& q.no_duplicates()
    &&& forall|i: int| 0 <= i < q.len() ==> tag(#[trigger] q[i]) == value && all(q[i])
}

/// The moves of the cells of a mask hold no move twice if the moves of each
/// cell of the mask hold none twice and are marked with the number of that
/// cell. The moves then all have a number below `n`, and what holds of all the
/// moves of each cell holds of them all.
pub proof fn lemma_moves_over_unique(
    from: u64,
    f: spec_fn(int) -> Seq<Move>,
    n: int,
    tag: spec_fn(Move) -> int,
    all: spec_fn(Move) -> bool,
)
    requires
        forall|s: int| 0 <= s < n && bit(from, s) ==> marked(#[trigger] f(s), tag, s, all),
    ensures
        moves_over(from, f, n).no_duplicates(),
        forall|i: int|
            0 <= i < moves_over(from, f, n).len() ==> 0 <= tag(
                #[trigger] moves_over(from, f, n)[i],
            ) < n && all(moves_over(from, f, n)[i]),
    decreases n,
{
    if n > 0 {
        lemma_moves_over_unique(from, f, n - 1, tag, all);
        if bit(from, n - 1) {
            let a = moves_over(from, f, n - 1);
            let b = f(n - 1);
            assert(marked(b, tag, n - 1, all));
            vstd::seq_lib::lemma_no_dup_in_concat(a, b);
        }
    }
}

/// Two sequences without a move twice, the moves of the first in groups below
/// `c` and those of the second in the group `c`, make one sequence without a
/// move twice, with the moves in groups up to `c`.
pub proof fn lemma_groups_concat(a: Seq<Move>, b: Seq<Move>, c: int)
    requires
        a.no_duplicates(),
        b.no_duplicates(),
        forall|i: int| 0 <= i < a.len() ==> group_of(#[trigger] a[i]) < c,
        forall|i: int| 0 <= i < b.len() ==> group_of(#[trigger] b[i]) == c,
    ensures
        (a + b).no_duplicates(),
        forall|i: int| 0 <= i < (a + b).len() ==> group_of(#[trigger] (a + b)[i]) <= c,
{
    vstd::seq_lib::lemma_no_dup_in_concat(a, b);
}

/// The moves of one piece from a cell hold no move twice; they leave that cell
/// and are in the group of the piece.
pub proof fn lemma_moves_to_unique(src: Square, piece: Piece, targets: u64)
    ensures
        marked(
            moves_to(src, piece, targets),
            |m: Move| src_of(m),
            src.idx(),
            |m: Move| m is Normal && m->Normal_2 == piece,
        ),
{
    let f = step_fn(src, piece);
    let all = |m: Move| m is Normal && m->Normal_2 == piece && src_of(m) == src.idx();
    let tag = |m: Move| dst_of(m);
    assert forall|d: int| 0 <= d < 64 && bit(targets, d) implies marked(
        #[trigger] f(d),
        tag,
        d,
        all,
    ) by {
        Square::lemma_of(d);
    }
    lemma_moves_over_unique(targets, f, 64, tag, all);
    let q = moves_to(src, piece, targets);
    assert forall|i: int| 0 <= i < q.len() implies src_of(#[trigger] q[i]) == src.idx() && (q[i]
        is Normal && q[i]->Normal_2 == piece) by {
        assert(all(q[i]));
    }
}

impl Position {
    /// The moves of the knights, bishops, rooks or queens hold no move twice,
    /// and they are ordinary moves of that kind of piece.
    pub proof fn lemma_piece_moves_unique(self, piece: Piece)
        ensures
            self.piece_moves(piece).no_duplicates(),
            forall|i: int|
                0 <= i < self.piece_moves(piece).len() ==> (#[trigger] self.piece_moves(
                    piece,
                )[i]) is Normal && self.piece_moves(piece)[i]->Normal_2 == piece,
    {
        let f = self.piece_moves_fn(piece);
        let tag = |m: Move| src_of(m);
        let all = |m: Move| m is Normal && m->Normal_2 == piece;
        assert forall|s: int| 0 <= s < 64 && bit(self.own().mask(piece), s) implies marked(
            #[trigger] f(s),
            tag,
            s,
            all,
        ) by {
            Square::lemma_of(s);
            lemma_moves_to_unique(Square::of(s), piece, self.targets(piece, s));
            let q = f(s);
            assert forall|i: int| 0 <= i < q.len() implies tag(#[trigger] q[i]) == s && all(
                q[i],
            ) by {
                assert((|m: Move| src_of(m))(q[i]) == Square::of(s).idx());
            }
        }
        lemma_moves_over_unique(self.own().mask(piece), f, 64, tag, all);
        let q = self.piece_moves(piece);
        assert forall|i: int| 0 <= i < q.len() implies (#[trigger] q[i]) is Normal
            && q[i]->Normal_2 == piece by {
            assert(all(q[i]));
        }
    }

    /// The single steps of the pawns hold no move twice, and they are in the
    /// group of the single steps.
    pub proof fn lemma_single_pushes_unique(self)
        ensures
            self.single_push_moves().no_duplicates(),
            forall|i: int|
                0 <= i < self.single_push_moves().len() ==> group_of(
                    #[trigger] self.single_push_moves()[i],
                ) == 5,
    {
        let f = self.single_push_fn();
        let tag = |m: Move| dst_of(m);
        let all = |m: Move| group_of(m) == 5;
        assert forall|d: int| 0 <= d < 64 && bit(self.single_pushes(), d) implies marked(
            #[trigger] f(d),
            tag,
            d,
            all,
        ) by {
            Square::lemma_of(d);
            match self.backward().step_from(d) {
                Some(s) => {
                    Square::lemma_of(s);
                },
                None => {},
            }
        }
        lemma_moves_over_unique(self.single_pushes(), f, 64, tag, all);
        let q = self.single_push_moves();
        assert forall|i: int| 0 <= i < q.len() implies group_of(#[trigger] q[i]) == 5 by {
            assert(all(q[i]));
        }
    }

    /// The double steps of the pawns hold no move twice, and they are in the
    /// group of the double steps.
    pub proof fn lemma_double_pushes_unique(self)
        ensures
            self.double_push_moves().no_duplicates(),
            forall|i: int|
                0 <= i < self.double_push_moves().len() ==> group_of(
                    #[trigger] self.double_push_moves()[i],
                ) == 6,
    {
        let f = self.double_push_fn();
        let tag = |m: Move| dst_of(m);
        let all = |m: Move| group_of(m) == 6;
        assert forall|d: int| 0 <= d < 64 && bit(self.double_pushes(), d) implies marked(
            #[trigger] f(d),
            tag,
            d,
            all,
        ) by {
            Square::lemma_of(d);
            match self.backward().step_from(d) {
                Some(mid) => {
                    match self.backward().step_from(mid) {
                        Some(s) => {
                            Square::lemma_of(s);
                        },
                        None => {},
                    }
                },
                None => {},
            }
        }
        lemma_moves_over_unique(self.double_pushes(), f, 64, tag, all);
        let q = self.double_push_moves();
        assert forall|i: int| 0 <= i < q.len() implies group_of(#[trigger] q[i]) == 6 by {
            assert(all(q[i]));
        }
    }

    /// The captures of the pawn on cell `s` hold no move twice; they leave that
    /// cell and are in the group of the captures.
    pub proof fn lemma_captures_from_unique(self, s: int)
        requires
            on_board(s),
        ensures
            marked(self.captures_fn()(s), |m: Move| src_of(m), s, |m: Move| group_of(m) == 7),
    {
        let g = self.capture_to_fn(s);
        let tag = |m: Move| dst_of(m);
        let all = |m: Move| group_of(m) == 7 && src_of(m) == s;
        let targets = self.capture_targets(s);
        Square::lemma_of(s);
        assert forall|d: int| 0 <= d < 64 && bit(targets, d) implies marked(
            #[trigger] g(d),
            tag,
            d,
            all,
        ) by {
            Square::lemma_of(d);
            let reach = crate::position::piece_mask(Piece::Pawn, self.turn, self.board.all(), s);
            crate::bitboard::lemma_bit_and(
                reach,
                (self.protect() & self.enemy().all() & self.pin_mask(s)) | self.en_passant_mask(),
            );
            crate::geometry::lemma_pawn_takes(self.turn, s, d);
        }
        lemma_moves_over_unique(targets, g, 64, tag, all);
        let q = self.captures_fn()(s);
        assert forall|i: int| 0 <= i < q.len() implies (|m: Move| src_of(m))(#[trigger] q[i]) == s
            && (|m: Move| group_of(m) == 7)(q[i]) by {
            assert(all(q[i]));
        }
    }

    /// The captures of the pawns hold no move twice, and they are in the group
    /// of the captures.
    pub proof fn lemma_captures_unique(self)
        ensures
            self.capture_moves().no_duplicates(),
            forall|i: int|
                0 <= i < self.capture_moves().len() ==> group_of(
                    #[trigger] self.capture_moves()[i],
                ) == 7,
    {
        let f = self.captures_fn();
        let tag = |m: Move| src_of(m);
        let all = |m: Move| group_of(m) == 7;
        assert forall|s: int| 0 <= s < 64 && bit(self.own().pawns.0, s) implies marked(
            #[trigger] f(s),
            tag,
            s,
            all,
        ) by {
            self.lemma_captures_from_unique(s);
            let q = f(s);
            assert forall|i: int| 0 <= i < q.len() implies tag(#[trigger] q[i]) == s && all(
                q[i],
            ) by {
                assert((|m: Move| src_of(m))(q[i]) == s);
                assert((|m: Move| group_of(m) == 7)(q[i]));
            }
        }
        lemma_moves_over_unique(self.own().pawns.0, f, 64, tag, all);
        let q = self.capture_moves();
        assert forall|i: int| 0 <= i < q.len() implies group_of(#[trigger] q[i]) == 7 by {
            assert(all(q[i]));
        }
    }

    /// No legal move is generated twice: every move occurs once at most among
    /// the legal moves.
    pub proof fn lemma_legal_moves_unique(self)
        ensures
            self.legal_move_seq().no_duplicates(),
    {
        if self.has_king() {
            let king = self.king_moves();
            lemma_moves_to_unique(Square::of(self.king_cell()), Piece::King, self.king_targets());
            assert forall|i: int| 0 <= i < king.len() implies group_of(#[trigger] king[i]) <= 0 by {
                assert((|m: Move| m is Normal && m->Normal_2 == Piece::King)(king[i]));
            }
            if self.checks() <= 1 {
                self.lemma_piece_moves_unique(Piece::Knight);
                self.lemma_piece_moves_unique(Piece::Bishop);
                self.lemma_piece_moves_unique(Piece::Rook);
                self.lemma_piece_moves_unique(Piece::Queen);
                self.lemma_single_pushes_unique();
                self.lemma_double_pushes_unique();
                self.lemma_captures_unique();
                let s1 = king + self.piece_moves(Piece::Knight);
                let s2 = s1 + self.piece_moves(Piece::Bishop);
                let s3 = s2 + self.piece_moves(Piece::Rook);
                let s4 = s3 + self.piece_moves(Piece::Queen);
                let s5 = s4 + self.single_push_moves();
                let s6 = s5 + self.double_push_moves();
                let s7 = s6 + self.capture_moves();
                lemma_groups_concat(king, self.piece_moves(Piece::Knight), 1);
                lemma_groups_concat(s1, self.piece_moves(Piece::Bishop), 2);
                lemma_groups_concat(s2, self.piece_moves(Piece::Rook), 3);
                lemma_groups_concat(s3, self.piece_moves(Piece::Queen), 4);
                lemma_groups_concat(s4, self.single_push_moves(), 5);
                lemma_groups_concat(s5, self.double_push_moves(), 6);
                lemma_groups_concat(s6, self.capture_moves(), 7);
                let castles = self.castle_moves();
                assert(castles.no_duplicates());
                assert forall|i: int| 0 <= i < castles.len() implies group_of(
                    #[trigger] castles[i],
                ) == 8 by {}
                lemma_groups_concat(s7, castles, 8);
            }
        }
    }
}

} // verus!
