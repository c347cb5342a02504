//! No legal move leaves the king of the side that made it in check.
use vstd::prelude::*;
use crate::bitboard::{
    bit, lemma_bit_and, lemma_bit_moved, lemma_bit_not, lemma_bit_or, lemma_bit_single,
    lemma_bit_zero, lemma_lowest, on_board, single, Direction, Square,
};
use crate::constants::{king_mask, slide_masks, Line};
use crate::geometry::{
    blockers, in_mask, lemma_blockers_clear, lemma_blockers_differ, lemma_blockers_grow,
    lemma_blockers_none, lemma_crossing_along, lemma_on_line, lemma_other_line,
    lemma_ray_distinct, lemma_ray_from_cell, lemma_ray_step, lemma_slide_masks, ray_cell, reaches,
    reverse, runs_along, slides,
};
use crate::laws::lemma_moves_to_contains;
use crate::movegen::{slide_attack, slide_attack_fn};
use crate::pieces::{Piece, Pieces};
use crate::position::{
    attacks_of, bishop_mask, count_over, piece_mask, piece_mask_fn, queen_mask, rook_mask,
    union_over, Board, Position,
};
use crate::repr::{Color, Move};

verus! {

/// A mask meets the mask of a single cell exactly when it holds that cell.
pub proof fn lemma_meets(x: u64, k: int)
    requires
        on_board(k),
    ensures
        (x & single(k) != 0) == bit(x, k),
{
    lemma_bit_single(k);
    lemma_bit_and(x, single(k));
    lemma_bit_zero(x & single(k));
    if bit(x, k) {
        assert(bit(x & single(k), k));
    }
}

/// A cell is in a union over the cells of a mask exactly when it is in the part
/// that one of those cells adds.
pub proof fn lemma_union_bits(from: u64, f: spec_fn(int) -> u64, n: int, t: int)
    ensures
        bit(union_over(from, f, n), t) <==> exists|a: int|
            0 <= a < n && bit(from, a) && bit(#[trigger] f(a), t),
    decreases n,
{
    lemma_bit_zero(0);
    if n > 0 {
        lemma_union_bits(from, f, n - 1, t);
        if bit(from, n - 1) {
            lemma_bit_or(union_over(from, f, n - 1), f(n - 1));
        }
    }
}

/// A count over the cells of a mask is at least one when one of them meets the
/// condition, and at least two when two of them do.
pub proof fn lemma_count_witness(from: u64, p: spec_fn(int) -> bool, n: int, a: int, b: int)
    requires
        0 <= a < n,
        bit(from, a),
        p(a),
    ensures
        count_over(from, p, n) >= 1,
        0 <= b < n && b != a && bit(from, b) && p(b) ==> count_over(from, p, n) >= 2,
    decreases n,
{
    if a < n - 1 {
        lemma_count_witness(from, p, n - 1, a, b);
    } else if 0 <= b < n - 1 && bit(from, b) && p(b) {
        lemma_count_witness(from, p, n - 1, b, a);
    }
}

/// A cell holds a piece of a side exactly when it is in one of the six masks.
pub proof fn lemma_all_bits(p: Pieces, t: int)
    ensures
        bit(p.all(), t) <==> !p.vacant(t),
{
    let a = p.pawns.0;
    let b = p.bishops.0;
    let c = p.knights.0;
    let d = p.rooks.0;
    let e = p.queens.0;
    let f = p.kings.0;
    lemma_bit_or(a, b);
    lemma_bit_or(a | b, c);
    lemma_bit_or(a | b | c, d);
    lemma_bit_or(a | b | c | d, e);
    lemma_bit_or(a | b | c | d | e, f);
}

/// A cell holds a piece exactly when it holds one of either side.
pub proof fn lemma_board_bits(b: Board, t: int)
    ensures
        bit(b.all(), t) <==> !b.0.vacant(t) || !b.1.vacant(t),
{
    lemma_all_bits(b.0, t);
    lemma_all_bits(b.1, t);
    lemma_bit_or(b.0.all(), b.1.all());
}

/// Whether a piece of the given kind and colour on cell `a` attacks cell `t`
/// on a board with the given occupied cells: a pawn or a knight by its jumps,
/// a bishop, a rook or a queen along a line with nothing in between. A king
/// does not count.
pub open spec fn threatens(kind: Piece, color: Color, occupied: u64, a: int, t: int) -> bool {
    match kind {
        Piece::Pawn | Piece::Knight => bit(piece_mask(kind, color, occupied, a), t),
        Piece::Bishop => slides(occupied, Line::MainDiag, a, t, 0) || slides(
            occupied,
            Line::SecondDiag,
            a,
            t,
            0,
        ),
        Piece::Rook => slides(occupied, Line::Rank, a, t, 0) || slides(occupied, Line::File, a, t, 0),
        Piece::Queen => slides(occupied, Line::MainDiag, a, t, 0) || slides(
            occupied,
            Line::SecondDiag,
            a,
            t,
            0,
        ) || slides(occupied, Line::Rank, a, t, 0) || slides(occupied, Line::File, a, t, 0),
        Piece::King => false,
    }
}

/// The mask of the cells that a piece attacks holds the cells that it threatens.
pub proof fn lemma_piece_mask_bits(kind: Piece, color: Color, occupied: u64, a: int, t: int)
    requires
        on_board(a),
        kind != Piece::King,
    ensures
        bit(piece_mask(kind, color, occupied, a), t) <==> threatens(kind, color, occupied, a, t),
{
    let md = slide_masks(Line::MainDiag, occupied, a).0;
    let sd = slide_masks(Line::SecondDiag, occupied, a).0;
    let h = slide_masks(Line::Rank, occupied, a).0;
    let v = slide_masks(Line::File, occupied, a).0;
    lemma_bit_or(md, sd);
    lemma_bit_or(h, v);
    lemma_bit_or(md | sd, h | v);
    lemma_slide_masks(Line::MainDiag, occupied, a, t, 0);
    lemma_slide_masks(Line::SecondDiag, occupied, a, t, 0);
    lemma_slide_masks(Line::Rank, occupied, a, t, 0);
    lemma_slide_masks(Line::File, occupied, a, t, 0);
}

/// A king of the given colour is in check exactly when a piece of the other
/// side threatens a cell on which it stands.
pub proof fn lemma_checked(b: Board, player: Color, k: int)
    requires
        on_board(k),
        b.of(player).kings.0 == single(k),
    ensures
        b.checked(player) <==> exists|kind: Piece, a: int|
            on_board(a) && kind != Piece::King && bit(b.of(player.opposite()).mask(kind), a)
                && #[trigger] threatens(kind, player.opposite(), b.all(), a, k),
{
    let them = player.opposite();
    let e = b.of(them);
    let occ = b.all();
    let n = attacks_of(Piece::Knight, them, occ, e.knights.0);
    let bi = attacks_of(Piece::Bishop, them, occ, e.bishops.0);
    let r = attacks_of(Piece::Rook, them, occ, e.rooks.0);
    let q = attacks_of(Piece::Queen, them, occ, e.queens.0);
    let p = attacks_of(Piece::Pawn, them, occ, e.pawns.0);
    lemma_bit_or(n, bi);
    lemma_bit_or(n | bi, r);
    lemma_bit_or(n | bi | r, q);
    lemma_bit_or(n | bi | r | q, p);
    let attack = b.attack_mask(them);
    assert(attack == n | bi | r | q | p);
    lemma_meets(attack, k);
    assert((single(k) & attack) == (attack & single(k))) by {
        let x = single(k);
        assert((x & attack) == (attack & x)) by (bit_vector);
    }
    lemma_union_bits(e.knights.0, piece_mask_fn(Piece::Knight, them, occ), 64, k);
    lemma_union_bits(e.bishops.0, piece_mask_fn(Piece::Bishop, them, occ), 64, k);
    lemma_union_bits(e.rooks.0, piece_mask_fn(Piece::Rook, them, occ), 64, k);
    lemma_union_bits(e.queens.0, piece_mask_fn(Piece::Queen, them, occ), 64, k);
    lemma_union_bits(e.pawns.0, piece_mask_fn(Piece::Pawn, them, occ), 64, k);
    if b.checked(player) {
        let kind = if bit(n, k) {
            Piece::Knight
        } else if bit(bi, k) {
            Piece::Bishop
        } else if bit(r, k) {
            Piece::Rook
        } else if bit(q, k) {
            Piece::Queen
        } else {
            Piece::Pawn
        };
        let f = piece_mask_fn(kind, them, occ);
        let a = choose|a: int| 0 <= a < 64 && bit(e.mask(kind), a) && bit(#[trigger] f(a), k);
        lemma_piece_mask_bits(kind, them, occ, a, k);
        assert(threatens(kind, them, occ, a, k));
    }
    if exists|kind: Piece, a: int|
        on_board(a) && kind != Piece::King && bit(e.mask(kind), a) && #[trigger] threatens(
            kind,
            them,
            occ,
            a,
            k,
        ) {
        let (kind, a) = choose|kind: Piece, a: int|
            on_board(a) && kind != Piece::King && bit(e.mask(kind), a) && #[trigger] threatens(
                kind,
                them,
                occ,
                a,
                k,
            );
        lemma_piece_mask_bits(kind, them, occ, a, k);
        let f = piece_mask_fn(kind, them, occ);
        assert(bit(f(a), k));
    }
}


/// What is left of a side's pieces when the piece on cell `d` is taken: the
/// pieces that stood elsewhere.
pub proof fn lemma_without_bits(p: Pieces, d: int, kind: Piece, a: int)
    requires
        on_board(d),
    ensures
        bit(p.without(d).mask(kind), a) <==> bit(p.mask(kind), a) && a != d,
{
    lemma_bit_single(d);
    lemma_bit_not(single(d));
    lemma_bit_and(p.mask(kind), !single(d));
    if on_board(a) {
        assert(bit(!single(d), a) == !bit(single(d), a));
    }
}

/// The cells that hold a piece of a side after one of its pieces has gone from
/// cell `s` to cell `d`: the cell `d`, and every cell but `s` that held one
/// before.
pub proof fn lemma_moved_bits(p: Pieces, from: Piece, to: Piece, s: int, d: int, t: int)
    requires
        on_board(s),
        on_board(d),
    ensures
        !p.lifted(from, s).dropped(to, d).vacant(d),
        t != s && t != d ==> p.lifted(from, s).dropped(to, d).vacant(t) == p.vacant(t),
        from != Piece::King && to != Piece::King ==> p.lifted(from, s).dropped(to, d).kings
            == p.kings,
{
    let q = p.lifted(from, s);
    lemma_bit_single(s);
    lemma_bit_single(d);
    lemma_bit_not(single(s));
    lemma_bit_and(p.mask(from), !single(s));
    lemma_bit_or(q.mask(to), single(d));
    if on_board(t) {
        assert(bit(!single(s), t) == !bit(single(s), t));
    }
}

/// Whether the board `after` comes from the board `before` by a move of the
/// side `us` that takes one of its pieces from cell `src` to cell `dst`: the
/// pieces of the other side are those that did not stand on `dst`, the cell
/// `dst` is occupied, and every cell but these two is occupied as before.
pub open spec fn shifted(before: Board, after: Board, us: Color, src: int, dst: int) -> bool {
    &&& forall|kind: Piece, a: int| #[trigger]
        bit(after.of(us.opposite()).mask(kind), a) ==> bit(
            before.of(us.opposite()).mask(kind),
            a,
        ) && a != dst
    &&& bit(after.all(), dst)
    &&& forall|t: int|
        t != src && t != dst ==> #[trigger] bit(after.all(), t) == bit(before.all(), t)
}

/// The board after a side has taken a piece of the kind `from` from cell `s`,
/// put a piece of the kind `to` on cell `d`, and taken what the other side had
/// there.
pub open spec fn board_after(b: Board, us: Color, from: Piece, to: Piece, s: int, d: int) -> Board {
    b.with(us, b.of(us).lifted(from, s).dropped(to, d)).with(
        us.opposite(),
        b.of(us.opposite()).without(d),
    )
}

/// Such a board comes from the board before by a move from `s` to `d`.
pub proof fn lemma_board_after(b: Board, us: Color, from: Piece, to: Piece, s: int, d: int)
    requires
        on_board(s),
        on_board(d),
    ensures
        shifted(b, board_after(b, us, from, to, s, d), us, s, d),
        from != Piece::King && to != Piece::King ==> board_after(b, us, from, to, s, d).of(
            us,
        ).kings == b.of(us).kings,
{
    let after = board_after(b, us, from, to, s, d);
    let them = us.opposite();
    assert forall|kind: Piece, a: int| #[trigger]
        bit(after.of(them).mask(kind), a) implies bit(b.of(them).mask(kind), a) && a != d by {
        lemma_without_bits(b.of(them), d, kind, a);
    }
    lemma_moved_bits(b.of(us), from, to, s, d, d);
    lemma_board_bits(after, d);
    assert forall|t: int| t != s && t != d implies #[trigger] bit(after.all(), t) == bit(
        b.all(),
        t,
    ) by {
        lemma_moved_bits(b.of(us), from, to, s, d, t);
        lemma_board_bits(after, t);
        lemma_board_bits(b, t);
        lemma_without_bits(b.of(them), d, Piece::Pawn, t);
        lemma_without_bits(b.of(them), d, Piece::Knight, t);
        lemma_without_bits(b.of(them), d, Piece::Bishop, t);
        lemma_without_bits(b.of(them), d, Piece::Rook, t);
        lemma_without_bits(b.of(them), d, Piece::Queen, t);
        lemma_without_bits(b.of(them), d, Piece::King, t);
    }
}

/// The family of lines that a direction runs along.
pub open spec fn axis_of(dir: Direction) -> Line {
    match dir {
        Direction::Left | Direction::Right => Line::Rank,
        Direction::Up | Direction::Down => Line::File,
        Direction::UpLeft | Direction::DownRight => Line::MainDiag,
        Direction::UpRight | Direction::DownLeft => Line::SecondDiag,
    }
}

impl Position {
    /// Whether the king of the side to move is set up as the rules of the game
    /// have it: that side has one king, on a cell where the other side has no
    /// piece; while it may castle, king and rook stand on their home cells; and
    /// the piece behind the en-passant cell is a pawn.
    pub open spec fn king_set_up(self) -> bool {
        &&& on_board(self.king_cell())
        &&& self.own().kings.0 == single(self.king_cell())
        &&& self.enemy().vacant(self.king_cell())
        &&& self.castling_rights.of(self.turn).kingside ==> self.king_cell()
            == crate::position::king_home(self.turn).idx() && bit(
            self.own().rooks.0,
            crate::position::king_rook_home(self.turn).idx(),
        )
        &&& self.castling_rights.of(self.turn).queenside ==> self.king_cell()
            == crate::position::king_home(self.turn).idx() && bit(
            self.own().rooks.0,
            crate::position::queen_rook_home(self.turn).idx(),
        )
        &&& self.en_passant matches Some(sq) ==> self.pawn_behind(sq)
    }

    /// A cell that a piece of the other side threatens once the king is lifted
    /// from the board is among the attacked cells.
    pub proof fn lemma_attacked(self, kind: Piece, a: int, t: int)
        requires
            on_board(a),
            kind != Piece::King,
            bit(self.enemy().mask(kind), a),
            threatens(kind, self.turn.opposite(), self.behind_king(), a, t),
        ensures
            bit(self.attacked(), t),
    {
        let them = self.turn.opposite();
        let occ = self.behind_king();
        let e = self.enemy();
        let p = attacks_of(Piece::Pawn, them, occ, e.pawns.0);
        let n = attacks_of(Piece::Knight, them, occ, e.knights.0);
        let o = union_over(self.orthogonal(), slide_attack_fn(Line::Rank, Line::File, occ), 64);
        let d = union_over(
            self.diagonal(),
            slide_attack_fn(Line::MainDiag, Line::SecondDiag, occ),
            64,
        );
        let kg = attacks_of(Piece::King, them, occ, e.kings.0);
        lemma_bit_or(p, n);
        lemma_bit_or(p | n, o);
        lemma_bit_or(p | n | o, d);
        lemma_bit_or(p | n | o | d, kg);
        lemma_bit_or(e.rooks.0, e.queens.0);
        lemma_bit_or(e.bishops.0, e.queens.0);
        lemma_union_bits(e.pawns.0, piece_mask_fn(Piece::Pawn, them, occ), 64, t);
        lemma_union_bits(e.knights.0, piece_mask_fn(Piece::Knight, them, occ), 64, t);
        lemma_union_bits(self.orthogonal(), slide_attack_fn(Line::Rank, Line::File, occ), 64, t);
        lemma_union_bits(
            self.diagonal(),
            slide_attack_fn(Line::MainDiag, Line::SecondDiag, occ),
            64,
            t,
        );
        lemma_slide_masks(Line::MainDiag, occ, a, t, 0);
        lemma_slide_masks(Line::SecondDiag, occ, a, t, 0);
        lemma_slide_masks(Line::Rank, occ, a, t, 0);
        lemma_slide_masks(Line::File, occ, a, t, 0);
        lemma_bit_or(slide_masks(Line::Rank, occ, a).0, slide_masks(Line::File, occ, a).0);
        lemma_bit_or(
            slide_masks(Line::MainDiag, occ, a).0,
            slide_masks(Line::SecondDiag, occ, a).0,
        );
        match kind {
            Piece::Pawn => {
                assert(bit(piece_mask_fn(Piece::Pawn, them, occ)(a), t));
            },
            Piece::Knight => {
                assert(bit(piece_mask_fn(Piece::Knight, them, occ)(a), t));
            },
            Piece::Rook => {
                assert(bit(slide_attack_fn(Line::Rank, Line::File, occ)(a), t));
            },
            Piece::Bishop => {
                assert(bit(slide_attack_fn(Line::MainDiag, Line::SecondDiag, occ)(a), t));
            },
            _ => {
                if slides(occ, Line::Rank, a, t, 0) || slides(occ, Line::File, a, t, 0) {
                    assert(bit(slide_attack_fn(Line::Rank, Line::File, occ)(a), t));
                } else {
                    assert(bit(slide_attack_fn(Line::MainDiag, Line::SecondDiag, occ)(a), t));
                }
            },
        }
    }

    /// The occupied cells with the king lifted, cell by cell.
    pub proof fn lemma_behind_king(self, t: int)
        requires
            on_board(self.king_cell()),
        ensures
            bit(self.behind_king(), t) <==> bit(self.board.all(), t) && t != self.king_cell(),
    {
        let k = self.king_cell();
        lemma_bit_single(k);
        lemma_bit_not(single(k));
        lemma_bit_and(self.board.all(), !single(k));
        if on_board(t) {
            assert(bit(!single(k), t) == !bit(single(k), t));
        }
    }

    /// A slider that reaches a cell on a board reaches it on every board whose
    /// occupied cells are occupied on the first as well, the cell itself aside.
    pub proof fn lemma_slides_fewer(more: u64, fewer: u64, axis: Line, a: int, t: int)
        requires
            on_board(a),
            slides(more, axis, a, t, 0),
            forall|c: int| c != t && bit(fewer, c) ==> bit(more, c),
        ensures
            slides(fewer, axis, a, t, 0),
    {
        let dir = if reaches(in_mask(more), a, axis.up(), t, 0) {
            axis.up()
        } else {
            axis.down()
        };
        let j = choose|j: int|
            1 <= j < 8 && #[trigger] ray_cell(a, dir, j) == Some(t) && blockers(
                in_mask(more),
                a,
                dir,
                j - 1,
            ) == 0;
        assert forall|i: int| 1 <= i <= j - 1 && ray_cell(a, dir, i) is Some implies !in_mask(
            fewer,
        )(#[trigger] ray_cell(a, dir, i)->0) by {
            lemma_blockers_none(in_mask(more), a, dir, j - 1, i);
            lemma_ray_distinct(a, dir, i, j);
        }
        lemma_blockers_clear(in_mask(fewer), a, dir, j - 1);
        assert(reaches(in_mask(fewer), a, dir, t, 0));
    }

    /// No move of the king to a cell that it may go to leaves it in check.
    pub proof fn lemma_king_move_safe(self, dst: Square)
        requires
            self.king_set_up(),
            bit(self.king_targets(), dst.idx()),
        ensures
            !self.after(Move::Normal(Square::of(self.king_cell()), dst, Piece::King)).board.checked(
                self.turn,
            ),
    {
        let k = self.king_cell();
        let d = dst.idx();
        let us = self.turn;
        let them = us.opposite();
        dst.lemma_idx();
        Square::lemma_of(k);
        let next = self.after(Move::Normal(Square::of(k), dst, Piece::King));
        let after = next.board;
        assert(after == board_after(self.board, us, Piece::King, Piece::King, k, d));
        lemma_board_after(self.board, us, Piece::King, Piece::King, k, d);
        crate::bitboard::lemma_single_moved(k, d);
        assert(after.of(us).kings.0 == single(d));
        lemma_checked(after, us, d);
        lemma_bit_and(king_mask(k) & !self.attacked(), !self.own().all());
        lemma_bit_and(king_mask(k), !self.attacked());
        lemma_bit_not(self.attacked());
        assert(!bit(self.attacked(), d));
        if after.checked(us) {
            let (kind, a) = choose|kind: Piece, a: int|
                on_board(a) && kind != Piece::King && bit(after.of(them).mask(kind), a)
                    && #[trigger] threatens(kind, them, after.all(), a, d);
            assert(bit(self.enemy().mask(kind), a) && a != d);
            let occ = self.behind_king();
            assert forall|c: int| c != d && bit(occ, c) implies bit(after.all(), c) by {
                self.lemma_behind_king(c);
            }
            match kind {
                Piece::Pawn | Piece::Knight => {},
                _ => {
                    if slides(after.all(), Line::MainDiag, a, d, 0) {
                        Self::lemma_slides_fewer(after.all(), occ, Line::MainDiag, a, d);
                    }
                    if slides(after.all(), Line::SecondDiag, a, d, 0) {
                        Self::lemma_slides_fewer(after.all(), occ, Line::SecondDiag, a, d);
                    }
                    if slides(after.all(), Line::Rank, a, d, 0) {
                        Self::lemma_slides_fewer(after.all(), occ, Line::Rank, a, d);
                    }
                    if slides(after.all(), Line::File, a, d, 0) {
                        Self::lemma_slides_fewer(after.all(), occ, Line::File, a, d);
                    }
                },
            }
            assert(threatens(kind, them, occ, a, d));
            self.lemma_attacked(kind, a, d);
        }
    }
}


/// The family of lines of a way to give check: ways 2 and 3 are along a rank
/// and along a file, ways 4 and 5 along the two kinds of diagonal.
pub open spec fn way_axis(way: int) -> Line {
    if way == 2 {
        Line::Rank
    } else if way == 3 {
        Line::File
    } else if way == 4 {
        Line::MainDiag
    } else {
        Line::SecondDiag
    }
}

impl Position {
    /// The cells of the pieces that may give check in one of six ways: as a
    /// pawn (0), as a knight (1), along a rank (2) or a file (3) as a rook or a
    /// queen, along a main (4) or a second diagonal (5) as a bishop or a queen.
    pub open spec fn checkers(self, way: int) -> u64 {
        if way == 0 {
            self.enemy().pawns.0
        } else if way == 1 {
            self.enemy().knights.0
        } else if way == 2 || way == 3 {
            self.orthogonal()
        } else {
            self.diagonal()
        }
    }

    /// The test for a check in one of the six ways, as a function of the cell.
    pub open spec fn check_fn(self, way: int) -> spec_fn(int) -> bool {
        let them = self.turn.opposite();
        let occ = self.behind_king();
        let k = self.king_cell();
        if way == 0 {
            crate::movegen::contact_check_fn(Piece::Pawn, them, occ, k)
        } else if way == 1 {
            crate::movegen::contact_check_fn(Piece::Knight, them, occ, k)
        } else {
            crate::movegen::slide_check_fn(way_axis(way), occ, k)
        }
    }

    /// Whether the piece on cell `a` gives check in the given way.
    pub open spec fn gives_check(self, way: int, a: int) -> bool {
        0 <= way < 6 && on_board(a) && bit(self.checkers(way), a) && self.check_fn(way)(a)
    }

    /// The cells on which a check given in the given way from cell `a` can be
    /// parried.
    pub open spec fn parry(self, way: int, a: int) -> u64 {
        let occ = self.behind_king();
        let k = self.king_cell();
        if way == 0 || way == 1 {
            single(a)
        } else {
            (slide_masks(way_axis(way), occ, a).0 & crate::constants::between_mask(
                way_axis(way).crossing(),
                way_axis(way).crossing().index_of(a),
                way_axis(way).crossing().index_of(k),
            )) | single(a)
        }
    }

    /// The number of checks is the number of checks in the six ways.
    pub proof fn lemma_checks_sum(self)
        ensures
            self.checks() == count_over(self.checkers(0), self.check_fn(0), 64) + count_over(
                self.checkers(1),
                self.check_fn(1),
                64,
            ) + count_over(self.checkers(2), self.check_fn(2), 64) + count_over(
                self.checkers(3),
                self.check_fn(3),
                64,
            ) + count_over(self.checkers(4), self.check_fn(4), 64) + count_over(
                self.checkers(5),
                self.check_fn(5),
                64,
            ),
    {
    }

    /// A piece that gives check counts as a check, and two such pieces, or one
    /// that gives check in two ways, count as two.
    pub proof fn lemma_checks_count(self, way: int, a: int, way2: int, a2: int)
        requires
            self.gives_check(way, a),
        ensures
            self.checks() >= 1,
            self.gives_check(way2, a2) && (way != way2 || a != a2) ==> self.checks() >= 2,
    {
        self.lemma_checks_sum();
        lemma_count_witness(self.checkers(way), self.check_fn(way), 64, a, a2);
        if self.gives_check(way2, a2) {
            lemma_count_witness(self.checkers(way2), self.check_fn(way2), 64, a2, a);
        }
    }

    /// A cell on which checks can be parried is one on which the check of some
    /// piece can be parried.
    pub proof fn lemma_blocks_from(self, d: int) -> (r: (int, int))
        requires
            on_board(self.king_cell()),
            bit(self.blocks(), d),
        ensures
            self.gives_check(r.0, r.1),
            bit(self.parry(r.0, r.1), d),
    {
        let them = self.turn.opposite();
        let occ = self.behind_king();
        let k = self.king_cell();
        let g0 = crate::movegen::contact_block_fn(Piece::Pawn, them, occ, k);
        let g1 = crate::movegen::contact_block_fn(Piece::Knight, them, occ, k);
        let g2 = crate::movegen::slide_block_fn(Line::Rank, Line::File, occ, k);
        let g4 = crate::movegen::slide_block_fn(Line::MainDiag, Line::SecondDiag, occ, k);
        let u0 = union_over(self.enemy().pawns.0, g0, 64);
        let u1 = union_over(self.enemy().knights.0, g1, 64);
        let u2 = union_over(self.orthogonal(), g2, 64);
        let u4 = union_over(self.diagonal(), g4, 64);
        lemma_bit_or(u0, u1);
        lemma_bit_or(u0 | u1, u2);
        lemma_bit_or(u0 | u1 | u2, u4);
        lemma_union_bits(self.enemy().pawns.0, g0, 64, d);
        lemma_union_bits(self.enemy().knights.0, g1, 64, d);
        lemma_union_bits(self.orthogonal(), g2, 64, d);
        lemma_union_bits(self.diagonal(), g4, 64, d);
        lemma_bit_zero(0);
        if bit(u0, d) {
            let a = choose|a: int|
                0 <= a < 64 && bit(self.enemy().pawns.0, a) && bit(#[trigger] g0(a), d);
            (0, a)
        } else if bit(u1, d) {
            let a = choose|a: int|
                0 <= a < 64 && bit(self.enemy().knights.0, a) && bit(#[trigger] g1(a), d);
            (1, a)
        } else if bit(u2, d) {
            let a = choose|a: int|
                0 <= a < 64 && bit(self.orthogonal(), a) && bit(#[trigger] g2(a), d);
            let b2 = crate::movegen::slide_block(Line::Rank, occ, k, a);
            let b3 = crate::movegen::slide_block(Line::File, occ, k, a);
            lemma_bit_or(b2, b3);
            if bit(b2, d) {
                (2, a)
            } else {
                (3, a)
            }
        } else {
            let a = choose|a: int|
                0 <= a < 64 && bit(self.diagonal(), a) && bit(#[trigger] g4(a), d);
            let b4 = crate::movegen::slide_block(Line::MainDiag, occ, k, a);
            let b5 = crate::movegen::slide_block(Line::SecondDiag, occ, k, a);
            lemma_bit_or(b4, b5);
            if bit(b4, d) {
                (4, a)
            } else {
                (5, a)
            }
        }
    }

    /// With one check at most, a move to a cell that parries the checks parries
    /// the check of every piece that gives one.
    pub proof fn lemma_parries(self, way: int, a: int, d: int)
        requires
            on_board(self.king_cell()),
            self.checks() <= 1,
            self.gives_check(way, a),
            bit(self.protect(), d),
        ensures
            bit(self.parry(way, a), d),
    {
        self.lemma_checks_count(way, a, way, a);
        let r = self.lemma_blocks_from(d);
        self.lemma_checks_count(way, a, r.0, r.1);
    }
}


/// What is left to a piece by the sliders below `n` is part of what was left
/// before, and part of the line of every slider below `n` that pins it.
pub proof fn lemma_pins_over(
    from: u64,
    a1: Line,
    a2: Line,
    occupied: u64,
    own: u64,
    k: int,
    s: int,
    n: int,
    init: u64,
    d: int,
    a: int,
)
    requires
        bit(crate::movegen::pins_over(from, a1, a2, occupied, own, k, s, n, init), d),
    ensures
        bit(init, d),
        0 <= a < n && bit(from, a) && crate::movegen::slide_pins(a1, occupied, own, k, a, s)
            ==> bit(a1.mask(a1.index_of(s)), d),
        0 <= a < n && bit(from, a) && crate::movegen::slide_pins(a2, occupied, own, k, a, s)
            ==> bit(a2.mask(a2.index_of(s)), d),
    decreases n,
{
    if n > 0 {
        let prev = crate::movegen::pins_over(from, a1, a2, occupied, own, k, s, n - 1, init);
        if bit(from, n - 1) {
            let mid = crate::movegen::pin_step(prev, a1, occupied, own, k, n - 1, s);
            lemma_bit_and(prev, a1.mask(a1.index_of(s)));
            lemma_bit_and(mid, a2.mask(a2.index_of(s)));
        }
        lemma_pins_over(from, a1, a2, occupied, own, k, s, n - 1, init, d, a);
    }
}

/// A slider that reaches a cell on the board `after` reached it on the board
/// `before` too, or was kept from it by nothing but what stood on the cell
/// `src`, if every other cell that was occupied before is occupied after. The
/// lemma gives the direction and the number of steps of the slider's way to the
/// cell, and the number of steps to the cell `src` if that stood in the way, zero
/// if not.
pub proof fn lemma_threat_before(
    before: u64,
    after: u64,
    axis: Line,
    a: int,
    k: int,
    src: int,
) -> (r: (Direction, int, int))
    requires
        on_board(a),
        slides(after, axis, a, k, 0),
        forall|c: int| c != src && bit(before, c) ==> bit(after, c),
        src != k ==> bit(before, src),
    ensures
        runs_along(axis, r.0),
        1 <= r.1 < 8,
        ray_cell(a, r.0, r.1) == Some(k),
        blockers(in_mask(after), a, r.0, r.1 - 1) == 0,
        r.2 == 0 ==> blockers(in_mask(before), a, r.0, r.1 - 1) == 0,
        r.2 != 0 ==> 1 <= r.2 < r.1 && ray_cell(a, r.0, r.2) == Some(src) && blockers(
            in_mask(before),
            a,
            r.0,
            r.1 - 1,
        ) == 1 && blockers(in_mask(before), a, r.0, r.2 - 1) == 0,
{
    let dir = if reaches(in_mask(after), a, axis.up(), k, 0) {
        axis.up()
    } else {
        axis.down()
    };
    let j = choose|j: int|
        1 <= j < 8 && #[trigger] ray_cell(a, dir, j) == Some(k) && blockers(
            in_mask(after),
            a,
            dir,
            j - 1,
        ) == 0;
    let first = in_mask(before);
    let second = in_mask(after);
    if exists|i: int| 1 <= i < j && #[trigger] ray_cell(a, dir, i) == Some(src) {
        let i0 = choose|i: int| 1 <= i < j && #[trigger] ray_cell(a, dir, i) == Some(src);
        lemma_ray_distinct(a, dir, i0, j);
        assert forall|i: int|
            1 <= i <= j - 1 && i != i0 && ray_cell(a, dir, i) is Some implies first(
            #[trigger] ray_cell(a, dir, i)->0,
        ) == second(ray_cell(a, dir, i)->0) by {
            lemma_blockers_none(second, a, dir, j - 1, i);
            if i < i0 {
                lemma_ray_distinct(a, dir, i, i0);
            } else {
                lemma_ray_distinct(a, dir, i0, i);
            }
        }
        lemma_blockers_differ(first, second, a, dir, j - 1, i0);
        lemma_blockers_none(second, a, dir, j - 1, i0);
        lemma_blockers_grow(second, a, dir, i0 - 1, j - 1);
        lemma_blockers_grow(second, a, dir, 0, i0 - 1);
        assert forall|i: int|
            1 <= i <= i0 - 1 && i != 0 && ray_cell(a, dir, i) is Some implies first(
            #[trigger] ray_cell(a, dir, i)->0,
        ) == second(ray_cell(a, dir, i)->0) by {
            lemma_blockers_none(second, a, dir, j - 1, i);
            lemma_ray_distinct(a, dir, i, i0);
        }
        lemma_blockers_differ(first, second, a, dir, i0 - 1, 0);
        (dir, j, i0)
    } else {
        assert forall|i: int| 1 <= i <= j - 1 && ray_cell(a, dir, i) is Some implies !first(
            #[trigger] ray_cell(a, dir, i)->0,
        ) by {
            lemma_blockers_none(second, a, dir, j - 1, i);
        }
        lemma_blockers_clear(first, a, dir, j - 1);
        (dir, j, 0)
    }
}

/// Whether a piece on cell `src` can go to cell `dst` along a line on which
/// nothing stands in between.
pub open spec fn glides(occupied: u64, src: int, dst: int) -> bool {
    exists|dir: Direction, j: int|
        1 <= j < 8 && #[trigger] ray_cell(src, dir, j) == Some(dst) && blockers(
            in_mask(occupied),
            src,
            dir,
            j - 1,
        ) == 0
}

/// A piece that stands between two occupied cells `a` and `k` of a line, and
/// goes along a line on which nothing stands in between to another cell of the
/// line through `a` and `k`, goes to a cell between the two, unless it goes to
/// one of them.
pub proof fn lemma_line_move(
    occupied: u64,
    axis: Line,
    a: int,
    dir: Direction,
    j: int,
    i0: int,
    k: int,
    src: int,
    dst: int,
) -> (r: int)
    requires
        on_board(a),
        runs_along(axis, dir),
        1 <= i0 < j < 8,
        ray_cell(a, dir, j) == Some(k),
        ray_cell(a, dir, i0) == Some(src),
        glides(occupied, src, dst),
        axis.index_of(dst) == axis.index_of(src),
        bit(occupied, a),
        bit(occupied, k),
        dst != a,
        dst != k,
    ensures
        1 <= r < j,
        ray_cell(a, dir, r) == Some(dst),
{
    let (dir2, j2) = choose|dir2: Direction, j2: int|
        1 <= j2 < 8 && #[trigger] ray_cell(src, dir2, j2) == Some(dst) && blockers(
            in_mask(occupied),
            src,
            dir2,
            j2 - 1,
        ) == 0;
    lemma_on_line(axis, a, dir, i0);
    lemma_on_line(axis, a, dir, j);
    lemma_ray_step(a, dir, 0);
    if !runs_along(axis, dir2) {
        lemma_other_line(axis_of(dir2), axis, src, dir2, j2);
    }
    lemma_ray_from_cell(a, dir, i0, j2);
    let occ = in_mask(occupied);
    if dir2 == dir {
        if i0 + j2 > j {
            lemma_ray_from_cell(a, dir, i0, j - i0);
            lemma_blockers_none(occ, src, dir2, j2 - 1, j - i0);
        }
        i0 + j2
    } else {
        assert(dir2 == reverse(dir));
        if j2 > i0 {
            lemma_ray_from_cell(a, dir, i0, i0);
            lemma_blockers_none(occ, src, dir2, j2 - 1, i0);
        }
        i0 - j2
    }
}

/// A knight never goes to a cell on a line through the cell that it leaves.
pub proof fn lemma_knight_off_line(axis: Line, s: int, t: int)
    requires
        on_board(s),
        bit(crate::constants::knight_mask(s), t),
    ensures
        axis.index_of(t) != axis.index_of(s),
{
    crate::geometry::lemma_knight_jumps(s, t);
}

impl Position {
    /// The cells left to a pinned piece are cells of the line that it is pinned
    /// on.
    pub proof fn lemma_pinned(self, way: int, a: int, s: int, d: int)
        requires
            2 <= way < 6,
            on_board(a),
            bit(self.checkers(way), a),
            crate::movegen::slide_pins(
                way_axis(way),
                self.behind_king(),
                self.own().all(),
                self.king_cell(),
                a,
                s,
            ),
            bit(self.pin_mask(s), d),
        ensures
            bit(way_axis(way).mask(way_axis(way).index_of(s)), d),
    {
        let occ = self.behind_king();
        let own = self.own().all();
        let k = self.king_cell();
        let inner = crate::movegen::pins_over(
            self.orthogonal(),
            Line::Rank,
            Line::File,
            occ,
            own,
            k,
            s,
            64,
            u64::MAX,
        );
        lemma_pins_over(
            self.diagonal(),
            Line::MainDiag,
            Line::SecondDiag,
            occ,
            own,
            k,
            s,
            64,
            inner,
            d,
            a,
        );
        lemma_pins_over(
            self.orthogonal(),
            Line::Rank,
            Line::File,
            occ,
            own,
            k,
            s,
            64,
            u64::MAX,
            d,
            a,
        );
    }

    /// A move of a piece other than the king from the cell `src` to the cell
    /// `dst` leaves the king out of check when there is one check at most, the
    /// cell `dst` parries the checks and is left to the piece by the pins, and the
    /// piece goes there as a knight or along a line on which nothing stands in
    /// between.
    pub proof fn lemma_plain_move_safe(self, after: Board, src: int, dst: int)
        requires
            self.king_set_up(),
            self.checks() <= 1,
            on_board(src),
            on_board(dst),
            bit(self.own().all(), src),
            dst != self.king_cell(),
            bit(self.protect(), dst),
            bit(self.pin_mask(src), dst),
            bit(crate::constants::knight_mask(src), dst) || glides(self.board.all(), src, dst),
            shifted(self.board, after, self.turn, src, dst),
            after.of(self.turn).kings == self.own().kings,
        ensures
            !after.checked(self.turn),
    {
        let k = self.king_cell();
        let us = self.turn;
        let them = us.opposite();
        let occ = self.behind_king();
        lemma_checked(after, us, k);
        if after.checked(us) {
            let (kind, a) = choose|kind: Piece, a: int|
                on_board(a) && kind != Piece::King && bit(after.of(them).mask(kind), a)
                    && #[trigger] threatens(kind, them, after.all(), a, k);
            assert(bit(self.enemy().mask(kind), a) && a != dst);
            lemma_bit_or(self.enemy().rooks.0, self.enemy().queens.0);
            lemma_bit_or(self.enemy().bishops.0, self.enemy().queens.0);
            match kind {
                Piece::Pawn | Piece::Knight => {
                    let way: int = if kind == Piece::Pawn {
                        0
                    } else {
                        1
                    };
                    lemma_meets(piece_mask(kind, them, occ, a), k);
                    assert(self.gives_check(way, a));
                    self.lemma_parries(way, a, dst);
                    lemma_bit_single(a);
                },
                _ => {
                    let way: int = if (kind == Piece::Rook || kind == Piece::Queen) && slides(
                        after.all(),
                        Line::Rank,
                        a,
                        k,
                        0,
                    ) {
                        2
                    } else if (kind == Piece::Rook || kind == Piece::Queen) && slides(
                        after.all(),
                        Line::File,
                        a,
                        k,
                        0,
                    ) {
                        3
                    } else if slides(after.all(), Line::MainDiag, a, k, 0) {
                        4
                    } else {
                        5
                    };
                    let axis = way_axis(way);
                    assert(slides(after.all(), axis, a, k, 0));
                    assert(bit(self.checkers(way), a));
                    self.lemma_slider_blocked(after, src, dst, way, a);
                },
            }
        }
    }

    /// A move to a cell that parries the checks blocks the way of a slider that
    /// gives check, unless it takes the slider.
    pub proof fn lemma_parried(
        self,
        after: u64,
        dst: int,
        way: int,
        a: int,
        dir: Direction,
        j: int,
    )
        requires
            on_board(self.king_cell()),
            self.checks() <= 1,
            on_board(dst),
            on_board(a),
            dst != self.king_cell(),
            a != dst,
            bit(self.protect(), dst),
            bit(after, dst),
            2 <= way < 6,
            bit(self.checkers(way), a),
            runs_along(way_axis(way), dir),
            1 <= j < 8,
            ray_cell(a, dir, j) == Some(self.king_cell()),
            blockers(in_mask(self.behind_king()), a, dir, j - 1) == 0,
        ensures
            blockers(in_mask(after), a, dir, j - 1) != 0,
    {
        let k = self.king_cell();
        let occ = self.behind_king();
        let axis = way_axis(way);
        let cross = axis.crossing();
        lemma_crossing_along(axis, a, dir, j);
        assert(reaches(in_mask(occ), a, dir, k, 0));
        lemma_slide_masks(axis, occ, a, k, 0);
        lemma_meets(slide_masks(axis, occ, a).0, k);
        assert(self.gives_check(way, a));
        self.lemma_parries(way, a, dst);
        let attack = slide_masks(axis, occ, a).0;
        let between = crate::constants::between_mask(cross, cross.index_of(a), cross.index_of(k));
        lemma_bit_or(attack & between, single(a));
        lemma_bit_single(a);
        lemma_bit_and(attack, between);
        assert(bit(attack, dst) && bit(between, dst));
        lemma_slide_masks(axis, occ, a, dst, 0);
        let dir3 = if reaches(in_mask(occ), a, axis.up(), dst, 0) {
            axis.up()
        } else {
            axis.down()
        };
        let j3 = choose|j3: int|
            1 <= j3 < 8 && #[trigger] ray_cell(a, dir3, j3) == Some(dst) && blockers(
                in_mask(occ),
                a,
                dir3,
                j3 - 1,
            ) == 0;
        lemma_crossing_along(axis, a, dir3, j3);
        if cross.index_of(a) <= cross.index_of(k) {
            crate::geometry::lemma_span(cross, cross.index_of(a), cross.index_of(k), dst);
        } else {
            crate::geometry::lemma_span(cross, cross.index_of(k), cross.index_of(a), dst);
        }
        Self::lemma_same_way(axis, dir, dir3, j, j3, cross.index_of(a), cross.index_of(k),
            cross.index_of(dst));
        if blockers(in_mask(after), a, dir, j - 1) == 0 {
            lemma_blockers_none(in_mask(after), a, dir, j - 1, j3);
        }
    }

    /// Two rays from one cell along the lines of one family, the second to a cell
    /// whose crossing line lies between those of the first cell and of the end of
    /// the first ray, go the same way, and the second ends before the first or
    /// with it.
    pub proof fn lemma_same_way(
        axis: Line,
        dir: Direction,
        dir3: Direction,
        j: int,
        j3: int,
        ca: int,
        ck: int,
        cd: int,
    )
        requires
            runs_along(axis, dir),
            runs_along(axis, dir3),
            1 <= j,
            1 <= j3,
            ck - ca == (match dir {
                Direction::Right | Direction::Up => j,
                Direction::Left | Direction::Down => -j,
                Direction::UpLeft | Direction::DownLeft => -2 * j,
                Direction::DownRight | Direction::UpRight => 2 * j,
            }),
            cd - ca == (match dir3 {
                Direction::Right | Direction::Up => j3,
                Direction::Left | Direction::Down => -j3,
                Direction::UpLeft | Direction::DownLeft => -2 * j3,
                Direction::DownRight | Direction::UpRight => 2 * j3,
            }),
            (ca <= cd <= ck) || (ck <= cd <= ca),
        ensures
            dir3 == dir,
            j3 <= j,
    {
    }

    /// A piece that stands alone between a slider and the king and goes to a
    /// cell that the pin leaves to it still stands in the slider's way.
    pub proof fn lemma_pin_holds(
        self,
        after: u64,
        src: int,
        dst: int,
        way: int,
        a: int,
        dir: Direction,
        j: int,
        i0: int,
    )
        requires
            on_board(self.king_cell()),
            on_board(src),
            on_board(dst),
            on_board(a),
            bit(self.own().all(), src),
            bit(self.board.all(), a),
            bit(self.board.all(), self.king_cell()),
            dst != self.king_cell(),
            a != dst,
            bit(self.pin_mask(src), dst),
            bit(crate::constants::knight_mask(src), dst) || glides(self.board.all(), src, dst),
            bit(after, dst),
            2 <= way < 6,
            bit(self.checkers(way), a),
            runs_along(way_axis(way), dir),
            1 <= i0 < j < 8,
            ray_cell(a, dir, j) == Some(self.king_cell()),
            ray_cell(a, dir, i0) == Some(src),
            blockers(in_mask(self.behind_king()), a, dir, j - 1) == 1,
            blockers(in_mask(self.behind_king()), a, dir, i0 - 1) == 0,
        ensures
            blockers(in_mask(after), a, dir, j - 1) != 0,
    {
        let k = self.king_cell();
        let occ = self.behind_king();
        let axis = way_axis(way);
        lemma_crossing_along(axis, a, dir, j);
        lemma_crossing_along(axis, a, dir, i0);
        assert(reaches(in_mask(occ), a, dir, k, 1));
        assert(reaches(in_mask(occ), a, dir, src, 0));
        lemma_slide_masks(axis, occ, a, k, 1);
        lemma_slide_masks(axis, occ, a, src, 0);
        lemma_meets(slide_masks(axis, occ, a).1, k);
        lemma_bit_and(self.own().all(), slide_masks(axis, occ, a).0);
        assert(crate::movegen::slide_pins(axis, occ, self.own().all(), k, a, src));
        self.lemma_pinned(way, a, src, dst);
        lemma_on_line(axis, a, dir, i0);
        crate::geometry::lemma_line_mask(axis, axis.index_of(src), dst);
        if bit(crate::constants::knight_mask(src), dst) {
            lemma_knight_off_line(axis, src, dst);
        } else {
            let r = lemma_line_move(self.board.all(), axis, a, dir, j, i0, k, src, dst);
            if blockers(in_mask(after), a, dir, j - 1) == 0 {
                lemma_blockers_none(in_mask(after), a, dir, j - 1, r);
            }
        }
    }

    /// The same for one slider: after such a move the slider on cell `a` does not
    /// reach the king along its line of the family of the given way.
    pub proof fn lemma_slider_blocked(self, after: Board, src: int, dst: int, way: int, a: int)
        requires
            self.king_set_up(),
            self.checks() <= 1,
            on_board(src),
            on_board(dst),
            on_board(a),
            bit(self.own().all(), src),
            dst != self.king_cell(),
            a != dst,
            bit(self.protect(), dst),
            bit(self.pin_mask(src), dst),
            bit(crate::constants::knight_mask(src), dst) || glides(self.board.all(), src, dst),
            shifted(self.board, after, self.turn, src, dst),
            2 <= way < 6,
            bit(self.checkers(way), a),
        ensures
            !slides(after.all(), way_axis(way), a, self.king_cell(), 0),
    {
        let k = self.king_cell();
        let occ = self.behind_king();
        let axis = way_axis(way);
        if !slides(after.all(), axis, a, k, 0) {
            return ;
        }
        assert forall|c: int| c != src && bit(occ, c) implies bit(after.all(), c) by {
            self.lemma_behind_king(c);
        }
        self.lemma_behind_king(src);
        lemma_all_bits(self.own(), src);
        lemma_board_bits(self.board, src);
        let (dir, j, i0) = lemma_threat_before(occ, after.all(), axis, a, k, src);
        if i0 == 0 {
            self.lemma_parried(after.all(), dst, way, a, dir, j);
        } else {
            lemma_bit_or(self.enemy().rooks.0, self.enemy().queens.0);
            lemma_bit_or(self.enemy().bishops.0, self.enemy().queens.0);
            lemma_all_bits(self.enemy(), a);
            lemma_all_bits(self.own(), k);
            lemma_bit_single(k);
            lemma_board_bits(self.board, a);
            lemma_board_bits(self.board, k);
            self.lemma_pin_holds(after.all(), src, dst, way, a, dir, j, i0);
        }
    }
}


/// A cell that a slider reaches with nothing in between is one that a piece
/// can glide to.
pub proof fn lemma_slides_glides(occupied: u64, axis: Line, s: int, d: int)
    requires
        slides(occupied, axis, s, d, 0),
    ensures
        glides(occupied, s, d),
{
    let dir = if reaches(in_mask(occupied), s, axis.up(), d, 0) {
        axis.up()
    } else {
        axis.down()
    };
    let j = choose|j: int|
        1 <= j < 8 && #[trigger] ray_cell(s, dir, j) == Some(d) && blockers(
            in_mask(occupied),
            s,
            dir,
            j - 1,
        ) == 0;
    assert(ray_cell(s, dir, j) == Some(d));
}

/// A cell one step away is one that a piece can glide to.
pub proof fn lemma_step_glides(occupied: u64, s: int, dir: Direction, d: int)
    requires
        on_board(s),
        dir.step_from(s) == Some(d),
    ensures
        glides(occupied, s, d),
{
    lemma_ray_step(s, dir, 0);
    assert(ray_cell(s, dir, 1) == Some(d));
    assert(blockers(in_mask(occupied), s, dir, 0) == 0);
}

impl Position {
    /// The king's cell is occupied by the side to move.
    pub proof fn lemma_king_occupies(self)
        requires
            self.king_set_up(),
        ensures
            bit(self.own().all(), self.king_cell()),
            bit(self.board.all(), self.king_cell()),
    {
        let k = self.king_cell();
        lemma_bit_single(k);
        lemma_all_bits(self.own(), k);
        lemma_board_bits(self.board, k);
    }

    /// A move of a knight, bishop, rook or queen to a cell that it may go to
    /// leaves the king out of check.
    pub proof fn lemma_piece_move_safe(self, piece: Piece, s: int, d: int)
        requires
            self.king_set_up(),
            self.checks() <= 1,
            piece == Piece::Knight || piece == Piece::Bishop || piece == Piece::Rook || piece
                == Piece::Queen,
            on_board(s),
            on_board(d),
            bit(self.own().mask(piece), s),
            bit(self.targets(piece, s), d),
        ensures
            !self.after(Move::Normal(Square::of(s), Square::of(d), piece)).board.checked(self.turn),
    {
        let us = self.turn;
        let occ = self.board.all();
        Square::lemma_of(s);
        Square::lemma_of(d);
        let reach = piece_mask(piece, us, occ, s);
        lemma_bit_and(reach, self.protect());
        lemma_bit_and(reach & self.protect(), !self.own().all());
        lemma_bit_and(reach & self.protect() & !self.own().all(), self.pin_mask(s));
        lemma_bit_not(self.own().all());
        self.lemma_king_occupies();
        lemma_all_bits(self.own(), s);
        lemma_piece_mask_bits(piece, us, occ, s, d);
        if piece != Piece::Knight {
            if slides(occ, Line::MainDiag, s, d, 0) {
                lemma_slides_glides(occ, Line::MainDiag, s, d);
            } else if slides(occ, Line::SecondDiag, s, d, 0) {
                lemma_slides_glides(occ, Line::SecondDiag, s, d);
            } else if slides(occ, Line::Rank, s, d, 0) {
                lemma_slides_glides(occ, Line::Rank, s, d);
            } else {
                lemma_slides_glides(occ, Line::File, s, d);
            }
        }
        let after = self.after(Move::Normal(Square::of(s), Square::of(d), piece)).board;
        assert(after == board_after(self.board, us, piece, piece, s, d));
        lemma_board_after(self.board, us, piece, piece, s, d);
        self.lemma_plain_move_safe(after, s, d);
    }

    /// Whether the move is what a pawn does that goes from cell `s` to cell `d`
    /// without capturing in passing: it stays a pawn, or it becomes a queen, a
    /// rook, a bishop or a knight.
    pub open spec fn pawn_goes(m: Move, s: int, d: int) -> bool {
        ||| m == Move::Normal(Square::of(s), Square::of(d), Piece::Pawn)
        ||| m == Move::Promotion(Square::of(s), Square::of(d), Piece::Queen)
        ||| m == Move::Promotion(Square::of(s), Square::of(d), Piece::Rook)
        ||| m == Move::Promotion(Square::of(s), Square::of(d), Piece::Bishop)
        ||| m == Move::Promotion(Square::of(s), Square::of(d), Piece::Knight)
    }

    /// A move of a pawn, other than a capture in passing, leaves the king out of
    /// check when the pawn glides to a cell that parries the checks and that the
    /// pins leave to it.
    pub proof fn lemma_pawn_move_safe(self, m: Move, s: int, d: int)
        requires
            self.king_set_up(),
            self.checks() <= 1,
            on_board(s),
            on_board(d),
            Self::pawn_goes(m, s, d),
            bit(self.own().pawns.0, s),
            d != self.king_cell(),
            bit(self.protect(), d),
            bit(self.pin_mask(s), d),
            glides(self.board.all(), s, d),
        ensures
            !self.after(m).board.checked(self.turn),
    {
        let us = self.turn;
        Square::lemma_of(s);
        Square::lemma_of(d);
        lemma_all_bits(self.own(), s);
        let to = match m {
            Move::Promotion(_, _, to) => to,
            _ => Piece::Pawn,
        };
        let after = self.after(m).board;
        assert(after == board_after(self.board, us, Piece::Pawn, to, s, d));
        lemma_board_after(self.board, us, Piece::Pawn, to, s, d);
        self.lemma_plain_move_safe(after, s, d);
    }

    /// The cell behind a cell on which a pawn of the side to move can arrive by a
    /// single step holds such a pawn, and the cell itself is empty.
    pub proof fn lemma_single_pushes(self, d: int)
        requires
            bit(self.single_pushes(), d),
        ensures
            on_board(d),
            !bit(self.board.all(), d),
            self.backward().step_from(d) is Some,
            bit(self.own().pawns.0, self.backward().step_from(d)->0),
            on_board(self.backward().step_from(d)->0),
            Direction::pawn_spec(self.turn).step_from(self.backward().step_from(d)->0) == Some(d),
    {
        let pawns = self.own().pawns.0;
        let occ = self.board.all();
        lemma_bit_not(occ);
        crate::bitboard::lemma_bit_shift(pawns, d);
        match self.turn {
            Color::White => {
                lemma_bit_and(pawns << 8, !occ);
            },
            Color::Black => {
                lemma_bit_and(pawns >> 8, !occ);
            },
        }
    }

    /// A single step of a pawn to a cell on which it can arrive leaves the king
    /// out of check, if it is a legal move.
    pub proof fn lemma_single_push_safe(self, m: Move, d: int)
        requires
            self.king_set_up(),
            self.checks() <= 1,
            bit(self.single_pushes(), d),
            self.single_push_to(d).contains(m),
        ensures
            !self.after(m).board.checked(self.turn),
    {
        self.lemma_single_pushes(d);
        let s = self.backward().step_from(d)->0;
        let q = self.single_push_to(d);
        let i = choose|i: int| 0 <= i < q.len() && q[i] == m;
        assert(q[i] == m);
        lemma_bit_and(self.protect(), !self.board.all());
        lemma_bit_and(self.protect() & !self.board.all(), self.pin_mask(s));
        self.lemma_king_occupies();
        lemma_step_glides(self.board.all(), s, Direction::pawn_spec(self.turn), d);
        self.lemma_pawn_move_safe(m, s, d);
    }

    /// A double step of a pawn to a cell on which it can arrive leaves the king
    /// out of check, if it is a legal move.
    pub proof fn lemma_double_push_safe(self, m: Move, d: int)
        requires
            self.king_set_up(),
            self.checks() <= 1,
            bit(self.double_pushes(), d),
            self.double_push_to(d).contains(m),
        ensures
            !self.after(m).board.checked(self.turn),
    {
        let single = self.single_pushes();
        crate::bitboard::lemma_bit_shift(single, d);
        match self.turn {
            Color::White => {
                lemma_bit_and(single << 8, Line::Rank.mask(3));
            },
            Color::Black => {
                lemma_bit_and(single >> 8, Line::Rank.mask(4));
            },
        }
        let q = self.double_push_to(d);
        let i = choose|i: int| 0 <= i < q.len() && q[i] == m;
        assert(q[i] == m);
        let mid = self.backward().step_from(d)->0;
        self.lemma_single_pushes(mid);
        let s = self.backward().step_from(mid)->0;
        lemma_bit_and(self.protect(), !self.board.all());
        lemma_bit_and(self.protect() & !self.board.all(), self.pin_mask(s));
        lemma_bit_not(self.board.all());
        self.lemma_king_occupies();
        let forward = Direction::pawn_spec(self.turn);
        let occ = in_mask(self.board.all());
        lemma_ray_step(s, forward, 1);
        assert(ray_cell(s, forward, 1) == Some(mid));
        assert(ray_cell(s, forward, 2) == Some(d));
        assert(blockers(occ, s, forward, 0) == 0);
        assert(blockers(occ, s, forward, 1) == 0);
        assert(glides(self.board.all(), s, d));
        self.lemma_pawn_move_safe(m, s, d);
    }

    /// A capture of a pawn, other than one in passing, leaves the king out of
    /// check, if it is a legal move.
    pub proof fn lemma_capture_safe(self, m: Move, s: int, d: int)
        requires
            self.king_set_up(),
            self.checks() <= 1,
            on_board(s),
            0 <= d < 64,
            bit(self.own().pawns.0, s),
            bit(self.capture_targets(s), d),
            self.capture_to(s, d).contains(m),
            self.en_passant != Some(Square::of(d)),
        ensures
            !self.after(m).board.checked(self.turn),
    {
        let q = self.capture_to(s, d);
        let i = choose|i: int| 0 <= i < q.len() && q[i] == m;
        assert(q[i] == m);
        let us = self.turn;
        let occ = self.board.all();
        let reach = piece_mask(Piece::Pawn, us, occ, s);
        let inner = self.protect() & self.enemy().all() & self.pin_mask(s);
        lemma_bit_and(reach, inner | self.en_passant_mask());
        lemma_bit_or(inner, self.en_passant_mask());
        lemma_bit_and(self.protect() & self.enemy().all(), self.pin_mask(s));
        lemma_bit_and(self.protect(), self.enemy().all());
        lemma_bit_zero(0);
        match self.en_passant {
            Some(sq) => {
                sq.lemma_idx();
                lemma_bit_single(sq.idx());
            },
            None => {},
        }
        assert(!bit(self.en_passant_mask(), d));
        lemma_all_bits(self.enemy(), d);
        lemma_all_bits(self.enemy(), self.king_cell());
        crate::geometry::lemma_pawn_takes(us, s, d);
        let df = crate::bitboard::file_of(d) - crate::bitboard::file_of(s);
        let dir = match us {
            Color::White => if df == 1 {
                Direction::UpRight
            } else {
                Direction::UpLeft
            },
            Color::Black => if df == 1 {
                Direction::DownRight
            } else {
                Direction::DownLeft
            },
        };
        assert(dir.step_from(s) == Some(d));
        lemma_step_glides(occ, s, dir, d);
        self.lemma_pawn_move_safe(m, s, d);
    }
}


/// A cell at the edge of a rank does not lie between a cell of that rank and a
/// cell from which a ray comes to it.
pub proof fn lemma_edge_not_between(a: int, dir: Direction, i: int, j: int, x: int, t: int)
    requires
        on_board(a),
        on_board(x),
        on_board(t),
        crate::bitboard::rank_of(x) == crate::bitboard::rank_of(t),
        (crate::bitboard::file_of(x) == 7 && crate::bitboard::file_of(t) < 7) || (
        crate::bitboard::file_of(x) == 0 && crate::bitboard::file_of(t) > 0),
        1 <= i < j,
        ray_cell(a, dir, j) == Some(t),
    ensures
        ray_cell(a, dir, i) != Some(x),
{
    reveal(ray_cell);
    let f = crate::geometry::along(crate::bitboard::file_of(a), dir.df(), i);
    let r = crate::geometry::along(crate::bitboard::rank_of(a), dir.dr(), i);
    let f2 = crate::geometry::along(crate::bitboard::file_of(a), dir.df(), j);
    let r2 = crate::geometry::along(crate::bitboard::rank_of(a), dir.dr(), j);
    if 0 <= f < 8 && 0 <= r < 8 {
        crate::geometry::lemma_cell(f, r);
    }
    crate::geometry::lemma_cell(f2, r2);
}

/// A slider that reaches a cell on a board reaches it on every board whose
/// occupied cells are occupied on the first as well, aside from the cell itself
/// and a cell at the edge of its rank.
pub proof fn lemma_slides_past(more: u64, fewer: u64, axis: Line, a: int, t: int, x: int)
    requires
        on_board(a),
        on_board(x),
        on_board(t),
        crate::bitboard::rank_of(x) == crate::bitboard::rank_of(t),
        (crate::bitboard::file_of(x) == 7 && crate::bitboard::file_of(t) < 7) || (
        crate::bitboard::file_of(x) == 0 && crate::bitboard::file_of(t) > 0),
        slides(more, axis, a, t, 0),
        forall|c: int| c != t && c != x && bit(fewer, c) ==> bit(more, c),
    ensures
        slides(fewer, axis, a, t, 0),
{
    let dir = if reaches(in_mask(more), a, axis.up(), t, 0) {
        axis.up()
    } else {
        axis.down()
    };
    let j = choose|j: int|
        1 <= j < 8 && #[trigger] ray_cell(a, dir, j) == Some(t) && blockers(
            in_mask(more),
            a,
            dir,
            j - 1,
        ) == 0;
    assert forall|i: int| 1 <= i <= j - 1 && ray_cell(a, dir, i) is Some implies !in_mask(fewer)(
        #[trigger] ray_cell(a, dir, i)->0,
    ) by {
        lemma_blockers_none(in_mask(more), a, dir, j - 1, i);
        lemma_ray_distinct(a, dir, i, j);
        lemma_edge_not_between(a, dir, i, j, x, t);
    }
    lemma_blockers_clear(in_mask(fewer), a, dir, j - 1);
    assert(reaches(in_mask(fewer), a, dir, t, 0));
}

/// Two masks that do not meet hold no cell in common.
pub proof fn lemma_apart(x: u64, y: u64, t: int)
    requires
        x & y == 0,
        bit(x, t),
    ensures
        !bit(y, t),
{
    lemma_bit_and(x, y);
    lemma_bit_zero(x & y);
    if bit(y, t) {
        assert(bit(x & y, t));
    }
}

/// The cell on which the king lands when it castles must not be attacked, and
/// it must be empty, as must the cell on which the rook lands. The cell on
/// which the king stands must not be attacked either.
pub proof fn lemma_castle_cells(color: Color)
    ensures
        bit(crate::constants::safe_king_castle(color), crate::position::king_home(color).idx()),
        bit(crate::constants::safe_queen_castle(color), crate::position::king_home(color).idx()),
        bit(crate::constants::safe_king_castle(color), crate::position::king_home(color).idx() + 2),
        bit(crate::constants::free_king_castle(color), crate::position::king_home(color).idx() + 2),
        bit(crate::constants::free_king_castle(color), crate::position::king_home(color).idx() + 1),
        bit(
            crate::constants::safe_queen_castle(color),
            crate::position::king_home(color).idx() - 2,
        ),
        bit(
            crate::constants::free_queen_castle(color),
            crate::position::king_home(color).idx() - 2,
        ),
        bit(
            crate::constants::free_queen_castle(color),
            crate::position::king_home(color).idx() - 1,
        ),
{
    reveal(Square::idx);
    assert((0x70u64 >> 4u64) & 1 == 1 && (0x1Cu64 >> 4u64) & 1 == 1 && (0x7000_0000_0000_0000u64
        >> 60u64) & 1 == 1 && (0x1C00_0000_0000_0000u64 >> 60u64) & 1 == 1) by (bit_vector);
    assert((0x70u64 >> 6u64) & 1 == 1 && (0x60u64 >> 6u64) & 1 == 1 && (0x60u64 >> 5u64) & 1 == 1
        && (0x1Cu64 >> 2u64) & 1 == 1 && (0x0Eu64 >> 2u64) & 1 == 1 && (0x0Eu64 >> 3u64) & 1 == 1)
        by (bit_vector);
    assert((0x7000_0000_0000_0000u64 >> 62u64) & 1 == 1 && (0x6000_0000_0000_0000u64 >> 62u64) & 1
        == 1 && (0x6000_0000_0000_0000u64 >> 61u64) & 1 == 1 && (0x1C00_0000_0000_0000u64 >> 58u64)
        & 1 == 1 && (0x0E00_0000_0000_0000u64 >> 58u64) & 1 == 1 && (0x0E00_0000_0000_0000u64
        >> 59u64) & 1 == 1) by (bit_vector);
}

impl Position {
    /// After the king has gone from its home cell `k` to the cell `kt` and the
    /// rook from the corner `rh` to the cell `rt`, both empty before, the king is
    /// not in check if the cell `kt` was not attacked.
    pub proof fn lemma_castled_safe(self, after: Board, k: int, kt: int, rh: int, rt: int)
        requires
            self.king_set_up(),
            k == self.king_cell(),
            on_board(kt),
            on_board(rh),
            on_board(rt),
            crate::bitboard::rank_of(rh) == crate::bitboard::rank_of(kt),
            (crate::bitboard::file_of(rh) == 7 && crate::bitboard::file_of(kt) < 7) || (
            crate::bitboard::file_of(rh) == 0 && crate::bitboard::file_of(kt) > 0),
            !bit(self.attacked(), kt),
            after == self.board.with(
                self.turn,
                self.own().lifted(Piece::King, k).dropped(Piece::King, kt).lifted(
                    Piece::Rook,
                    rh,
                ).dropped(Piece::Rook, rt),
            ),
        ensures
            !after.checked(self.turn),
    {
        let us = self.turn;
        let them = us.opposite();
        let occ = self.behind_king();
        let q1 = self.own().lifted(Piece::King, k).dropped(Piece::King, kt);
        let q2 = q1.lifted(Piece::Rook, rh).dropped(Piece::Rook, rt);
        crate::bitboard::lemma_single_moved(k, kt);
        assert(after.of(us).kings.0 == single(kt));
        lemma_checked(after, us, kt);
        if after.checked(us) {
            let (kind, a) = choose|kind: Piece, a: int|
                on_board(a) && kind != Piece::King && bit(after.of(them).mask(kind), a)
                    && #[trigger] threatens(kind, them, after.all(), a, kt);
            assert(after.of(them) == self.enemy());
            assert forall|c: int| c != kt && c != rh && bit(occ, c) implies bit(after.all(), c) by {
                self.lemma_behind_king(c);
                lemma_board_bits(self.board, c);
                lemma_board_bits(after, c);
                lemma_moved_bits(self.own(), Piece::King, Piece::King, k, kt, c);
                lemma_moved_bits(q1, Piece::Rook, Piece::Rook, rh, rt, c);
                lemma_moved_bits(q1, Piece::Rook, Piece::Rook, rh, rt, rt);
            }
            match kind {
                Piece::Pawn | Piece::Knight => {},
                _ => {
                    if slides(after.all(), Line::MainDiag, a, kt, 0) {
                        lemma_slides_past(after.all(), occ, Line::MainDiag, a, kt, rh);
                    }
                    if slides(after.all(), Line::SecondDiag, a, kt, 0) {
                        lemma_slides_past(after.all(), occ, Line::SecondDiag, a, kt, rh);
                    }
                    if slides(after.all(), Line::Rank, a, kt, 0) {
                        lemma_slides_past(after.all(), occ, Line::Rank, a, kt, rh);
                    }
                    if slides(after.all(), Line::File, a, kt, 0) {
                        lemma_slides_past(after.all(), occ, Line::File, a, kt, rh);
                    }
                },
            }
            assert(threatens(kind, them, occ, a, kt));
            self.lemma_attacked(kind, a, kt);
        }
    }

    /// A castling move that is allowed leaves the king out of check.
    pub proof fn lemma_castle_safe(self, m: Move)
        requires
            self.king_set_up(),
            (m == Move::KingsideCastle && self.can_castle_kingside()) || (m
                == Move::QueensideCastle && self.can_castle_queenside()),
        ensures
            !self.after(m).board.checked(self.turn),
    {
        reveal(Square::idx);
        let us = self.turn;
        let k = self.king_cell();
        lemma_castle_cells(us);
        let after = self.after(m).board;
        if m == Move::KingsideCastle {
            lemma_apart(crate::constants::safe_king_castle(us), self.attacked(), k + 2);
            match us {
                Color::White => {
                    assert(after == self.board.with(
                        us,
                        self.own().lifted(Piece::King, 4).dropped(Piece::King, 6).lifted(
                            Piece::Rook,
                            7,
                        ).dropped(Piece::Rook, 5),
                    ));
                    self.lemma_castled_safe(after, 4, 6, 7, 5);
                },
                Color::Black => {
                    assert(after == self.board.with(
                        us,
                        self.own().lifted(Piece::King, 60).dropped(Piece::King, 62).lifted(
                            Piece::Rook,
                            63,
                        ).dropped(Piece::Rook, 61),
                    ));
                    self.lemma_castled_safe(after, 60, 62, 63, 61);
                },
            }
        } else {
            lemma_apart(crate::constants::safe_queen_castle(us), self.attacked(), k - 2);
            match us {
                Color::White => {
                    assert(after == self.board.with(
                        us,
                        self.own().lifted(Piece::King, 4).dropped(Piece::King, 2).lifted(
                            Piece::Rook,
                            0,
                        ).dropped(Piece::Rook, 3),
                    ));
                    self.lemma_castled_safe(after, 4, 2, 0, 3);
                },
                Color::Black => {
                    assert(after == self.board.with(
                        us,
                        self.own().lifted(Piece::King, 60).dropped(Piece::King, 58).lifted(
                            Piece::Rook,
                            56,
                        ).dropped(Piece::Rook, 59),
                    ));
                    self.lemma_castled_safe(after, 60, 58, 56, 59);
                },
            }
        }
    }

    /// No legal move leaves the king of the side that makes it in check: in a
    /// position whose king is set up as the rules have it, the king of the side
    /// to move is not attacked after any of its legal moves.
    pub proof fn lemma_legal_move_safe(self, m: Move)
        requires
            self.king_set_up(),
            self.legal_move_seq().contains(m),
        ensures
            !self.after(m).board.checked(self.turn),
    {
        self.lemma_legal_parts(m);
        let k = self.king_cell();
        if self.king_moves().contains(m) {
            lemma_moves_to_contains(Square::of(k), Piece::King, self.king_targets(), m);
            let d = choose|d: int|
                0 <= d < 64 && bit(self.king_targets(), d) && m == Move::Normal(
                    Square::of(k),
                    #[trigger] Square::of(d),
                    Piece::King,
                );
            Square::lemma_of(d);
            self.lemma_king_move_safe(Square::of(d));
        } else if self.piece_moves(Piece::Knight).contains(m) {
            self.lemma_piece_safe(Piece::Knight, m);
        } else if self.piece_moves(Piece::Bishop).contains(m) {
            self.lemma_piece_safe(Piece::Bishop, m);
        } else if self.piece_moves(Piece::Rook).contains(m) {
            self.lemma_piece_safe(Piece::Rook, m);
        } else if self.piece_moves(Piece::Queen).contains(m) {
            self.lemma_piece_safe(Piece::Queen, m);
        } else if self.single_push_moves().contains(m) {
            let f = self.single_push_fn();
            crate::laws::lemma_moves_over_contains(self.single_pushes(), f, 64, m);
            let d = choose|d: int|
                0 <= d < 64 && bit(self.single_pushes(), d) && (#[trigger] f(d)).contains(m);
            self.lemma_single_push_safe(m, d);
        } else if self.double_push_moves().contains(m) {
            let f = self.double_push_fn();
            crate::laws::lemma_moves_over_contains(self.double_pushes(), f, 64, m);
            let d = choose|d: int|
                0 <= d < 64 && bit(self.double_pushes(), d) && (#[trigger] f(d)).contains(m);
            self.lemma_double_push_safe(m, d);
        } else if self.capture_moves().contains(m) {
            let f = self.captures_fn();
            crate::laws::lemma_moves_over_contains(self.own().pawns.0, f, 64, m);
            let s = choose|s: int|
                0 <= s < 64 && bit(self.own().pawns.0, s) && (#[trigger] f(s)).contains(m);
            let g = self.capture_to_fn(s);
            crate::laws::lemma_moves_over_contains(self.capture_targets(s), g, 64, m);
            let d = choose|d: int|
                0 <= d < 64 && bit(self.capture_targets(s), d) && (#[trigger] g(d)).contains(m);
            if self.en_passant == Some(Square::of(d)) {
                let q = self.capture_to(s, d);
                let i = choose|i: int| 0 <= i < q.len() && q[i] == m;
                assert(q[i] == m);
                self.lemma_en_passant_safe(Square::of(s), Square::of(d));
            } else {
                self.lemma_capture_safe(m, s, d);
            }
        } else {
            let first: Seq<Move> = if self.can_castle_kingside() {
                seq![Move::KingsideCastle]
            } else {
                Seq::empty()
            };
            let second: Seq<Move> = if self.can_castle_queenside() {
                seq![Move::QueensideCastle]
            } else {
                Seq::empty()
            };
            crate::laws::lemma_concat_contains(first, second, m);
            if first.contains(m) {
                let i = choose|i: int| 0 <= i < first.len() && first[i] == m;
                assert(first[i] == m);
            }
            if second.contains(m) {
                let i = choose|i: int| 0 <= i < second.len() && second[i] == m;
                assert(second[i] == m);
            }
            self.lemma_castle_safe(m);
        }
    }

    /// A legal move of a knight, bishop, rook or queen leaves the king out of
    /// check.
    pub proof fn lemma_piece_safe(self, piece: Piece, m: Move)
        requires
            self.king_set_up(),
            self.checks() <= 1,
            piece == Piece::Knight || piece == Piece::Bishop || piece == Piece::Rook || piece
                == Piece::Queen,
            self.piece_moves(piece).contains(m),
        ensures
            !self.after(m).board.checked(self.turn),
    {
        self.lemma_piece_moves_contains(piece, m);
        let (s, d) = choose|s: int, d: int|
            0 <= s < 64 && 0 <= d < 64 && bit(self.own().mask(piece), s) && bit(
                self.targets(piece, s),
                d,
            ) && m == Move::Normal(#[trigger] Square::of(s), #[trigger] Square::of(d), piece);
        self.lemma_piece_move_safe(piece, s, d);
    }
}

} // verus!
