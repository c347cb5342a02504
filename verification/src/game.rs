//! The positions of a game: those in which the side that has just moved has
//! not left its king in check. Legal moves lead from one such position to
//! another.
use vstd::prelude::*;
use crate::bitboard::{bit, on_board};
use crate::geometry::{
    blockers, in_mask, lemma_blockers_none, lemma_ray_distinct, lemma_ray_step, ray_cell, reaches,
    slides,
};
use crate::pieces::Piece;
use crate::position::Position;
use crate::repr::{Color, Move};
use crate::safety::{lemma_all_bits, lemma_board_bits, lemma_checked, threatens};

verus! {

impl Position {
    /// Whether the position is one that a game can lead to: it is well formed,
    /// and the side that has just moved has not left its king in check.
    pub open spec fn sound(self) -> bool {
        &&& self.wf()
        &&& !self.board.checked(self.turn.opposite())
    }

    /// Legal moves lead from one position of a game to another.
    pub proof fn lemma_legal_moves_keep_sound(self, m: Move)
        requires
            self.sound(),
            self.legal_move_seq().contains(m),
        ensures
            self.after(m).sound(),
    {
        self.lemma_legal_moves_keep_wf(m);
        self.lemma_legal_moves_keep_king_safe(m);
    }
}

/// In the position from which a game starts, the pieces of White stand on the
/// first two ranks, and a pawn of Black stands on every cell of the seventh.
proof fn lemma_initial_cells(a: int)
    requires
        on_board(a),
    ensures
        bit(0xFF00u64, a) || bit(0x42u64, a) || bit(0x24u64, a) || bit(0x81u64, a) || bit(
            0x08u64,
            a,
        ) ==> a < 16,
        48 <= a < 56 ==> bit(0x00FF_0000_0000_0000u64, a),
{
    let au = a as u64;
    assert(((0xFF00u64 >> au) & 1 == 1 || (0x42u64 >> au) & 1 == 1 || (0x24u64 >> au) & 1 == 1 || (
    0x81u64 >> au) & 1 == 1 || (0x08u64 >> au) & 1 == 1 ==> au < 16) && (48 <= au && au < 56 ==> (
    0x00FF_0000_0000_0000u64 >> au) & 1 == 1)) by (bit_vector)
        requires
            au < 64,
    ;
}

/// The position from which a game starts is a position of a game.
pub proof fn lemma_initial_sound()
    ensures
        crate::fen::initial_position().sound(),
{
    reveal(ray_cell);
    let p = crate::fen::initial_position();
    let b = p.board;
    crate::validity::lemma_initial_wf();
    let kings: u64 = 0x1000_0000_0000_0000;
    assert(kings == 1u64 << 60u64) by (bit_vector)
        requires
            kings == 0x1000_0000_0000_0000u64,
    ;
    lemma_checked(b, Color::Black, 60);
    if b.checked(Color::Black) {
        let (kind, a) = choose|kind: Piece, a: int|
            on_board(a) && kind != Piece::King && bit(b.of(Color::White).mask(kind), a)
                && #[trigger] threatens(kind, Color::White, b.all(), a, 60);
        lemma_initial_cells(a);
        assert(a < 16);
        crate::geometry::lemma_knight_jumps(a, 60);
        crate::geometry::lemma_pawn_takes(Color::White, a, 60);
        if kind == Piece::Bishop || kind == Piece::Rook || kind == Piece::Queen {
            let axis = if slides(b.all(), crate::constants::Line::MainDiag, a, 60, 0) {
                crate::constants::Line::MainDiag
            } else if slides(b.all(), crate::constants::Line::SecondDiag, a, 60, 0) {
                crate::constants::Line::SecondDiag
            } else if slides(b.all(), crate::constants::Line::Rank, a, 60, 0) {
                crate::constants::Line::Rank
            } else {
                crate::constants::Line::File
            };
            let dir = if reaches(in_mask(b.all()), a, axis.up(), 60, 0) {
                axis.up()
            } else {
                axis.down()
            };
            let j = choose|j: int|
                1 <= j < 8 && #[trigger] ray_cell(a, dir, j) == Some(60int) && blockers(
                    in_mask(b.all()),
                    a,
                    dir,
                    j - 1,
                ) == 0;
            lemma_ray_distinct(a, dir, j - 1, j);
            let c = ray_cell(a, dir, j - 1)->0;
            lemma_ray_step(a, dir, j - 1);
            assert(48 <= c < 56);
            lemma_initial_cells(c);
            lemma_all_bits(b.1, c);
            lemma_board_bits(b, c);
            lemma_blockers_none(in_mask(b.all()), a, dir, j - 1, j - 1);
        }
    }
}

impl Position {
    /// Whether the position is one that a game can lead to.
    pub fn is_sound(&self, tables: &crate::constants::Tables) -> (r: bool)
        ensures
            r == self.sound(),
    {
        self.is_valid() && !self.board.in_check(tables, self.turn.other())
    }
}

} // verus!
