//! The six kinds of pieces and the cells that one side's pieces stand on.
use vstd::prelude::*;
use crate::bitboard::{
    bit, lemma_bit_moved, lemma_clear_absent, lemma_there_and_back, on_board, single, Bitboard,
    Square,
};
use crate::repr::Color;

verus! {

/// A kind of piece.
#[derive(Clone, Copy, Debug, PartialEq, Eq, Structural)]
pub enum Piece {
    Pawn,
    Knight,
    Bishop,
    Rook,
    Queen,
    King,
}

impl Piece {
    /// The lower-case letter that stands for the piece after a promotion.
    pub open spec fn promotion_letter(self) -> char {
        match self {
            Piece::Pawn => 'p',
            Piece::Knight => 'n',
            Piece::Bishop => 'b',
            Piece::Rook => 'r',
            Piece::Queen => 'q',
            Piece::King => 'k',
        }
    }

    /// The letter of the piece on a printed board.
    pub fn to_ascii(self) -> (c: char)
        ensures
            c == match self {
                Piece::Pawn => 'p',
                Piece::Knight => 'N',
                Piece::Bishop => 'B',
                Piece::Rook => 'R',
                Piece::Queen => 'Q',
                Piece::King => 'K',
            },
    {
        match self {
            Piece::Pawn => 'p',
            Piece::Knight => 'N',
            Piece::Bishop => 'B',
            Piece::Rook => 'R',
            Piece::Queen => 'Q',
            Piece::King => 'K',
        }
    }

    /// The chess symbol of the piece in the given colour.
    pub fn to_unicode(self, color: Color) -> (c: char)
        ensures
            c == match color {
                Color::White => match self {
                    Piece::Pawn => '\u{2659}',
                    Piece::Knight => '\u{2658}',
                    Piece::Bishop => '\u{2657}',
                    Piece::Rook => '\u{2656}',
                    Piece::Queen => '\u{2655}',
                    Piece::King => '\u{2654}',
                },
                Color::Black => match self {
                    Piece::Pawn => '\u{265F}',
                    Piece::Knight => '\u{265E}',
                    Piece::Bishop => '\u{265D}',
                    Piece::Rook => '\u{265C}',
                    Piece::Queen => '\u{265B}',
                    Piece::King => '\u{265A}',
                },
            },
    {
        match color {
            Color::White => match self {
                Piece::Pawn => '\u{2659}',
                Piece::Knight => '\u{2658}',
                Piece::Bishop => '\u{2657}',
                Piece::Rook => '\u{2656}',
                Piece::Queen => '\u{2655}',
                Piece::King => '\u{2654}',
            },
            Color::Black => match self {
                Piece::Pawn => '\u{265F}',
                Piece::Knight => '\u{265E}',
                Piece::Bishop => '\u{265D}',
                Piece::Rook => '\u{265C}',
                Piece::Queen => '\u{265B}',
                Piece::King => '\u{265A}',
            },
        }
    }
}

/// The cells that one side's pieces stand on, one set per kind of piece.
#[derive(Debug, Copy, Clone, Hash, PartialEq, Eq, Structural)]
pub struct Pieces {
    pub pawns: Bitboard,
    pub knights: Bitboard,
    pub bishops: Bitboard,
    pub rooks: Bitboard,
    pub queens: Bitboard,
    pub kings: Bitboard,
}

impl Pieces {
    /// The mask of the cells that hold a piece of the given kind.
    pub open spec fn mask(self, piece: Piece) -> u64 {
        match piece {
            Piece::Pawn => self.pawns.0,
            Piece::Knight => self.knights.0,
            Piece::Bishop => self.bishops.0,
            Piece::Rook => self.rooks.0,
            Piece::Queen => self.queens.0,
            Piece::King => self.kings.0,
        }
    }

    /// The same pieces with the cells of one kind replaced.
    pub open spec fn with_mask(self, piece: Piece, m: u64) -> Pieces {
        match piece {
            Piece::Pawn => Pieces { pawns: Bitboard(m), ..self },
            Piece::Knight => Pieces { knights: Bitboard(m), ..self },
            Piece::Bishop => Pieces { bishops: Bitboard(m), ..self },
            Piece::Rook => Pieces { rooks: Bitboard(m), ..self },
            Piece::Queen => Pieces { queens: Bitboard(m), ..self },
            Piece::King => Pieces { kings: Bitboard(m), ..self },
        }
    }

    /// The same pieces without a piece of the given kind on cell number `s`.
    pub open spec fn lifted(self, piece: Piece, s: int) -> Pieces {
        self.with_mask(piece, self.mask(piece) & !single(s))
    }

    /// The same pieces with a piece of the given kind on cell number `s`.
    pub open spec fn dropped(self, piece: Piece, s: int) -> Pieces {
        self.with_mask(piece, self.mask(piece) | single(s))
    }

    /// The mask of all cells that hold a piece.
    pub open spec fn all(self) -> u64 {
        self.pawns.0 | self.bishops.0 | self.knights.0 | self.rooks.0 | self.queens.0
            | self.kings.0
    }

    /// The first kind, in the order pawn, knight, bishop, rook, queen, king, of
    /// which a piece stands on cell number `s`.
    pub open spec fn piece_on(self, s: int) -> Option<Piece> {
        if bit(self.pawns.0, s) {
            Some(Piece::Pawn)
        } else if bit(self.knights.0, s) {
            Some(Piece::Knight)
        } else if bit(self.bishops.0, s) {
            Some(Piece::Bishop)
        } else if bit(self.rooks.0, s) {
            Some(Piece::Rook)
        } else if bit(self.queens.0, s) {
            Some(Piece::Queen)
        } else if bit(self.kings.0, s) {
            Some(Piece::King)
        } else {
            None
        }
    }

    /// The same pieces without any that stands on cell number `s`.
    pub open spec fn without(self, s: int) -> Pieces {
        let keep = !single(s);
        Pieces {
            pawns: Bitboard(self.pawns.0 & keep),
            knights: Bitboard(self.knights.0 & keep),
            bishops: Bitboard(self.bishops.0 & keep),
            rooks: Bitboard(self.rooks.0 & keep),
            queens: Bitboard(self.queens.0 & keep),
            kings: Bitboard(self.kings.0 & keep),
        }
    }

    /// Whether no piece stands on cell number `s`.
    pub open spec fn vacant(self, s: int) -> bool {
        &&& !bit(self.pawns.0, s)
        &&& !bit(self.knights.0, s)
        &&& !bit(self.bishops.0, s)
        &&& !bit(self.rooks.0, s)
        &&& !bit(self.queens.0, s)
        &&& !bit(self.kings.0, s)
    }

    /// The same pieces after the piece of the given kind on cell `a` has gone to
    /// cell `b`.
    pub open spec fn moved(self, piece: Piece, a: int, b: int) -> Pieces {
        self.lifted(piece, a).dropped(piece, b)
    }

    /// Removing what stands on a vacant cell changes nothing.
    pub proof fn lemma_without_vacant(self, s: int)
        requires
            on_board(s),
            self.vacant(s),
        ensures
            self.without(s) == self,
    {
        lemma_clear_absent(self.pawns.0, s);
        lemma_clear_absent(self.knights.0, s);
        lemma_clear_absent(self.bishops.0, s);
        lemma_clear_absent(self.rooks.0, s);
        lemma_clear_absent(self.queens.0, s);
        lemma_clear_absent(self.kings.0, s);
    }

    /// A piece that goes to a vacant cell and back leaves the pieces as they were.
    pub proof fn lemma_moved_back(self, piece: Piece, a: int, b: int)
        requires
            on_board(a),
            on_board(b),
            bit(self.mask(piece), a),
            !bit(self.mask(piece), b),
        ensures
            self.moved(piece, a, b).moved(piece, b, a) == self,
    {
        lemma_there_and_back(self.mask(piece), a, b);
    }

    /// A cell that was vacant and is not the one that a piece goes to is vacant
    /// after the piece has moved.
    pub proof fn lemma_moved_vacant(self, piece: Piece, a: int, b: int, s: int)
        requires
            on_board(a),
            on_board(b),
            s != b,
            self.vacant(s),
        ensures
            self.moved(piece, a, b).vacant(s),
    {
        lemma_bit_moved(self.mask(piece), a, b);
    }

    /// No pieces at all.
    pub open spec fn none() -> Pieces {
        Pieces {
            pawns: Bitboard(0),
            knights: Bitboard(0),
            bishops: Bitboard(0),
            rooks: Bitboard(0),
            queens: Bitboard(0),
            kings: Bitboard(0),
        }
    }

    /// No pieces at all.
    pub fn empty() -> (p: Pieces)
        ensures
            p == Pieces::none(),
    {
        Pieces {
            pawns: Bitboard::empty(),
            knights: Bitboard::empty(),
            bishops: Bitboard::empty(),
            rooks: Bitboard::empty(),
            queens: Bitboard::empty(),
            kings: Bitboard::empty(),
        }
    }

    /// The cells that hold a piece of the given kind.
    pub fn get(&self, piece: Piece) -> (b: Bitboard)
        ensures
            b.0 == self.mask(piece),
    {
        match piece {
            Piece::Pawn => self.pawns,
            Piece::Knight => self.knights,
            Piece::Bishop => self.bishops,
            Piece::Rook => self.rooks,
            Piece::Queen => self.queens,
            Piece::King => self.kings,
        }
    }

    /// Replaces the cells that hold a piece of the given kind.
    pub fn put(&mut self, piece: Piece, b: Bitboard)
        ensures
            *final(self) == old(self).with_mask(piece, b.0),
    {
        match piece {
            Piece::Pawn => {
                self.pawns = b;
            },
            Piece::Knight => {
                self.knights = b;
            },
            Piece::Bishop => {
                self.bishops = b;
            },
            Piece::Rook => {
                self.rooks = b;
            },
            Piece::Queen => {
                self.queens = b;
            },
            Piece::King => {
                self.kings = b;
            },
        }
    }

    /// Takes a piece of the given kind from the cell.
    pub fn lift(&mut self, piece: Piece, square: Square)
        ensures
            *final(self) == old(self).lifted(piece, square.idx()),
    {
        let mut b = self.get(piece);
        b.unset(square);
        self.put(piece, b);
    }

    /// Puts a piece of the given kind on the cell.
    pub fn drop(&mut self, piece: Piece, square: Square)
        ensures
            *final(self) == old(self).dropped(piece, square.idx()),
    {
        let mut b = self.get(piece);
        b.set(square);
        self.put(piece, b);
    }

    /// The kind of piece that stands on the cell, if any; the first in the order
    /// pawn, knight, bishop, rook, queen, king where several do.
    pub fn at(&self, square: Square) -> (r: Option<Piece>)
        ensures
            r == self.piece_on(square.idx()),
    {
        if self.pawns.at(square) {
            Some(Piece::Pawn)
        } else if self.knights.at(square) {
            Some(Piece::Knight)
        } else if self.bishops.at(square) {
            Some(Piece::Bishop)
        } else if self.rooks.at(square) {
            Some(Piece::Rook)
        } else if self.queens.at(square) {
            Some(Piece::Queen)
        } else if self.kings.at(square) {
            Some(Piece::King)
        } else {
            None
        }
    }

    /// Removes whatever stands on the cell.
    pub fn unset(&mut self, square: Square)
        ensures
            *final(self) == old(self).without(square.idx()),
    {
        self.pawns.unset(square);
        self.knights.unset(square);
        self.bishops.unset(square);
        self.rooks.unset(square);
        self.queens.unset(square);
        self.kings.unset(square);
    }

    /// The cells that hold a piece.
    pub fn occupied(&self) -> (b: Bitboard)
        ensures
            b.0 == self.all(),
    {
        Bitboard(
            self.pawns.0 | self.bishops.0 | self.knights.0 | self.rooks.0 | self.queens.0
                | self.kings.0,
        )
    }

    /// The cells that hold no piece of this side.
    pub fn unoccupied(&self) -> (b: Bitboard)
        ensures
            b.0 == !self.all(),
    {
        Bitboard(!self.occupied().0)
    }
}

impl Piece {
    /// The letter of the piece on a printed board: a small `p` for a pawn, the
    /// capital initial for any other piece, `N` for a knight.
    pub open spec fn ascii(self) -> char {
        match self {
            Piece::Pawn => 'p',
            Piece::Knight => 'N',
            Piece::Bishop => 'B',
            Piece::Rook => 'R',
            Piece::Queen => 'Q',
            Piece::King => 'K',
        }
    }
}

} // verus!
