//! Small value types shared by the whole crate: sides, pieces per side,
//! castling rights and moves.
use vstd::prelude::*;
use crate::bitboard::Square;
use crate::pieces::Piece;

verus! {

/// One of the two sides.
#[derive(Copy, Clone, Debug, Hash, PartialEq, Eq, Structural)]
pub enum Color {
    White,
    Black,
}

impl Color {
    /// The opposing side.
    pub open spec fn opposite(self) -> Color {
        match self {
            Color::White => Color::Black,
            Color::Black => Color::White,
        }
    }

    /// The opposing side.
    pub fn other(self) -> (c: Color)
        ensures
            c == self.opposite(),
    {
        match self {
            Color::White => Color::Black,
            Color::Black => Color::White,
        }
    }
}

/// A pair of values, the first for White and the second for Black.
#[derive(Debug, Copy, Clone, Hash, PartialEq, Eq)]
pub struct Colored<T>(pub T, pub T);

impl<T> Colored<T> {
    /// The value of the given side.
    pub open spec fn of(self, color: Color) -> T {
        match color {
            Color::White => self.0,
            Color::Black => self.1,
        }
    }

    /// The pair with the value of the given side replaced.
    pub open spec fn with(self, color: Color, value: T) -> Colored<T> {
        match color {
            Color::White => Colored(value, self.1),
            Color::Black => Colored(self.0, value),
        }
    }

    /// The value of the given side.
    pub fn get(&self, color: Color) -> (r: &T)
        ensures
            *r == self.of(color),
    {
        match color {
            Color::White => &self.0,
            Color::Black => &self.1,
        }
    }

    /// Replaces the value of the given side.
    pub fn put(&mut self, color: Color, value: T)
        ensures
            *final(self) == old(self).with(color, value),
    {
        match color {
            Color::White => {
                self.0 = value;
            },
            Color::Black => {
                self.1 = value;
            },
        }
    }
}

/// Which of the two castling moves a side may still make.
#[derive(Copy, Clone, Debug, Hash, PartialEq, Eq, Structural)]
pub struct CastlingRights {
    pub kingside: bool,
    pub queenside: bool,
}

impl CastlingRights {
    pub fn new(kingside: bool, queenside: bool) -> (r: CastlingRights)
        ensures
            r.kingside == kingside,
            r.queenside == queenside,
    {
        CastlingRights { kingside, queenside }
    }
}

/// A move. It names no position: it has a meaning only in the position that it
/// was generated for.
#[derive(Copy, Clone, Debug, PartialEq, Eq, Structural)]
pub enum Move {
    /// A piece goes from the first cell to the second, capturing what stands there.
    Normal(Square, Square, Piece),
    /// A pawn goes from the first cell to the second and captures the pawn that
    /// has just passed the second.
    EnPassant(Square, Square),
    /// A pawn goes from the first cell to the second and becomes the given piece.
    Promotion(Square, Square, Piece),
    KingsideCastle,
    QueensideCastle,
}

impl Move {
    /// Whether the move can be written as text: a promotion must be to a queen, a
    /// rook, a bishop or a knight.
    pub open spec fn has_text(self) -> bool {
        match self {
            Move::Promotion(_, _, to) => to == Piece::Queen || to == Piece::Rook || to
                == Piece::Bishop || to == Piece::Knight,
            _ => true,
        }
    }

    /// Whether the move can be written as text.
    pub fn is_writable(self) -> (r: bool)
        ensures
            r == self.has_text(),
    {
        match self {
            Move::Promotion(_, _, to) => match to {
                Piece::Queen | Piece::Rook | Piece::Bishop | Piece::Knight => true,
                _ => false,
            },
            _ => true,
        }
    }

    /// The move as text.
    pub open spec fn text(self) -> Seq<char> {
        match self {
            Move::Normal(src, dst, _) => src.name() + dst.name(),
            Move::EnPassant(src, dst) => src.name() + dst.name(),
            Move::Promotion(src, dst, to) => src.name() + dst.name() + seq![to.promotion_letter()],
            Move::KingsideCastle => seq!['O', '-', 'O'],
            Move::QueensideCastle => seq!['O', '-', 'O', '-', 'O'],
        }
    }

    /// The move as text: the two cells, and for a promotion the lower-case letter
    /// of the new piece; `O-O` and `O-O-O` for the castling moves.
    pub fn to_text(self) -> (s: String)
        requires
            self.has_text(),
        ensures
            s@ == self.text(),
    {
        proof {
            reveal_strlit("");
        }
        match self {
            Move::Normal(src, dst, _) => {
                let s = join(src, dst, "");
                assert(s@ =~= self.text());
                s
            },
            Move::EnPassant(src, dst) => {
                let s = join(src, dst, "");
                assert(s@ =~= self.text());
                s
            },
            Move::Promotion(src, dst, to) => {
                proof {
                    reveal_strlit("q");
                    reveal_strlit("r");
                    reveal_strlit("b");
                    reveal_strlit("n");
                }
                let s = match to {
                    Piece::Queen => join(src, dst, "q"),
                    Piece::Rook => join(src, dst, "r"),
                    Piece::Bishop => join(src, dst, "b"),
                    _ => join(src, dst, "n"),
                };
                assert(s@ =~= self.text());
                s
            },
            Move::KingsideCastle => {
                proof {
                    reveal_strlit("O-O");
                }
                let s = String::from_str("O-O");
                assert(s@ =~= self.text());
                s
            },
            Move::QueensideCastle => {
                proof {
                    reveal_strlit("O-O-O");
                }
                let s = String::from_str("O-O-O");
                assert(s@ =~= self.text());
                s
            },
        }
    }
}

/// The names of two cells and a suffix, one after the other.
fn join(src: Square, dst: Square, suffix: &str) -> (s: String)
    ensures
        s@ == src.name() + dst.name() + suffix@,
{
    let mut s = String::from_str(src.to_text());
    s.append(dst.to_text());
    s.append(suffix);
    s
}

} // verus!
