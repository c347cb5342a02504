//! Chess rules and search, verified.
//!
//! The executable part: cells and 64-bit masks (`bitboard`), the pieces of a
//! side (`pieces`), sides, castling rights and moves (`repr`), the masks of
//! lines and the attack tables (`constants`), positions and what a move does
//! to them (`position`), legal move generation (`movegen`), reading positions
//! and cells from text (`fen`), printing (`display`), the static score
//! (`evaluation`), the search (`search`), and the decisions behind the protocol
//! that drives the engine (`uci`). The attack tables are built once by
//! `Tables::new` and handed to whatever looks something up in them.
//!
//! The proved part: what the tables hold, cell by cell (`geometry`); which
//! moves are among the legal ones (`laws`); that no legal move leaves the king
//! in check (`safety`); that legal moves keep a position well formed
//! (`validity`); that the legal moves are exactly the moves that the rules of
//! the game allow (`rules`); that legal moves lead from positions of a game to
//! positions of a game (`game`); and that the search between bounds finds the
//! value of the plain search (`minimax`).
use vstd::prelude::*;
use std::sync::Arc;
use crate::bitboard::{file_of, Square};
use crate::constants::Tables;
use crate::fen::{fen_fault, fen_position, initial_position, square_named};
use crate::pieces::Piece;
use crate::position::Position;
use crate::repr::Move;

pub mod bitboard;
pub mod constants;
pub mod display;
pub mod evaluation;
pub mod fen;
pub mod game;
pub mod geometry;
pub mod laws;
pub mod minimax;
pub mod movegen;
pub mod pieces;
pub mod position;
pub mod repr;
pub mod rules;
pub mod safety;
pub mod search;
pub mod uci;
pub mod unique;
pub mod validity;

verus! {

/// Why a text could not be read.
#[derive(Debug)]
pub enum ChessError {
    /// The text names no cell.
    ParseSquare(String),
    /// The text describes no position; the message names the part at fault.
    InvalidFEN(String),
    /// The text names no move.
    ParseMove(String),
}

/// The three kinds of `ChessError`.
#[derive(Copy, Clone, Debug, PartialEq, Eq, Structural)]
pub enum Fault {
    Square,
    Fen,
    Move,
}

impl ChessError {
    /// The kind of the error.
    pub open spec fn fault(self) -> Fault {
        match self {
            ChessError::ParseSquare(_) => Fault::Square,
            ChessError::InvalidFEN(_) => Fault::Fen,
            ChessError::ParseMove(_) => Fault::Move,
        }
    }

    /// The text that the error carries: the text that could not be read, or for
    /// a position the message.
    pub open spec fn detail(self) -> Seq<char> {
        match self {
            ChessError::ParseSquare(s) => s@,
            ChessError::InvalidFEN(s) => s@,
            ChessError::ParseMove(s) => s@,
        }
    }

    /// Whether the error is of the given kind and carries the given text.
    pub open spec fn is(self, fault: Fault, detail: Seq<char>) -> bool {
        self.fault() == fault && self.detail() == detail
    }

    /// What the error says.
    pub open spec fn text(self) -> Seq<char> {
        match self {
            ChessError::ParseSquare(s) => s@ + " is not a valid square"@,
            ChessError::InvalidFEN(s) => s@,
            ChessError::ParseMove(s) => s@ + " is not a valid move"@,
        }
    }

    /// What the error says.
    pub fn message(&self) -> (m: String)
        ensures
            m@ == self.text(),
    {
        match self {
            ChessError::ParseSquare(s) => {
                let mut m = s.clone();
                m.append(" is not a valid square");
                m
            },
            ChessError::InvalidFEN(s) => s.clone(),
            ChessError::ParseMove(s) => {
                let mut m = s.clone();
                m.append(" is not a valid move");
                m
            },
        }
    }
}


/// A position together with the one that it came from, and so on back to the
/// start of the game. A board is never changed: a move makes a new one.
#[derive(Debug, Hash, PartialEq, Eq)]
pub struct Chessboard {
    pub position: Position,
    pub previous: Option<Arc<Chessboard>>,
}

/// Another handle to a shared board. This is `Arc::clone` of the standard
/// library: the new handle points to the same board as the old one.
#[verifier::external_body]
fn share(link: &Arc<Chessboard>) -> (r: Arc<Chessboard>)
    ensures
        r == *link,
{
    Arc::clone(link)
}

/// The piece that a promotion letter names: `q`, `n`, `b` or `r`, small or
/// capital.
pub open spec fn promotion_named(c: char) -> Option<Piece> {
    if c == 'q' || c == 'Q' {
        Some(Piece::Queen)
    } else if c == 'n' || c == 'N' {
        Some(Piece::Knight)
    } else if c == 'b' || c == 'B' {
        Some(Piece::Bishop)
    } else if c == 'r' || c == 'R' {
        Some(Piece::Rook)
    } else {
        None
    }
}

impl Clone for Chessboard {
    fn clone(&self) -> (r: Chessboard)
        ensures
            r == *self,
    {
        Chessboard {
            position: self.position,
            previous: match &self.previous {
                Some(link) => Some(share(link)),
                None => None,
            },
        }
    }
}

impl Chessboard {
    /// A board with the given position and no history.
    pub fn new(position: Position) -> (b: Chessboard)
        ensures
            b.position == position,
            b.previous is None,
    {
        Chessboard { position, previous: None }
    }

    /// A board with the position that the text describes, and no history.
    pub fn from_fen(fen: &str) -> (r: Result<Chessboard, ChessError>)
        ensures
            match fen_fault(fen@) {
                None => r is Ok && r->Ok_0.position == fen_position(fen@) && r->Ok_0.previous
                    is None,
                Some((fault, detail)) => r is Err && r->Err_0.is(fault, detail),
            },
            r is Ok ==> r->Ok_0.position.board.tidy(),
    {
        match Position::from_fen(fen) {
            Ok(position) => Ok(Chessboard { position, previous: None }),
            Err(e) => Err(e),
        }
    }

    /// A board with the position from which a game starts, and no history.
    pub fn starting() -> (b: Chessboard)
        ensures
            b.position == initial_position(),
            b.position.sound(),
            b.previous is None,
    {
        Chessboard { position: Position::starting(), previous: None }
    }

    /// The legal moves of the side to move, each once: in a well-formed position,
    /// the moves that the pieces can make and that leave the king of the side to
    /// move out of check, and no others.
    pub fn legal_moves(&self, tables: &Tables) -> (moves: Vec<Move>)
        ensures
            moves@ == self.position.legal_move_seq(),
            moves@.no_duplicates(),
            self.position.wf() ==> forall|m: Move|
                #![trigger moves@.contains(m)]
                #![trigger self.position.by_the_rules(m)]
                moves@.contains(m) <==> self.position.by_the_rules(m),
    {
        self.position.legal_moves(tables)
    }

    /// The board after the move, with this board as the one that it came from.
    pub fn make_move(&self, legal_move: Move) -> (next: Chessboard)
        ensures
            next.position == self.position.after(legal_move),
            next.previous is Some,
            *next.previous->0 == *self,
            self.position.sound() && self.position.legal_move_seq().contains(legal_move)
                ==> next.position.sound(),
    {
        Chessboard {
            position: self.position.make_move(legal_move),
            previous: Some(Arc::new(self.clone())),
        }
    }

    /// The kind of the piece on cell `s`: White's if White has one there, else
    /// Black's.
    pub open spec fn piece_on(self, s: int) -> Option<Piece> {
        match self.position.board.0.piece_on(s) {
            Some(piece) => Some(piece),
            None => self.position.board.1.piece_on(s),
        }
    }

    /// The kind of the piece on the cell, if there is one.
    pub fn piece_at(&self, square: Square) -> (r: Option<Piece>)
        ensures
            r == self.piece_on(square.idx()),
    {
        match self.position.board.0.at(square) {
            Some(piece) => Some(piece),
            None => self.position.board.1.at(square),
        }
    }

    /// The move that a text of four or five characters names on this board, or
    /// the kind of error and the text that it carries. The first two characters
    /// name the cell that the piece leaves and the next two the cell that it goes
    /// to; a fifth names the piece that a pawn becomes. Of a text with four
    /// characters the board decides the kind of move: a pawn that goes to the
    /// en-passant cell captures in passing, a king that goes two files to the
    /// side castles, and any other piece just moves.
    pub open spec fn move_named(self, s: Seq<char>) -> Result<Move, (Fault, Seq<char>)> {
        if s.len() != 4 && s.len() != 5 {
            Err((Fault::Move, s))
        } else {
            match (square_named(s.subrange(0, 2)), square_named(s.subrange(2, 4))) {
                (None, _) => Err((Fault::Square, s.subrange(0, 2))),
                (Some(_), None) => Err((Fault::Square, s.subrange(2, 4))),
                (Some(src), Some(dst)) => {
                    if s.len() == 5 {
                        match promotion_named(s[4]) {
                            Some(to) => Ok(Move::Promotion(src, dst, to)),
                            None => Err((Fault::Move, s)),
                        }
                    } else {
                        match self.piece_on(src.idx()) {
                            None => Err((Fault::Move, s)),
                            Some(piece) => {
                                if piece == Piece::Pawn && self.position.en_passant == Some(dst) {
                                    Ok(Move::EnPassant(src, dst))
                                } else if piece == Piece::King && file_of(src.idx()) - file_of(
                                    dst.idx(),
                                ) == 2 {
                                    Ok(Move::QueensideCastle)
                                } else if piece == Piece::King && file_of(src.idx()) - file_of(
                                    dst.idx(),
                                ) == -2 {
                                    Ok(Move::KingsideCastle)
                                } else {
                                    Ok(Move::Normal(src, dst, piece))
                                }
                            },
                        }
                    }
                },
            }
        }
    }

    /// Reads a move from its text.
    pub fn parse_move(&self, mov: &str) -> (r: Result<Move, ChessError>)
        ensures
            match self.move_named(mov@) {
                Ok(m) => r == Ok::<Move, ChessError>(m),
                Err((fault, detail)) => r is Err && r->Err_0.is(fault, detail),
            },
    {
        let n: usize = mov.unicode_len();
        if n != 4 && n != 5 {
            return Err(ChessError::ParseMove(String::from_str(mov)));
        }
        let src = match Square::parse(mov.substring_char(0, 2)) {
            Ok(sq) => sq,
            Err(e) => {
                return Err(e);
            },
        };
        let dst = match Square::parse(mov.substring_char(2, 4)) {
            Ok(sq) => sq,
            Err(e) => {
                return Err(e);
            },
        };
        if n == 5 {
            let c: char = mov.get_char(4);
            let to = if c == 'q' || c == 'Q' {
                Piece::Queen
            } else if c == 'n' || c == 'N' {
                Piece::Knight
            } else if c == 'b' || c == 'B' {
                Piece::Bishop
            } else if c == 'r' || c == 'R' {
                Piece::Rook
            } else {
                return Err(ChessError::ParseMove(String::from_str(mov)));
            };
            return Ok(Move::Promotion(src, dst, to));
        }
        let piece = match self.piece_at(src) {
            None => {
                return Err(ChessError::ParseMove(String::from_str(mov)));
            },
            Some(piece) => piece,
        };
        match self.position.en_passant {
            Some(sq) => {
                proof {
                    sq.lemma_idx();
                    dst.lemma_idx();
                }
                if dst.index() == sq.index() && piece == Piece::Pawn {
                    return Ok(Move::EnPassant(src, dst));
                }
            },
            None => {},
        }
        if piece == Piece::King {
            let sf: u8 = src.file();
            let df: u8 = dst.file();
            if sf == df + 2 {
                return Ok(Move::QueensideCastle);
            }
            if df == sf + 2 {
                return Ok(Move::KingsideCastle);
            }
        }
        Ok(Move::Normal(src, dst, piece))
    }
}

} // verus!
