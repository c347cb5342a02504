//! Static evaluation of a position, in hundredths of a pawn.
use vstd::prelude::*;
use crate::bitboard::{
    bit, count_bits, file_of, lemma_pending_start, lowest, pending, rank_of, Bitboard, Square,
};
use crate::constants::Tables;
use crate::pieces::Pieces;
use crate::position::{next_cell, Board, Position};
use crate::repr::Color;
use crate::Chessboard;

verus! {

/// A score below that of any position.
pub const MIN_SCORE: i32 = -1_000_000;

/// A score above that of any position.
pub const MAX_SCORE: i32 = 1_000_000;

/// The score of the side that has won.
pub const WIN_SCORE: i32 = 100_000;

/// No side's pieces are worth more than this.
pub const SCORE_LIMIT: i32 = 200_000;

/// What a pawn of the given colour gains by standing on cell `s`: one hundredth
/// for each rank that it has advanced beyond the first step, up to five.
pub open spec fn pawn_bonus(color: Color, s: int) -> int {
    let r = rank_of(s);
    match color {
        Color::White => if 2 <= r <= 6 {
            r - 1
        } else {
            0
        },
        Color::Black => if 1 <= r <= 5 {
            6 - r
        } else {
            0
        },
    }
}

/// What a knight loses by standing on cell `s`: thirty hundredths at the edge
/// files, fifty in a corner.
pub open spec fn knight_bonus(s: int) -> int {
    let f = file_of(s);
    let r = rank_of(s);
    if f == 0 || f == 7 {
        if r == 0 || r == 7 {
            -50
        } else {
            -30
        }
    } else {
        0
    }
}

/// What a king gains by standing on cell `s` while its side still has much
/// material: five hundredths on the first and the last rank, fifty on the
/// cells where it lands when it castles.
pub open spec fn king_bonus(s: int) -> int {
    let f = file_of(s);
    let r = rank_of(s);
    if r == 0 || r == 7 {
        if f == 2 || f == 6 {
            50
        } else {
            5
        }
    } else {
        0
    }
}

/// The sum of `f(s)` over the cells `s` below `n` that are in the mask `from`.
pub open spec fn sum_over(from: u64, f: spec_fn(int) -> int, n: int) -> int
    decreases n,
{
    if n <= 0 {
        0
    } else if bit(from, n - 1) {
        sum_over(from, f, n - 1) + f(n - 1)
    } else {
        sum_over(from, f, n - 1)
    }
}

/// Cells that are not in the mask add nothing to a sum.
pub proof fn lemma_sum_skip(from: u64, f: spec_fn(int) -> int, m: int, n: int)
    requires
        0 <= m <= n,
        forall|j: int| m <= j < n ==> !bit(from, j),
    ensures
        sum_over(from, f, n) == sum_over(from, f, m),
    decreases n - m,
{
    if m < n {
        lemma_sum_skip(from, f, m, n - 1);
    }
}

/// A sum of values between 0 and 400 over the cells below `n` is between 0 and
/// 400 times `n`.
pub proof fn lemma_sum_bound(from: u64, f: spec_fn(int) -> int, n: int)
    requires
        0 <= n,
        forall|j: int| 0 <= j < n ==> 0 <= #[trigger] f(j) <= 400,
    ensures
        0 <= sum_over(from, f, n) <= 400 * n,
    decreases n,
{
    if 0 < n {
        lemma_sum_bound(from, f, n - 1);
    }
}

/// The number of set bits among the lowest `n` is at most `n`.
pub proof fn lemma_count_bits_bound(b: u64, n: int)
    requires
        0 <= n,
    ensures
        count_bits(b, n) <= n,
    decreases n,
{
    if 0 < n {
        lemma_count_bits_bound(b, n - 1);
    }
}

/// The worth of a pawn of the given colour on each cell.
pub open spec fn pawn_worth_fn(color: Color) -> spec_fn(int) -> int {
    |s: int| 100 + pawn_bonus(color, s)
}

/// The worth of a knight on each cell.
pub open spec fn knight_worth_fn() -> spec_fn(int) -> int {
    |s: int| 300 + knight_bonus(s)
}

/// The worth of one side's pieces: a pawn 100, a knight or a bishop 300, a rook
/// 500 and a queen 900, and for pawns and knights what their cells add.
pub open spec fn material(pieces: Pieces, color: Color) -> int {
    sum_over(pieces.pawns.0, pawn_worth_fn(color), 64) + sum_over(
        pieces.knights.0,
        knight_worth_fn(),
        64,
    ) + 300 * count_bits(pieces.bishops.0, 64) + 500 * count_bits(pieces.rooks.0, 64) + 900
        * count_bits(pieces.queens.0, 64)
}

/// The score of one side: the worth of its pieces; what the king's cell adds
/// while that worth is above ten pawns; and three hundredths for every cell
/// that its pieces attack.
pub open spec fn color_score(board: Board, color: Color) -> int {
    let pieces = board.of(color);
    let m = material(pieces, color);
    let settled = if m > 1000 && pieces.kings.0 != 0 {
        m + king_bonus(lowest(pieces.kings.0))
    } else {
        m
    };
    settled + 3 * count_bits(board.attack_mask(color), 64)
}

/// The score of a position for the side to move: the score of that side minus
/// the score of the other.
pub open spec fn position_score(p: Position) -> int {
    color_score(p.board, p.turn) - color_score(p.board, p.turn.opposite())
}

/// The score of one side is never negative and stays below the limit.
pub proof fn lemma_color_score_bounds(board: Board, color: Color)
    ensures
        0 <= color_score(board, color) <= SCORE_LIMIT,
{
    let pieces = board.of(color);
    lemma_sum_bound(pieces.pawns.0, pawn_worth_fn(color), 64);
    lemma_sum_bound(pieces.knights.0, knight_worth_fn(), 64);
    lemma_count_bits_bound(pieces.bishops.0, 64);
    lemma_count_bits_bound(pieces.rooks.0, 64);
    lemma_count_bits_bound(pieces.queens.0, 64);
    lemma_count_bits_bound(board.attack_mask(color), 64);
}

/// The score of a position lies strictly between the lowest and the highest
/// score.
pub proof fn lemma_position_score_bounds(p: Position)
    ensures
        -SCORE_LIMIT <= position_score(p) <= SCORE_LIMIT,
{
    lemma_color_score_bounds(p.board, p.turn);
    lemma_color_score_bounds(p.board, p.turn.opposite());
}

/// The worth of the pawns or of the knights on the cells of `from`.
fn worth_of(from: Bitboard, color: Color, knights: bool) -> (score: i32)
    ensures
        score == sum_over(
            from.0,
            if knights {
                knight_worth_fn()
            } else {
                pawn_worth_fn(color)
            },
            64,
        ),
        0 <= score <= 25600,
{
    let ghost f = if knights {
        knight_worth_fn()
    } else {
        pawn_worth_fn(color)
    };
    let mut rest = from.squares();
    let mut score: i32 = 0;
    let ghost mut done: int = 0;
    proof {
        lemma_pending_start(from.0);
    }
    loop
        invariant
            0 <= done <= 64,
            f == (if knights {
                knight_worth_fn()
            } else {
                pawn_worth_fn(color)
            }),
            pending(from.0, rest.bitboard.0, done),
            score == sum_over(from.0, f, done),
            0 <= score <= 400 * done,
        ensures
            score == sum_over(from.0, f, 64),
            0 <= score <= 25600,
        decreases 64 - done,
    {
        match next_cell(&mut rest, Ghost(from.0), Ghost(done)) {
            None => {
                proof {
                    lemma_sum_skip(from.0, f, done, 64);
                }
                break ;
            },
            Some(sq) => {
                proof {
                    lemma_sum_skip(from.0, f, done, sq.idx());
                    done = sq.idx() + 1;
                }
                let r: u8 = sq.rank();
                let file: u8 = sq.file();
                let worth: i32 = if knights {
                    if file == 0 || file == 7 {
                        if r == 0 || r == 7 {
                            250
                        } else {
                            270
                        }
                    } else {
                        300
                    }
                } else {
                    match color {
                        Color::White => if 2 <= r && r <= 6 {
                            100 + (r as i32 - 1)
                        } else {
                            100
                        },
                        Color::Black => if 1 <= r && r <= 5 {
                            100 + (6 - r as i32)
                        } else {
                            100
                        },
                    }
                };
                score = score + worth;
            },
        }
    }
    score
}

/// What the king's cell adds.
fn king_worth(sq: Square) -> (bonus: i32)
    ensures
        bonus == king_bonus(sq.idx()),
{
    let r: u8 = sq.rank();
    let f: u8 = sq.file();
    if r == 0 || r == 7 {
        if f == 2 || f == 6 {
            50
        } else {
            5
        }
    } else {
        0
    }
}

/// The score of one side of the board.
pub fn evaluate_color(chessboard: &Chessboard, tables: &Tables, color: Color) -> (score: i32)
    ensures
        score == color_score(chessboard.position.board, color),
        0 <= score <= SCORE_LIMIT,
{
    let board: Board = chessboard.position.board;
    let pieces: Pieces = *board.get(color);
    let mut score: i32 = worth_of(pieces.pawns, color, false);
    score = score + worth_of(pieces.knights, color, true);
    score = score + 300 * (pieces.bishops.count() as i32);
    score = score + 500 * (pieces.rooks.count() as i32);
    score = score + 900 * (pieces.queens.count() as i32);
    if score > 1000 {
        match pieces.kings.squares().next() {
            Some(sq) => {
                score = score + king_worth(sq);
            },
            None => {},
        }
    }
    let attacked = board.attacks(tables, color);
    score + 3 * (attacked.count() as i32)
}

/// The score of the board for the side to move.
pub fn evaluate(chessboard: &Chessboard, tables: &Tables) -> (score: i32)
    ensures
        score == position_score(chessboard.position),
        -SCORE_LIMIT <= score <= SCORE_LIMIT,
{
    let player = chessboard.position.turn;
    let opponent = player.other();
    evaluate_color(chessboard, tables, player) - evaluate_color(chessboard, tables, opponent)
}

} // verus!
