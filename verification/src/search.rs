//! Fixed-depth search: every side maximises its own score, which is the
//! negation of the other side's, between a lower and an upper bound.
use vstd::prelude::*;
use crate::constants::Tables;
use crate::evaluation::{
    evaluate, lemma_position_score_bounds, position_score, MAX_SCORE, MIN_SCORE, WIN_SCORE,
};
use crate::position::Position;
use crate::repr::{Color, Move};
use crate::Chessboard;

verus! {

/// The value of a position for the side to move, searched `depth` half-moves
/// deep between the bounds `alpha` and `beta`. With no half-move left it is the
/// static score. With no legal move it is the loss of the game for a side in
/// check and zero for a side that is not. Else the moves are tried one after
/// the other, and the value is the best that one of them leads to, or the lower
/// bound if none does better; the search of a position ends as soon as the
/// value has reached the upper bound.
pub open spec fn negamax_value(p: Position, alpha: int, beta: int, depth: nat) -> int
    decreases depth, 1nat, 0nat,
{
    if depth == 0 {
        position_score(p)
    } else {
        let moves = p.legal_move_seq();
        if moves.len() == 0 {
            if p.checked() {
                -(WIN_SCORE as int)
            } else {
                0
            }
        } else {
            search_from(
                p,
                moves,
                0,
                if alpha > MIN_SCORE {
                    alpha
                } else {
                    MIN_SCORE as int
                },
                beta,
                depth,
            )
        }
    }
}

/// The value found when the moves from number `i` on are still to be tried and
/// `alpha` is the best value found so far.
pub open spec fn search_from(
    p: Position,
    moves: Seq<Move>,
    i: nat,
    alpha: int,
    beta: int,
    depth: nat,
) -> int
    decreases depth, 0nat, moves.len() - i,
{
    if depth == 0 || i >= moves.len() {
        alpha
    } else {
        let score = -negamax_value(p.after(moves[i as int]), -beta, -alpha, (depth - 1) as nat);
        let better = if score > alpha {
            score
        } else {
            alpha
        };
        if better >= beta {
            better
        } else {
            search_from(p, moves, i + 1, better, beta, depth)
        }
    }
}

/// The score of a move at the root: the negated value of the position that it
/// leads to, searched one half-move less deep, where `alpha` is the score of
/// the best move found before.
pub open spec fn move_score(p: Position, m: Move, alpha: int, depth: nat) -> int {
    -negamax_value(p.after(m), -(MAX_SCORE as int), -alpha, (depth - 1) as nat)
}

/// The move chosen when the moves from number `i` on are still to be scored,
/// `best` is the best move found so far and `best_score` its score: a move
/// replaces the best one only with a higher score.
pub open spec fn pick_from(
    p: Position,
    moves: Seq<Move>,
    i: nat,
    best_score: int,
    best: Option<Move>,
    depth: nat,
) -> Option<Move>
    decreases moves.len() - i,
{
    if i >= moves.len() {
        best
    } else {
        let score = move_score(p, moves[i as int], best_score, depth);
        if best_score < score {
            pick_from(p, moves, i + 1, score, Some(moves[i as int]), depth)
        } else {
            pick_from(p, moves, i + 1, best_score, best, depth)
        }
    }
}

/// The move that the search chooses in a position.
pub open spec fn best_choice(p: Position, depth: nat) -> Option<Move> {
    pick_from(p, p.legal_move_seq(), 0, MIN_SCORE as int, None, depth)
}

/// The value of a search is never below its lower bound, nor below the lowest
/// score.
pub proof fn lemma_search_floor(
    p: Position,
    moves: Seq<Move>,
    i: nat,
    alpha: int,
    beta: int,
    depth: nat,
)
    ensures
        search_from(p, moves, i, alpha, beta, depth) >= alpha,
    decreases moves.len() - i,
{
    if depth != 0 && i < moves.len() {
        let score = -negamax_value(p.after(moves[i as int]), -beta, -alpha, (depth - 1) as nat);
        let better = if score > alpha {
            score
        } else {
            alpha
        };
        if better < beta {
            lemma_search_floor(p, moves, i + 1, better, beta, depth);
        }
    }
}

/// No value is below the lowest score.
pub proof fn lemma_negamax_floor(p: Position, alpha: int, beta: int, depth: nat)
    ensures
        negamax_value(p, alpha, beta, depth) >= MIN_SCORE,
{
    lemma_position_score_bounds(p);
    if depth > 0 && p.legal_move_seq().len() > 0 {
        lemma_search_floor(
            p,
            p.legal_move_seq(),
            0,
            if alpha > MIN_SCORE {
                alpha
            } else {
                MIN_SCORE as int
            },
            beta,
            depth,
        );
    }
}

/// Between bounds that leave room, a value lies strictly between the lowest and
/// the highest score.
pub proof fn lemma_negamax_inside(p: Position, alpha: int, beta: int, depth: nat)
    requires
        alpha < MAX_SCORE,
        beta > MIN_SCORE,
    ensures
        MIN_SCORE < negamax_value(p, alpha, beta, depth) < MAX_SCORE,
    decreases depth, 1nat, 0nat,
{
    lemma_position_score_bounds(p);
    if depth > 0 && p.legal_move_seq().len() > 0 {
        lemma_search_inside(
            p,
            p.legal_move_seq(),
            0,
            if alpha > MIN_SCORE {
                alpha
            } else {
                MIN_SCORE as int
            },
            beta,
            depth,
        );
    }
}

/// The same for a search that has begun: its value is below the highest score,
/// and above the lowest once a move has been tried.
pub proof fn lemma_search_inside(
    p: Position,
    moves: Seq<Move>,
    i: nat,
    alpha: int,
    beta: int,
    depth: nat,
)
    requires
        depth > 0,
        MIN_SCORE <= alpha < MAX_SCORE,
        beta > MIN_SCORE,
    ensures
        alpha <= search_from(p, moves, i, alpha, beta, depth) < MAX_SCORE,
        i < moves.len() || alpha > MIN_SCORE ==> search_from(p, moves, i, alpha, beta, depth)
            > MIN_SCORE,
    decreases depth, 0nat, moves.len() - i,
{
    if i < moves.len() {
        lemma_negamax_inside(p.after(moves[i as int]), -beta, -alpha, (depth - 1) as nat);
        let score = -negamax_value(p.after(moves[i as int]), -beta, -alpha, (depth - 1) as nat);
        let better = if score > alpha {
            score
        } else {
            alpha
        };
        if better < beta {
            lemma_search_inside(p, moves, i + 1, better, beta, depth);
        }
    }
}

/// Searches the board `depth` half-moves deep between the bounds `alpha` and
/// `beta`.
pub fn negamax(position: &Chessboard, tables: &Tables, alpha: i32, beta: i32, depth: u32) -> (value:
    i32)
    requires
        beta > i32::MIN,
    ensures
        value == negamax_value(position.position, alpha as int, beta as int, depth as nat),
        value >= MIN_SCORE,
        alpha < MAX_SCORE && beta > MIN_SCORE ==> crate::minimax::stands_for(
            value as int,
            crate::minimax::minimax(position.position, depth as nat),
            crate::minimax::floor(alpha as int),
            beta as int,
        ),
    decreases depth,
{
    proof {
        lemma_negamax_floor(position.position, alpha as int, beta as int, depth as nat);
        if alpha < MAX_SCORE && beta > MIN_SCORE {
            crate::minimax::lemma_negamax_exact(
                position.position,
                alpha as int,
                beta as int,
                depth as nat,
            );
        }
    }
    if depth == 0 {
        return evaluate(position, tables);
    }
    let legal_moves = position.legal_moves(tables);
    if legal_moves.len() == 0 {
        if position.position.in_check(tables) {
            return -WIN_SCORE;
        } else {
            return 0;
        }
    }
    let mut alpha: i32 = if alpha > MIN_SCORE {
        alpha
    } else {
        MIN_SCORE
    };
    let ghost first = alpha;
    let mut i: usize = 0;
    while i < legal_moves.len()
        invariant_except_break
            search_from(
                position.position,
                legal_moves@,
                0,
                first as int,
                beta as int,
                depth as nat,
            ) == search_from(
                position.position,
                legal_moves@,
                i as nat,
                alpha as int,
                beta as int,
                depth as nat,
            ),
        invariant
            i <= legal_moves.len(),
            depth > 0,
            beta > i32::MIN,
            alpha >= MIN_SCORE,
            legal_moves@ == position.position.legal_move_seq(),
        ensures
            alpha == search_from(
                position.position,
                legal_moves@,
                0,
                first as int,
                beta as int,
                depth as nat,
            ),
        decreases legal_moves.len() - i,
    {
        let child = position.make_move(legal_moves[i]);
        let value: i32 = negamax(&child, tables, -beta, -alpha, depth - 1);
        let score: i32 = -value;
        if score > alpha {
            alpha = score;
        }
        if alpha >= beta {
            break ;
        }
        i = i + 1;
    }
    alpha
}

/// The score of a move at the root.
pub fn score_move(chessboard: &Chessboard, tables: &Tables, mv: Move, alpha: i32, depth: u32) -> (score:
    i32)
    requires
        depth >= 1,
        alpha > i32::MIN,
    ensures
        score == move_score(chessboard.position, mv, alpha as int, depth as nat),
        score <= MAX_SCORE,
{
    let child = chessboard.make_move(mv);
    -negamax(&child, tables, -MAX_SCORE, -alpha, depth - 1)
}

/// The move that the search chooses on the board: the first of the moves with
/// the highest score, the moves being scored in the order in which they are
/// generated. No legal move has a higher score by plain search without bounds.
/// The board must offer a legal move, and the depth must be at least one.
pub fn best_move(chessboard: &Chessboard, tables: &Tables, depth: u32) -> (mv: Move)
    requires
        depth >= 1,
        chessboard.position.legal_move_seq().len() > 0,
    ensures
        Some(mv) == best_choice(chessboard.position, depth as nat),
        chessboard.position.legal_move_seq().contains(mv),
        forall|m: Move|
            chessboard.position.legal_move_seq().contains(m) ==> crate::minimax::plain_score(
                chessboard.position,
                m,
                depth as nat,
            ) <= crate::minimax::plain_score(chessboard.position, mv, depth as nat),
{
    proof {
        crate::minimax::lemma_best_choice(chessboard.position, depth as nat);
    }
    let legal_moves = chessboard.legal_moves(tables);
    let mut best_score: i32 = MIN_SCORE;
    let mut best: Move = legal_moves[0];
    let ghost mut found: Option<Move> = None;
    let ghost p = chessboard.position;
    let mut i: usize = 0;
    while i < legal_moves.len()
        invariant
            i <= legal_moves.len(),
            depth >= 1,
            p == chessboard.position,
            legal_moves@ == p.legal_move_seq(),
            legal_moves@.len() > 0,
            MIN_SCORE <= best_score < MAX_SCORE,
            i > 0 ==> found == Some(best) && best_score > MIN_SCORE,
            i == 0 ==> found is None && best_score == MIN_SCORE,
            legal_moves@.contains(best),
            best_choice(p, depth as nat) == pick_from(
                p,
                legal_moves@,
                i as nat,
                best_score as int,
                found,
                depth as nat,
            ),
        decreases legal_moves.len() - i,
    {
        let mv: Move = legal_moves[i];
        proof {
            lemma_negamax_inside(
                p.after(mv),
                -(MAX_SCORE as int),
                -(best_score as int),
                (depth - 1) as nat,
            );
        }
        let score: i32 = score_move(chessboard, tables, mv, best_score, depth);
        if best_score < score {
            best_score = score;
            best = mv;
            proof {
                found = Some(mv);
            }
        }
        i = i + 1;
    }
    best
}

impl Chessboard {
    /// How the game has ended, if it has: `Some(Some(c))` when the side `c` has
    /// won because the other side is in check and has no legal move,
    /// `Some(None)` when the side to move has no legal move without being in
    /// check, and `None` while there is a legal move.
    pub open spec fn result(self) -> Option<Option<Color>> {
        if self.position.legal_move_seq().len() > 0 {
            None
        } else if self.position.checked() {
            Some(Some(self.position.turn.opposite()))
        } else {
            Some(None)
        }
    }

    /// How the game has ended, if it has.
    pub fn game_result(&self, tables: &Tables) -> (r: Option<Option<Color>>)
        ensures
            r == self.result(),
    {
        let moves = self.legal_moves(tables);
        if moves.len() > 0 {
            None
        } else if self.position.in_check(tables) {
            Some(Some(self.position.turn.other()))
        } else {
            Some(None)
        }
    }
}

/// The score of a game that has ended, for the side to move: zero for a draw,
/// the highest score if that side has won and the lowest if it has lost; `None`
/// while the game goes on.
pub fn game_over(chessboard: &Chessboard, tables: &Tables) -> (score: Option<i32>)
    ensures
        score == match chessboard.result() {
            None => None,
            Some(None) => Some(0i32),
            Some(Some(winner)) => if winner == chessboard.position.turn {
                Some(MAX_SCORE)
            } else {
                Some(MIN_SCORE)
            },
        },
{
    match chessboard.game_result(tables) {
        None => None,
        Some(None) => Some(0),
        Some(Some(winner)) => {
            let turn = chessboard.position.turn;
            let same = match (winner, turn) {
                (Color::White, Color::White) => true,
                (Color::Black, Color::Black) => true,
                _ => false,
            };
            if same {
                Some(MAX_SCORE)
            } else {
                Some(MIN_SCORE)
            }
        },
    }
}

} // verus!
