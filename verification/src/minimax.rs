//! The value of a position by plain search, without bounds, and the proof that
//! the search between bounds finds it: pruning changes no result that matters.
use vstd::prelude::*;
use crate::evaluation::{lemma_position_score_bounds, position_score, MAX_SCORE, MIN_SCORE, WIN_SCORE};
use crate::position::Position;
use crate::repr::Move;
use crate::search::{
    best_choice, lemma_negamax_inside, move_score, negamax_value, pick_from, search_from,
};

verus! {

/// The value of a position for the side to move, searched `depth` half-moves
/// deep without bounds: the static score with no half-move left; the loss of
/// the game or zero with no legal move; else the best that a move leads to,
/// which is the negated value of the position after it.
pub open spec fn minimax(p: Position, depth: nat) -> int
    decreases depth, 1nat, 0nat,
{
    if depth == 0 {
        position_score(p)
    } else {
        let moves = p.legal_move_seq();
        if moves.len() == 0 {
            if p.checked() {
                -(WIN_SCORE as int)
            } else {
                0
            }
        } else {
            best_upto(p, moves, moves.len(), depth)
        }
    }
}

/// The score of a move by plain search: the negated value of the position that
/// it leads to, searched one half-move less deep.
pub open spec fn plain_score(p: Position, m: Move, depth: nat) -> int
    decreases depth, 0nat, 0nat,
{
    if depth == 0 {
        0
    } else {
        -minimax(p.after(m), (depth - 1) as nat)
    }
}

/// The best score by plain search among the first `n` of the moves; the lowest
/// score where there is none.
pub open spec fn best_upto(p: Position, moves: Seq<Move>, n: nat, depth: nat) -> int
    decreases depth, 0nat, n,
{
    if depth == 0 || n == 0 {
        MIN_SCORE as int
    } else {
        let before = best_upto(p, moves, (n - 1) as nat, depth);
        let score = -minimax(p.after(moves[n - 1]), (depth - 1) as nat);
        if score > before {
            score
        } else {
            before
        }
    }
}

/// The value by plain search lies strictly between the lowest and the highest
/// score.
pub proof fn lemma_minimax_inside(p: Position, depth: nat)
    ensures
        MIN_SCORE < minimax(p, depth) < MAX_SCORE,
    decreases depth, 1nat, 0nat,
{
    lemma_position_score_bounds(p);
    if depth > 0 && p.legal_move_seq().len() > 0 {
        lemma_best_upto_inside(p, p.legal_move_seq(), p.legal_move_seq().len(), depth);
    }
}

/// The best score among some moves lies below the highest score, and above the
/// lowest if there is a move.
pub proof fn lemma_best_upto_inside(p: Position, moves: Seq<Move>, n: nat, depth: nat)
    requires
        depth > 0,
        n <= moves.len(),
    ensures
        MIN_SCORE <= best_upto(p, moves, n, depth) < MAX_SCORE,
        n > 0 ==> MIN_SCORE < best_upto(p, moves, n, depth),
        forall|j: int|
            0 <= j < n ==> -minimax(p.after(#[trigger] moves[j]), (depth - 1) as nat) <= best_upto(
                p,
                moves,
                n,
                depth,
            ),
    decreases depth, 0nat, n,
{
    if n > 0 {
        lemma_best_upto_inside(p, moves, (n - 1) as nat, depth);
        lemma_minimax_inside(p.after(moves[n - 1]), (depth - 1) as nat);
    }
}

/// The lower bound with which a search starts.
pub open spec fn floor(alpha: int) -> int {
    if alpha > MIN_SCORE {
        alpha
    } else {
        MIN_SCORE as int
    }
}

/// Whether `r` stands for the value `v` between the bounds `alpha` and `beta`:
/// it is the value where that lies between the bounds, it is at most the lower
/// bound where the value is, and at least the upper bound where the value is.
pub open spec fn stands_for(r: int, v: int, alpha: int, beta: int) -> bool {
    &&& v <= alpha ==> r <= alpha
    &&& alpha < v < beta ==> r == v
    &&& v >= beta ==> r >= beta
}

/// The search between bounds finds the value of plain search wherever that
/// lies between the bounds; where it does not, the search says on which side
/// it lies.
pub proof fn lemma_negamax_exact(p: Position, alpha: int, beta: int, depth: nat)
    requires
        beta > MIN_SCORE,
        alpha < MAX_SCORE,
    ensures
        stands_for(negamax_value(p, alpha, beta, depth), minimax(p, depth), floor(alpha), beta),
    decreases depth, 1nat, 0nat,
{
    let moves = p.legal_move_seq();
    if depth > 0 && moves.len() > 0 {
        lemma_search_exact(p, moves, 0, floor(alpha), floor(alpha), beta, depth);
        lemma_best_upto_inside(p, moves, moves.len(), depth);
    }
}

/// The same for a search that has begun: while the best value found is below
/// the upper bound it is the best score by plain search of the moves tried, or
/// the lower bound of the start if that is higher; and the result stands for
/// the best score of all moves.
pub proof fn lemma_search_exact(
    p: Position,
    moves: Seq<Move>,
    i: nat,
    start: int,
    alpha: int,
    beta: int,
    depth: nat,
)
    requires
        depth > 0,
        i <= moves.len(),
        moves.len() > 0,
        beta > MIN_SCORE,
        MIN_SCORE <= start < MAX_SCORE,
        alpha == (if best_upto(p, moves, i, depth) > start {
            best_upto(p, moves, i, depth)
        } else {
            start
        }),
        i > 0 ==> alpha < beta,
    ensures
        stands_for(
            search_from(p, moves, i, alpha, beta, depth),
            best_upto(p, moves, moves.len(), depth),
            start,
            beta,
        ),
    decreases depth, 0nat, moves.len() - i,
{
    lemma_best_upto_inside(p, moves, i, depth);
    lemma_best_upto_inside(p, moves, moves.len(), depth);
    if i < moves.len() {
        let child = p.after(moves[i as int]);
        lemma_negamax_exact(child, -beta, -alpha, (depth - 1) as nat);
        lemma_negamax_inside(child, -beta, -alpha, (depth - 1) as nat);
        lemma_minimax_inside(child, (depth - 1) as nat);
        let score = -negamax_value(child, -beta, -alpha, (depth - 1) as nat);
        let better = if score > alpha {
            score
        } else {
            alpha
        };
        lemma_best_upto_inside(p, moves, i + 1, depth);
        lemma_best_upto_grows(p, moves, i + 1, moves.len(), depth);
        if better < beta {
            lemma_search_exact(p, moves, i + 1, start, better, beta, depth);
        }
    }
}

/// The best score among more moves is not lower.
pub proof fn lemma_best_upto_grows(p: Position, moves: Seq<Move>, m: nat, n: nat, depth: nat)
    requires
        depth > 0,
        m <= n,
    ensures
        best_upto(p, moves, m, depth) <= best_upto(p, moves, n, depth),
    decreases n - m,
{
    if m < n {
        lemma_best_upto_grows(p, moves, m, (n - 1) as nat, depth);
    }
}

/// With the widest bounds the search finds the value of plain search.
pub proof fn lemma_full_window(p: Position, depth: nat)
    ensures
        negamax_value(p, MIN_SCORE as int, MAX_SCORE as int, depth) == minimax(p, depth),
{
    lemma_negamax_exact(p, MIN_SCORE as int, MAX_SCORE as int, depth);
    lemma_minimax_inside(p, depth);
}

/// The score of a move at the root stands for its score by plain search, above
/// the score of the best move found before.
pub proof fn lemma_move_score_exact(p: Position, m: Move, best_score: int, depth: nat)
    requires
        depth >= 1,
        MIN_SCORE <= best_score < MAX_SCORE,
    ensures
        plain_score(p, m, depth) <= best_score ==> move_score(p, m, best_score, depth)
            <= best_score,
        plain_score(p, m, depth) > best_score ==> move_score(p, m, best_score, depth)
            == plain_score(p, m, depth),
        MIN_SCORE < plain_score(p, m, depth) < MAX_SCORE,
{
    let child = p.after(m);
    lemma_negamax_exact(child, -(MAX_SCORE as int), -best_score, (depth - 1) as nat);
    lemma_minimax_inside(child, (depth - 1) as nat);
}

/// The choice among the moves from number `i` on, where `best` is the best of
/// the moves before and `best_score` its score by plain search: the move chosen
/// is one of the moves, and no move has a higher score by plain search.
#[verifier::rlimit(30)]
pub proof fn lemma_pick_exact(
    p: Position,
    moves: Seq<Move>,
    i: nat,
    best_score: int,
    best: Option<Move>,
    depth: nat,
)
    requires
        depth >= 1,
        i <= moves.len(),
        moves.len() > 0,
        MIN_SCORE <= best_score < MAX_SCORE,
        best is None ==> i == 0 && best_score == MIN_SCORE,
        i > 0 ==> best is Some,
        best is Some ==> moves.contains(best->0) && best_score == plain_score(p, best->0, depth),
        forall|j: int| 0 <= j < i ==> plain_score(p, #[trigger] moves[j], depth) <= best_score,
    ensures
        pick_from(p, moves, i, best_score, best, depth) is Some,
        moves.contains(pick_from(p, moves, i, best_score, best, depth)->0),
        forall|j: int|
            0 <= j < moves.len() ==> plain_score(p, #[trigger] moves[j], depth) <= plain_score(
                p,
                pick_from(p, moves, i, best_score, best, depth)->0,
                depth,
            ),
    decreases moves.len() - i,
{
    if i < moves.len() {
        let m = moves[i as int];
        lemma_move_score_exact(p, m, best_score, depth);
        let score = move_score(p, m, best_score, depth);
        assert(moves.contains(m));
        if best_score < score {
            assert(score == plain_score(p, m, depth));
            assert forall|j: int| 0 <= j < i + 1 implies plain_score(
                p,
                #[trigger] moves[j],
                depth,
            ) <= score by {
                if j < i {
                    assert(plain_score(p, moves[j], depth) <= best_score);
                }
            }
            lemma_pick_exact(p, moves, i + 1, score, Some(m), depth);
        } else {
            assert(plain_score(p, m, depth) <= best_score);
            assert forall|j: int| 0 <= j < i + 1 implies plain_score(
                p,
                #[trigger] moves[j],
                depth,
            ) <= best_score by {
                if j < i {
                    assert(plain_score(p, moves[j], depth) <= best_score);
                }
            }
            lemma_pick_exact(p, moves, i + 1, best_score, best, depth);
        }
    }
}

/// The move that the search chooses is a legal move with the highest score by
/// plain search: no legal move leads to a position of lower value for the
/// other side, however deep the search.
pub proof fn lemma_best_choice(p: Position, depth: nat)
    requires
        depth >= 1,
        p.legal_move_seq().len() > 0,
    ensures
        best_choice(p, depth) is Some,
        p.legal_move_seq().contains(best_choice(p, depth)->0),
        forall|m: Move|
            p.legal_move_seq().contains(m) ==> plain_score(p, m, depth) <= plain_score(
                p,
                best_choice(p, depth)->0,
                depth,
            ),
        plain_score(p, best_choice(p, depth)->0, depth) == minimax(p, depth),
{
    let moves = p.legal_move_seq();
    lemma_pick_exact(p, moves, 0, MIN_SCORE as int, None, depth);
    let chosen = best_choice(p, depth)->0;
    assert forall|m: Move| moves.contains(m) implies plain_score(p, m, depth) <= plain_score(
        p,
        chosen,
        depth,
    ) by {
        let j = choose|j: int| 0 <= j < moves.len() && moves[j] == m;
        assert(moves[j] == m);
    }
    lemma_best_upto_is(p, moves, moves.len(), depth, chosen);
}

/// The best score among some moves is the score of a move among them that has
/// no lower score than any of them.
pub proof fn lemma_best_upto_is(p: Position, moves: Seq<Move>, n: nat, depth: nat, chosen: Move)
    requires
        depth > 0,
        0 < n <= moves.len(),
        exists|k: int| 0 <= k < n && moves[k] == chosen,
        forall|j: int|
            0 <= j < n ==> plain_score(p, #[trigger] moves[j], depth) <= plain_score(
                p,
                chosen,
                depth,
            ),
    ensures
        best_upto(p, moves, n, depth) == plain_score(p, chosen, depth),
    decreases n,
{
    lemma_best_upto_inside(p, moves, n, depth);
    lemma_minimax_inside(p.after(chosen), (depth - 1) as nat);
    let k = choose|k: int| 0 <= k < n && moves[k] == chosen;
    assert(plain_score(p, moves[k], depth) <= best_upto(p, moves, n, depth));
    lemma_best_upto_reached(p, moves, n, depth);
}

/// The best score among some moves is the score of one of them.
pub proof fn lemma_best_upto_reached(p: Position, moves: Seq<Move>, n: nat, depth: nat)
    requires
        depth > 0,
        0 < n <= moves.len(),
    ensures
        exists|j: int|
            0 <= j < n && best_upto(p, moves, n, depth) == plain_score(
                p,
                #[trigger] moves[j],
                depth,
            ),
    decreases n,
{
    lemma_best_upto_inside(p, moves, (n - 1) as nat, depth);
    lemma_minimax_inside(p.after(moves[n - 1]), (depth - 1) as nat);
    let before = best_upto(p, moves, (n - 1) as nat, depth);
    let score = plain_score(p, moves[n - 1], depth);
    if score > before {
        assert(best_upto(p, moves, n, depth) == plain_score(p, moves[n - 1], depth));
    } else {
        lemma_best_upto_reached(p, moves, (n - 1) as nat, depth);
        let j = choose|j: int|
            0 <= j < n - 1 && best_upto(p, moves, (n - 1) as nat, depth) == plain_score(
                p,
                #[trigger] moves[j],
                depth,
            );
        assert(best_upto(p, moves, n, depth) == plain_score(p, moves[j], depth));
    }
}

} // verus!
