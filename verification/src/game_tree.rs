//! The game tree below a position, stated over the model: the value that a
//! full minimax search gives a position, the result of the search that
//! prunes with an alpha-beta window, and the proof that pruning changes
//! neither the score nor the move at the root.

use vstd::prelude::*;
use crate::board_view::{lemma_free_cells_are_free, BoardView};
use crate::gomoku::BOARD_WIDTH;
use crate::minmax::MinMaxNodeRole;

verus! {

/// A score together with the move that leads to it.
pub type Choice = (i32, (usize, usize));

/// The move that stands for "no move": it names no cell of the board.
pub open spec fn no_move() -> (usize, usize) {
    (BOARD_WIDTH, BOARD_WIDTH)
}

impl MinMaxNodeRole {
    /// The role of the player who answers.
    pub open spec fn other(self) -> MinMaxNodeRole {
        match self {
            MinMaxNodeRole::Maximizer => MinMaxNodeRole::Minimizer,
            MinMaxNodeRole::Minimizer => MinMaxNodeRole::Maximizer,
        }
    }

    /// The score that every other score is at least as good as.
    pub open spec fn worst(self) -> i32 {
        match self {
            MinMaxNodeRole::Maximizer => i32::MIN,
            MinMaxNodeRole::Minimizer => i32::MAX,
        }
    }

    /// Whether `candidate` is strictly better than `best` for this role.
    pub open spec fn prefers(self, candidate: i32, best: i32) -> bool {
        match self {
            MinMaxNodeRole::Maximizer => best < candidate,
            MinMaxNodeRole::Minimizer => best > candidate,
        }
    }
}

/// Whether the search stops at `state`: the depth is used up, the game is
/// over, or no cell is free.
pub open spec fn at_horizon(state: BoardView, depth: nat) -> bool {
    depth == 0 || state.terminated || state.free_cells().len() == 0
}

/// The position after the `k`-th free cell has been claimed.
pub open spec fn child(state: BoardView, k: int) -> BoardView {
    let cell = state.free_cells()[k];
    state.play(cell.0 as int, cell.1 as int)
}

/// The result of the full search: at the horizon the heuristic value and no
/// move; elsewhere the best value among all children for `role`, with the
/// first move that reaches it.
pub open spec fn minimax(
    h: spec_fn(BoardView) -> i32,
    state: BoardView,
    depth: nat,
    role: MinMaxNodeRole,
) -> Choice
    decreases depth, 1nat, 0nat,
{
    if at_horizon(state, depth) {
        (h(state), no_move())
    } else {
        best_of(h, state, depth, role, state.free_cells().len())
    }
}

/// The best value among the first `n` children of `state`, with the first
/// move that reaches it; before any child has been looked at, the worst
/// score and the first move.
pub open spec fn best_of(
    h: spec_fn(BoardView) -> i32,
    state: BoardView,
    depth: nat,
    role: MinMaxNodeRole,
    n: nat,
) -> Choice
    decreases depth, 0nat, n,
{
    if n == 0 || depth == 0 {
        (role.worst(), state.free_cells()[0])
    } else {
        let best = best_of(h, state, depth, role, (n - 1) as nat);
        let value = minimax(h, child(state, n - 1), (depth - 1) as nat, role.other()).0;
        if role.prefers(value, best.0) {
            (value, state.free_cells()[n - 1])
        } else {
            best
        }
    }
}

/// The lower end of the window after `role` has reached `score`.
pub open spec fn raise_alpha(role: MinMaxNodeRole, alpha: i32, score: i32) -> i32 {
    match role {
        MinMaxNodeRole::Maximizer => if alpha < score {
            score
        } else {
            alpha
        },
        MinMaxNodeRole::Minimizer => alpha,
    }
}

/// The upper end of the window after `role` has reached `score`.
pub open spec fn lower_beta(role: MinMaxNodeRole, beta: i32, score: i32) -> i32 {
    match role {
        MinMaxNodeRole::Maximizer => beta,
        MinMaxNodeRole::Minimizer => if score < beta {
            score
        } else {
            beta
        },
    }
}

/// The result of the pruning search with the window `alpha .. beta`.
pub open spec fn alphabeta(
    h: spec_fn(BoardView) -> i32,
    state: BoardView,
    depth: nat,
    role: MinMaxNodeRole,
    alpha: i32,
    beta: i32,
) -> Choice
    decreases depth, 1nat, 0nat,
{
    if at_horizon(state, depth) {
        (h(state), no_move())
    } else {
        alphabeta_from(
            h,
            state,
            depth,
            role,
            alpha,
            beta,
            0,
            (role.worst(), state.free_cells()[0]),
        )
    }
}

/// The result of the pruning search once the children before the `k`-th
/// have been looked at, with `best` the choice and `alpha .. beta` the
/// window that they have left: the children are taken in order, each is
/// searched with the current window, a strictly better value replaces the
/// choice, the window closes in on the choice, and the search of this node
/// ends as soon as the window is empty.
pub open spec fn alphabeta_from(
    h: spec_fn(BoardView) -> i32,
    state: BoardView,
    depth: nat,
    role: MinMaxNodeRole,
    alpha: i32,
    beta: i32,
    k: nat,
    best: Choice,
) -> Choice
    decreases depth, 0nat, state.free_cells().len() - k,
{
    if k >= state.free_cells().len() || depth == 0 {
        best
    } else {
        let value = alphabeta(
            h,
            child(state, k as int),
            (depth - 1) as nat,
            role.other(),
            alpha,
            beta,
        ).0;
        let next = if role.prefers(value, best.0) {
            (value, state.free_cells()[k as int])
        } else {
            best
        };
        let next_alpha = raise_alpha(role, alpha, next.0);
        let next_beta = lower_beta(role, beta, next.0);
        if next_beta <= next_alpha {
            next
        } else {
            alphabeta_from(h, state, depth, role, next_alpha, next_beta, k + 1, next)
        }
    }
}

/// What a search with the window `alpha .. beta` may return for a position
/// whose full search gives `exact`: the exact value if the result lies
/// inside the window, an upper bound of it if the result lies at or below
/// the window, a lower bound if it lies at or above.
pub open spec fn within_window(alpha: i32, beta: i32, found: i32, exact: i32) -> bool {
    &&& found <= alpha ==> exact <= found
    &&& found >= beta ==> exact >= found
    &&& alpha < found < beta ==> found == exact
}

/// How the running score of a pruning node stands to the best value of the
/// children seen so far, `exact`: equal to it once the score has entered
/// the window that the node was given, and a bound of it on the side of
/// `role` before that.
spec fn tracks(
    role: MinMaxNodeRole,
    alpha: i32,
    beta: i32,
    score: i32,
    exact: i32,
) -> bool {
    match role {
        MinMaxNodeRole::Maximizer => if score <= alpha {
            exact <= score
        } else {
            score == exact
        },
        MinMaxNodeRole::Minimizer => if score >= beta {
            exact >= score
        } else {
            score == exact
        },
    }
}

/// The best value among the first children can only get better for `role`
/// as more children are taken in.
proof fn lemma_best_of_monotone(
    h: spec_fn(BoardView) -> i32,
    state: BoardView,
    depth: nat,
    role: MinMaxNodeRole,
    k: nat,
    n: nat,
)
    requires
        k <= n,
    ensures
        !role.prefers(best_of(h, state, depth, role, k).0, best_of(h, state, depth, role, n).0),
    decreases n - k,
{
    if k < n && depth > 0 {
        lemma_best_of_monotone(h, state, depth, role, k, (n - 1) as nat);
    }
}

/// Once the best value is the best score there is, no later child changes
/// the choice.
proof fn lemma_best_of_saturated(
    h: spec_fn(BoardView) -> i32,
    state: BoardView,
    depth: nat,
    role: MinMaxNodeRole,
    k: nat,
    n: nat,
)
    requires
        k <= n,
        best_of(h, state, depth, role, k).0 == role.other().worst(),
    ensures
        best_of(h, state, depth, role, n) == best_of(h, state, depth, role, k),
    decreases n - k,
{
    if k < n && depth > 0 {
        lemma_best_of_saturated(h, state, depth, role, k, (n - 1) as nat);
    }
}

/// The score of the pruning search stands to the score of the full search
/// as `within_window` says, whatever the window, as long as it is not empty.
pub proof fn lemma_alphabeta_within_window(
    h: spec_fn(BoardView) -> i32,
    state: BoardView,
    depth: nat,
    role: MinMaxNodeRole,
    alpha: i32,
    beta: i32,
)
    requires
        alpha < beta,
    ensures
        within_window(
            alpha,
            beta,
            alphabeta(h, state, depth, role, alpha, beta).0,
            minimax(h, state, depth, role).0,
        ),
    decreases depth, 1nat, 0nat,
{
    if !at_horizon(state, depth) {
        lemma_alphabeta_from_within_window(
            h,
            state,
            depth,
            role,
            alpha,
            beta,
            alpha,
            beta,
            0,
            (role.worst(), state.free_cells()[0]),
        );
    }
}

/// The step of `lemma_alphabeta_within_window` inside one node: the node
/// was given the window `alpha0 .. beta0`, and the children before the
/// `k`-th have left the choice `best` and the window `alpha .. beta`.
proof fn lemma_alphabeta_from_within_window(
    h: spec_fn(BoardView) -> i32,
    state: BoardView,
    depth: nat,
    role: MinMaxNodeRole,
    alpha0: i32,
    beta0: i32,
    alpha: i32,
    beta: i32,
    k: nat,
    best: Choice,
)
    requires
        depth > 0,
        k <= state.free_cells().len(),
        alpha0 < beta0,
        alpha < beta,
        alpha == raise_alpha(role, alpha0, best.0),
        beta == lower_beta(role, beta0, best.0),
        tracks(role, alpha0, beta0, best.0, best_of(h, state, depth, role, k).0),
    ensures
        within_window(
            alpha0,
            beta0,
            alphabeta_from(h, state, depth, role, alpha, beta, k, best).0,
            best_of(h, state, depth, role, state.free_cells().len()).0,
        ),
    decreases depth, 0nat, state.free_cells().len() - k,
{
    let n = state.free_cells().len();
    if k < n {
        let below = (depth - 1) as nat;
        lemma_alphabeta_within_window(h, child(state, k as int), below, role.other(), alpha, beta);
        let value = alphabeta(h, child(state, k as int), below, role.other(), alpha, beta).0;
        let next = if role.prefers(value, best.0) {
            (value, state.free_cells()[k as int])
        } else {
            best
        };
        let next_alpha = raise_alpha(role, alpha, next.0);
        let next_beta = lower_beta(role, beta, next.0);
        lemma_best_of_monotone(h, state, depth, role, k + 1, n);
        if next_beta > next_alpha {
            lemma_alphabeta_from_within_window(
                h,
                state,
                depth,
                role,
                alpha0,
                beta0,
                next_alpha,
                next_beta,
                k + 1,
                next,
            );
        }
    }
}

/// Pruning is an optimisation only: with the full window the pruning search
/// returns the score and the move of the full search.
pub proof fn lemma_pruning_keeps_result(
    h: spec_fn(BoardView) -> i32,
    state: BoardView,
    depth: nat,
    role: MinMaxNodeRole,
)
    ensures
        alphabeta(h, state, depth, role, i32::MIN, i32::MAX) == minimax(h, state, depth, role),
{
    if !at_horizon(state, depth) {
        lemma_full_window_from(
            h,
            state,
            depth,
            role,
            i32::MIN,
            i32::MAX,
            0,
            (role.worst(), state.free_cells()[0]),
        );
    }
}

/// The step of `lemma_pruning_keeps_result` inside the root: after the
/// children before the `k`-th the pruning search holds the choice of the
/// full search, and it ends with the choice of the full search.
proof fn lemma_full_window_from(
    h: spec_fn(BoardView) -> i32,
    state: BoardView,
    depth: nat,
    role: MinMaxNodeRole,
    alpha: i32,
    beta: i32,
    k: nat,
    best: Choice,
)
    requires
        depth > 0,
        k <= state.free_cells().len(),
        alpha < beta,
        alpha == raise_alpha(role, i32::MIN, best.0),
        beta == lower_beta(role, i32::MAX, best.0),
        best == best_of(h, state, depth, role, k),
    ensures
        alphabeta_from(h, state, depth, role, alpha, beta, k, best) == best_of(
            h,
            state,
            depth,
            role,
            state.free_cells().len(),
        ),
    decreases state.free_cells().len() - k,
{
    let n = state.free_cells().len();
    if k < n {
        let below = (depth - 1) as nat;
        lemma_alphabeta_within_window(h, child(state, k as int), below, role.other(), alpha, beta);
        let value = alphabeta(h, child(state, k as int), below, role.other(), alpha, beta).0;
        let next = if role.prefers(value, best.0) {
            (value, state.free_cells()[k as int])
        } else {
            best
        };
        let next_alpha = raise_alpha(role, alpha, next.0);
        let next_beta = lower_beta(role, beta, next.0);
        assert(next == best_of(h, state, depth, role, k + 1));
        if next_beta > next_alpha {
            lemma_full_window_from(h, state, depth, role, next_alpha, next_beta, k + 1, next);
        } else {
            lemma_best_of_saturated(h, state, depth, role, k + 1, n);
        }
    }
}

/// What the full search returns away from the horizon: a value that no
/// child betters for `role`, and the first move whose child has that value.
pub proof fn lemma_minimax_is_optimal(
    h: spec_fn(BoardView) -> i32,
    state: BoardView,
    depth: nat,
    role: MinMaxNodeRole,
)
    requires
        !at_horizon(state, depth),
    ensures
        forall|k: int|
            0 <= k < state.free_cells().len() ==> !role.prefers(
                #[trigger] child_value(h, state, depth, role, k),
                minimax(h, state, depth, role).0,
            ),
        exists|k: int|
            {
                &&& 0 <= k < state.free_cells().len()
                &&& minimax(h, state, depth, role).1 == state.free_cells()[k]
                &&& #[trigger] child_value(h, state, depth, role, k) == minimax(
                    h,
                    state,
                    depth,
                    role,
                ).0
                &&& forall|j: int|
                    0 <= j < k ==> #[trigger] child_value(h, state, depth, role, j) != minimax(
                        h,
                        state,
                        depth,
                        role,
                    ).0
            },
{
    lemma_best_of_is_optimal(h, state, depth, role, state.free_cells().len());
}

/// The value that the full search gives the `k`-th child of `state`.
pub open spec fn child_value(
    h: spec_fn(BoardView) -> i32,
    state: BoardView,
    depth: nat,
    role: MinMaxNodeRole,
    k: int,
) -> i32 {
    minimax(h, child(state, k), (depth - 1) as nat, role.other()).0
}

/// `lemma_minimax_is_optimal` for the first `n` children.
proof fn lemma_best_of_is_optimal(
    h: spec_fn(BoardView) -> i32,
    state: BoardView,
    depth: nat,
    role: MinMaxNodeRole,
    n: nat,
)
    requires
        depth > 0,
        n > 0,
    ensures
        forall|k: int|
            0 <= k < n ==> !role.prefers(
                #[trigger] child_value(h, state, depth, role, k),
                best_of(h, state, depth, role, n).0,
            ),
        exists|k: int|
            {
                &&& 0 <= k < n
                &&& best_of(h, state, depth, role, n).1 == state.free_cells()[k]
                &&& #[trigger] child_value(h, state, depth, role, k) == best_of(
                    h,
                    state,
                    depth,
                    role,
                    n,
                ).0
                &&& forall|j: int|
                    0 <= j < k ==> #[trigger] child_value(h, state, depth, role, j) != best_of(
                        h,
                        state,
                        depth,
                        role,
                        n,
                    ).0
            },
    decreases n,
{
    let last = child_value(h, state, depth, role, n - 1);
    let before = best_of(h, state, depth, role, (n - 1) as nat);
    let now = best_of(h, state, depth, role, n);
    if n == 1 {
        assert(before == (role.worst(), state.free_cells()[0]));
        assert(now.1 == state.free_cells()[0]);
        assert(child_value(h, state, depth, role, 0) == now.0);
    } else {
        lemma_best_of_is_optimal(h, state, depth, role, (n - 1) as nat);
        let k = choose|k: int|
            {
                &&& 0 <= k < n - 1
                &&& before.1 == state.free_cells()[k]
                &&& #[trigger] child_value(h, state, depth, role, k) == before.0
                &&& forall|j: int|
                    0 <= j < k ==> #[trigger] child_value(h, state, depth, role, j) != before.0
            };
        if role.prefers(last, before.0) {
            assert(child_value(h, state, depth, role, n - 1) == now.0);
            assert forall|j: int| 0 <= j < n - 1 implies #[trigger] child_value(
                h,
                state,
                depth,
                role,
                j,
            ) != now.0 by {
                assert(!role.prefers(child_value(h, state, depth, role, j), before.0));
            }
        } else {
            assert(child_value(h, state, depth, role, k) == now.0);
        }
    }
}

/// Whether `cell` is one of the free cells of `state`.
pub open spec fn is_free_cell(state: BoardView, cell: (usize, usize)) -> bool {
    exists|k: int| 0 <= k < state.free_cells().len() && #[trigger] state.free_cells()[k] == cell
}

/// Away from the horizon the pruning search returns a free cell, whatever
/// the window.
pub proof fn lemma_alphabeta_move_is_free(
    h: spec_fn(BoardView) -> i32,
    state: BoardView,
    depth: nat,
    role: MinMaxNodeRole,
    alpha: i32,
    beta: i32,
)
    requires
        !at_horizon(state, depth),
    ensures
        is_free_cell(state, alphabeta(h, state, depth, role, alpha, beta).1),
        state.valid_move(
            alphabeta(h, state, depth, role, alpha, beta).1.0 as int,
            alphabeta(h, state, depth, role, alpha, beta).1.1 as int,
        ),
{
    let first = (role.worst(), state.free_cells()[0]);
    assert(state.free_cells()[0] == first.1);
    lemma_alphabeta_from_move_is_free(h, state, depth, role, alpha, beta, 0, first);
    let found = alphabeta(h, state, depth, role, alpha, beta).1;
    let k = choose|k: int|
        0 <= k < state.free_cells().len() && #[trigger] state.free_cells()[k] == found;
    lemma_free_cells_are_free(state, k);
}

/// The step of `lemma_alphabeta_move_is_free` inside one node.
proof fn lemma_alphabeta_from_move_is_free(
    h: spec_fn(BoardView) -> i32,
    state: BoardView,
    depth: nat,
    role: MinMaxNodeRole,
    alpha: i32,
    beta: i32,
    k: nat,
    best: Choice,
)
    requires
        is_free_cell(state, best.1),
    ensures
        is_free_cell(state, alphabeta_from(h, state, depth, role, alpha, beta, k, best).1),
    decreases state.free_cells().len() - k,
{
    if k < state.free_cells().len() && depth > 0 {
        let value = alphabeta(
            h,
            child(state, k as int),
            (depth - 1) as nat,
            role.other(),
            alpha,
            beta,
        ).0;
        let next = if role.prefers(value, best.0) {
            (value, state.free_cells()[k as int])
        } else {
            best
        };
        assert(state.free_cells()[k as int] == state.free_cells()[k as int]);
        let next_alpha = raise_alpha(role, alpha, next.0);
        let next_beta = lower_beta(role, beta, next.0);
        if next_beta > next_alpha {
            lemma_alphabeta_from_move_is_free(
                h,
                state,
                depth,
                role,
                next_alpha,
                next_beta,
                k + 1,
                next,
            );
        }
    }
}

} // verus!
