//! The search engine: depth-limited minimax with alpha-beta pruning over a
//! pluggable heuristic, and a bot whose heuristic counts runs of three.

use vstd::prelude::*;
use itertools::Itertools;
use std::ops::Range;
use crate::board_view::{lemma_free_cells_are_free, BoardView};
use crate::evaluation::{
    anti_diagonal_starts, diagonal_starts, evaluate, family_score, grid, left_border,
    lemma_evaluate_bounds, lemma_family_score_bounds, lemma_line_score_bounds, lemma_line_starts,
    line_score, line_to_edge, run_count, top_border,
};
use crate::game_tree::{
    alphabeta, alphabeta_from, at_horizon, child, child_value, lemma_alphabeta_move_is_free,
    lemma_alphabeta_within_window, lemma_minimax_is_optimal, lemma_pruning_keeps_result, minimax,
    within_window,
};
use crate::gomoku::{mark_char, TicTacToeBoard, Turn, BOARD_WIDTH};

verus! {

/// Whether a node of the search picks the highest or the lowest score.
pub enum MinMaxNodeRole {
    Maximizer,
    Minimizer,
}

/// A player identity with a static evaluation of positions, made from that
/// player's point of view whoever is to move. This is what a bot has to
/// bring; the search comes with `TicTacToeBot`.
pub trait Heuristic {
    /// The value that `heuristic` gives a position: higher is better for
    /// the player of `turn_spec`.
    spec fn heuristic_spec(&self, state: BoardView) -> i32;

    /// The player that the evaluation sides with.
    spec fn turn_spec(&self) -> Turn;

    /// Scores `state` without looking ahead.
    fn heuristic(&self, state: &TicTacToeBoard) -> (score: i32)
        ensures
            score == self.heuristic_spec(state@),
    ;

    /// The player that this bot plays as.
    fn turn(&self) -> (turn: &Turn)
        ensures
            *turn == self.turn_spec(),
    ;
}

/// The evaluation of `bot` as a function on positions.
pub open spec fn evaluator<B: Heuristic + ?Sized>(bot: &B) -> spec_fn(BoardView) -> i32 {
    |state: BoardView| bot.heuristic_spec(state)
}

/// Searches the game tree below `state` to `depth` plies with the window
/// `alpha .. beta`. The free cells are tried in row-major order, each on a
/// copy of the board; the roles alternate from ply to ply; a move replaces
/// the best one so far only if its score is strictly better; and the
/// remaining moves of a node are skipped once `beta <= alpha`. Where the
/// depth is used up, the game is over or no cell is free, the result is the
/// heuristic value with the cell `(BOARD_WIDTH, BOARD_WIDTH)`, which is not
/// on the board.
pub fn search<B: Heuristic + ?Sized>(
    bot: &B,
    state: &TicTacToeBoard,
    depth: i32,
    role: MinMaxNodeRole,
    alpha: i32,
    beta: i32,
) -> (found: (i32, (usize, usize)))
    requires
        depth >= 0,
    ensures
        found == alphabeta(evaluator(bot), state@, depth as nat, role, alpha, beta),
    decreases depth,
{
    if depth == 0 || state.is_terminated() {
        return (bot.heuristic(state), (BOARD_WIDTH, BOARD_WIDTH));
    }
    let possible_moves = state.avaliable_moves();
    if possible_moves.len() == 0 {
        return (bot.heuristic(state), (BOARD_WIDTH, BOARD_WIDTH));
    }
    let mut score: i32 = match role {
        MinMaxNodeRole::Maximizer => i32::MIN,
        MinMaxNodeRole::Minimizer => i32::MAX,
    };
    let mut action: (usize, usize) = possible_moves[0];
    let mut alpha: i32 = alpha;
    let mut beta: i32 = beta;
    let ghost h = evaluator(bot);
    let ghost target = alphabeta(h, state@, depth as nat, role, alpha, beta);
    let mut i: usize = 0;
    while i < possible_moves.len()
        invariant_except_break
            target == alphabeta_from(
                h,
                state@,
                depth as nat,
                role,
                alpha,
                beta,
                i as nat,
                (score, action),
            ),
        invariant
            i <= possible_moves.len(),
            possible_moves@ == state@.free_cells(),
            !state@.terminated,
            depth > 0,
            h == evaluator(bot),
        ensures
            (score, action) == target,
        decreases possible_moves.len() - i,
    {
        let (row, col) = possible_moves[i];
        proof {
            lemma_free_cells_are_free(state@, i as int);
        }
        let mut copy_board: TicTacToeBoard = state.clone();
        copy_board.make_move(row, col);
        assert(copy_board@ == child(state@, i as int));
        let (child_score, _) = search(
            bot,
            &copy_board,
            depth - 1,
            match role {
                MinMaxNodeRole::Maximizer => MinMaxNodeRole::Minimizer,
                MinMaxNodeRole::Minimizer => MinMaxNodeRole::Maximizer,
            },
            alpha,
            beta,
        );
        match role {
            MinMaxNodeRole::Maximizer => {
                if score < child_score {
                    action = (row, col);
                    score = child_score;
                }
                if alpha < score {
                    alpha = score;
                }
            },
            MinMaxNodeRole::Minimizer => {
                if score > child_score {
                    action = (row, col);
                    score = child_score;
                }
                if score < beta {
                    beta = score;
                }
            },
        }
        if beta <= alpha {
            break ;
        }
        i += 1;
    }
    (score, action)
}

/// The search engine, which every `Heuristic` can put on as it stands.
pub trait TicTacToeBot: Heuristic {
    /// Searches the game tree below `state` to `depth` plies with the window
    /// `alpha .. beta`, as `search` does. Away from the horizon the move
    /// that comes back is a valid move on `state`. The score is that of the
    /// full search where it falls inside the window, and a bound of it where
    /// it falls outside; with the full window the whole result is that of
    /// the full search.
    fn minmax(
        &self,
        state: &TicTacToeBoard,
        depth: i32,
        role: MinMaxNodeRole,
        alpha: i32,
        beta: i32,
    ) -> (found: (i32, (usize, usize)))
        requires
            depth >= 0,
        ensures
            found == alphabeta(evaluator(self), state@, depth as nat, role, alpha, beta),
            at_horizon(state@, depth as nat) ==> found == (
                self.heuristic_spec(state@),
                (BOARD_WIDTH, BOARD_WIDTH),
            ),
            !at_horizon(state@, depth as nat) ==> state@.valid_move(
                found.1.0 as int,
                found.1.1 as int,
            ),
            alpha < beta ==> within_window(
                alpha,
                beta,
                found.0,
                minimax(evaluator(self), state@, depth as nat, role).0,
            ),
            alpha == i32::MIN && beta == i32::MAX ==> found == minimax(
                evaluator(self),
                state@,
                depth as nat,
                role,
            ),
    {
        proof {
            if alpha < beta {
                lemma_alphabeta_within_window(
                    evaluator(self),
                    state@,
                    depth as nat,
                    role,
                    alpha,
                    beta,
                );
            }
            lemma_pruning_keeps_result(evaluator(self), state@, depth as nat, role);
            if !at_horizon(state@, depth as nat) {
                lemma_alphabeta_move_is_free(
                    evaluator(self),
                    state@,
                    depth as nat,
                    role,
                    alpha,
                    beta,
                );
            }
        }
        search(self, state, depth, role, alpha, beta)
    }

    /// Chooses a move on `state` by looking `depth` plies ahead with the
    /// full window, as the maximizer. Pruning does not show in the result:
    /// it is the score and the move of the full minimax search, the first of
    /// the best moves in row-major order.
    fn make_move(&self, state: &TicTacToeBoard, depth: i32) -> (found: (i32, (usize, usize)))
        requires
            depth >= 0,
        ensures
            found == minimax(evaluator(self), state@, depth as nat, MinMaxNodeRole::Maximizer),
            at_horizon(state@, depth as nat) ==> found == (
                self.heuristic_spec(state@),
                (BOARD_WIDTH, BOARD_WIDTH),
            ),
            !at_horizon(state@, depth as nat) ==> state@.valid_move(
                found.1.0 as int,
                found.1.1 as int,
            ),
    {
        self.minmax(state, depth, MinMaxNodeRole::Maximizer, i32::MIN, i32::MAX)
    }
}

/// A bot that scores a position by the runs of three on it.
pub struct SimpleBot {
    /// The player that the bot plays as.
    pub turn: Turn,
}

/// The record of one finished search: the score, the move that leads to it
/// and the number of positions that were evaluated on the way.
pub struct MinMaxNode {
    score: i32,
    best_move: (usize, usize),
    states_evaluated: u32,
}

/// Moves the running counter of a line over one more cell: up for a cell of
/// `player`, back to zero for a free cell, down for a cell of the opponent.
fn running_count(player: char, item: char, count: &mut i32)
    requires
        i32::MIN < *old(count) < i32::MAX,
    ensures
        *final(count) == if item == player {
            *old(count) + 1
        } else if item == ' ' {
            0
        } else {
            *old(count) - 1
        },
{
    if item == player {
        *count += 1;
    } else if item == ' ' {
        *count = 0;
    } else {
        *count -= 1;
    }
}

/// Calls `itertools::Itertools::cartesian_product` on two ranges of board
/// coordinates and collects the pairs that it yields. The contract is
/// assumed, not proved. It says that the pairs come as `grid` lists them:
/// for each row of `rows` in turn, every column of `cols` in turn, and
/// nothing where either range is empty.
#[verifier::external_body]
fn cartesian_product(rows: Range<usize>, cols: Range<usize>) -> (pairs: Vec<(usize, usize)>)
    requires
        rows.end <= BOARD_WIDTH,
        cols.end <= BOARD_WIDTH,
    ensures
        pairs@ == grid(rows.start as int, rows.end as int, cols.start as int, cols.end as int),
{
    rows.cartesian_product(cols).collect()
}

/// The points that `player` gathers on the `len` cells from `(row, col)` to
/// the edge of the board in steps of `(d_row, d_col)`.
fn scan_line(
    state: &TicTacToeBoard,
    player: Turn,
    row: usize,
    col: usize,
    d_row: i32,
    d_col: i32,
    len: usize,
) -> (points: i32)
    requires
        row < BOARD_WIDTH,
        col < BOARD_WIDTH,
        -1 <= d_row <= 1,
        -1 <= d_col <= 1,
        len == line_to_edge((row, col), d_row as int, d_col as int).len,
    ensures
        points == line_score(
            state@,
            player,
            line_to_edge((row, col), d_row as int, d_col as int),
            len as nat,
        ),
        -BOARD_WIDTH <= points <= BOARD_WIDTH,
{
    let mark: char = player.to_char();
    let ghost line = line_to_edge((row, col), d_row as int, d_col as int);
    let mut count: i32 = 0;
    let mut points: i32 = 0;
    let mut i: usize = 0;
    while i < len
        invariant
            i <= len <= BOARD_WIDTH,
            row < BOARD_WIDTH,
            col < BOARD_WIDTH,
            -1 <= d_row <= 1,
            -1 <= d_col <= 1,
            line == line_to_edge((row, col), d_row as int, d_col as int),
            len == line.len,
            mark == mark_char(Some(player)),
            count == run_count(state@, player, line, i as nat),
            points == line_score(state@, player, line, i as nat),
        decreases len - i,
    {
        let step: i32 = i as i32;
        proof {
            lemma_line_score_bounds(state@, player, line, i as nat);
            assert(step * d_row == if d_row == 1 {
                step as int
            } else if d_row == -1 {
                -step
            } else {
                0
            }) by (nonlinear_arith)
                requires
                    -1 <= d_row <= 1,
            ;
            assert(step * d_col == if d_col == 1 {
                step as int
            } else if d_col == -1 {
                -step
            } else {
                0
            }) by (nonlinear_arith)
                requires
                    -1 <= d_col <= 1,
            ;
        }
        let check_row: i32 = row as i32 + step * d_row;
        let check_col: i32 = col as i32 + step * d_col;
        let item: char = state.get_at(check_row as usize, check_col as usize);
        running_count(mark, item, &mut count);
        if count == 3 {
            points += 1;
        } else if count == -3 {
            points -= 1;
        }
        i += 1;
    }
    proof {
        lemma_line_score_bounds(state@, player, line, len as nat);
    }
    points
}

impl Heuristic for SimpleBot {
    open spec fn heuristic_spec(&self, state: BoardView) -> i32 {
        evaluate(state, self.turn) as i32
    }

    open spec fn turn_spec(&self) -> Turn {
        self.turn
    }

    fn turn(&self) -> (turn: &Turn) {
        &self.turn
    }

    /// Scores `state` for this bot's player: the highest score if the player
    /// has won, the lowest if the opponent has, and otherwise the runs of
    /// three that the player has on the rows, columns and diagonals, less
    /// those of the opponent.
    fn heuristic(&self, state: &TicTacToeBoard) -> (score: i32)
        ensures
            score == evaluate(state@, self.turn),
    {
        let mut three_in_a_rows: i32 = 0;
        let player: Turn = self.turn;

        if state.is_terminated() {
            if state.current_turn() == self.turn {
                return i32::MAX;
            } else {
                return i32::MIN;
            }
        }
        proof {
            lemma_line_starts();
        }
        let mut row: usize = 0;
        while row < BOARD_WIDTH
            invariant
                row <= BOARD_WIDTH,
                three_in_a_rows == family_score(state@, player, left_border(), 0, 1, row as nat),
            decreases BOARD_WIDTH - row,
        {
            proof {
                lemma_line_starts();
                lemma_family_score_bounds(state@, player, left_border(), 0, 1, row as nat);
            }
            three_in_a_rows += scan_line(state, player, row, 0, 0, 1, BOARD_WIDTH);
            row += 1;
        }
        let ghost on_rows = three_in_a_rows;
        proof {
            lemma_family_score_bounds(state@, player, left_border(), 0, 1, row as nat);
        }

        let mut col: usize = 0;
        while col < BOARD_WIDTH
            invariant
                col <= BOARD_WIDTH,
                -64 <= on_rows <= 64,
                three_in_a_rows == on_rows + family_score(
                    state@,
                    player,
                    top_border(),
                    1,
                    0,
                    col as nat,
                ),
            decreases BOARD_WIDTH - col,
        {
            proof {
                lemma_line_starts();
                lemma_family_score_bounds(state@, player, top_border(), 1, 0, col as nat);
            }
            three_in_a_rows += scan_line(state, player, 0, col, 1, 0, BOARD_WIDTH);
            col += 1;
        }
        let ghost on_columns = three_in_a_rows - on_rows;
        proof {
            lemma_family_score_bounds(state@, player, top_border(), 1, 0, col as nat);
        }

        let mut starts: Vec<(usize, usize)> = cartesian_product(0..BOARD_WIDTH, 0..1);
        let mut others: Vec<(usize, usize)> = cartesian_product(0..1, 1..BOARD_WIDTH);
        starts.append(&mut others);
        let mut i: usize = 0;
        while i < starts.len()
            invariant
                i <= starts.len(),
                starts@ == diagonal_starts(),
                -64 <= on_rows <= 64,
                -64 <= on_columns <= 64,
                three_in_a_rows == on_rows + on_columns + family_score(
                    state@,
                    player,
                    diagonal_starts(),
                    1,
                    1,
                    i as nat,
                ),
            decreases starts.len() - i,
        {
            let (row, col) = starts[i];
            proof {
                lemma_line_starts();
                lemma_family_score_bounds(state@, player, diagonal_starts(), 1, 1, i as nat);
            }
            let len: usize = if BOARD_WIDTH - row <= BOARD_WIDTH - col {
                BOARD_WIDTH - row
            } else {
                BOARD_WIDTH - col
            };
            three_in_a_rows += scan_line(state, player, row, col, 1, 1, len);
            i += 1;
        }
        let ghost on_diagonals = three_in_a_rows - on_rows - on_columns;
        proof {
            lemma_family_score_bounds(state@, player, diagonal_starts(), 1, 1, i as nat);
        }

        let mut starts: Vec<(usize, usize)> = cartesian_product(0..BOARD_WIDTH, 0..1);
        let mut others: Vec<(usize, usize)> = cartesian_product(
            BOARD_WIDTH - 1..BOARD_WIDTH,
            1..BOARD_WIDTH,
        );
        starts.append(&mut others);
        let mut i: usize = 0;
        while i < starts.len()
            invariant
                i <= starts.len(),
                starts@ == anti_diagonal_starts(),
                -64 <= on_rows <= 64,
                -64 <= on_columns <= 64,
                -120 <= on_diagonals <= 120,
                three_in_a_rows == on_rows + on_columns + on_diagonals + family_score(
                    state@,
                    player,
                    anti_diagonal_starts(),
                    -1,
                    1,
                    i as nat,
                ),
            decreases starts.len() - i,
        {
            let (row, col) = starts[i];
            proof {
                lemma_line_starts();
                lemma_family_score_bounds(
                    state@,
                    player,
                    anti_diagonal_starts(),
                    -1,
                    1,
                    i as nat,
                );
            }
            let len: usize = if row + 1 <= BOARD_WIDTH - col {
                row + 1
            } else {
                BOARD_WIDTH - col
            };
            three_in_a_rows += scan_line(state, player, row, col, -1, 1, len);
            i += 1;
        }
        three_in_a_rows
    }
}

impl TicTacToeBot for SimpleBot {

}

impl SimpleBot {
    /// A win that is one move away is seen: if it is this bot's player who
    /// moves and the `k`-th free cell ends the game, every search of at
    /// least one ply returns the highest score, and the search of one ply
    /// returns the first cell that ends the game.
    pub proof fn lemma_immediate_win_is_taken(&self, state: BoardView, depth: nat, k: int)
        requires
            state.wf(),
            !state.terminated,
            state.turn == self.turn,
            depth >= 1,
            0 <= k < state.free_cells().len(),
            child(state, k).terminated,
            forall|j: int| 0 <= j < k ==> !(#[trigger] child(state, j)).terminated,
        ensures
            minimax(evaluator(self), state, depth, MinMaxNodeRole::Maximizer).0 == i32::MAX,
            depth == 1 ==> minimax(evaluator(self), state, depth, MinMaxNodeRole::Maximizer).1
                == state.free_cells()[k],
    {
        let h = evaluator(self);
        let role = MinMaxNodeRole::Maximizer;
        lemma_minimax_is_optimal(h, state, depth, role);
        lemma_free_cells_are_free(state, k);
        assert(child_value(h, state, depth, role, k) == i32::MAX);
        if depth == 1 {
            assert forall|j: int| 0 <= j < k implies #[trigger] child_value(
                h,
                state,
                depth,
                role,
                j,
            ) != i32::MAX by {
                lemma_evaluate_bounds(child(state, j), self.turn);
            }
        }
    }
}

} // verus!
