//! The mathematical model of a board: its cells in row-major order, the
//! player to move and the termination flag, with the rules of the game
//! stated over it.

use vstd::prelude::*;
use crate::gomoku::{Turn, BOARD_WIDTH, WINNING_LENGTH};

verus! {

/// What a board is, apart from how its cells are stored.
pub struct BoardView {
    /// The cells in row-major order: cell `(row, col)` is entry
    /// `row * BOARD_WIDTH + col`.
    pub cells: Seq<Option<Turn>>,
    /// The player who moves next, or the winner once the game is over.
    pub turn: Turn,
    /// Whether the last move completed a winning run.
    pub terminated: bool,
}

/// Whether `(row, col)` names a cell of the board.
pub open spec fn in_bounds(row: int, col: int) -> bool {
    0 <= row < BOARD_WIDTH && 0 <= col < BOARD_WIDTH
}

/// The place of cell `(row, col)` in row-major order.
pub open spec fn cell_index(row: int, col: int) -> int {
    row * BOARD_WIDTH + col
}

/// The cell that stands at `index` in row-major order.
pub open spec fn cell_coords(index: int) -> (usize, usize) {
    ((index / BOARD_WIDTH as int) as usize, (index % BOARD_WIDTH as int) as usize)
}

/// Every cell of the board, in row-major order.
pub open spec fn all_cells() -> Seq<(usize, usize)> {
    Seq::new((BOARD_WIDTH * BOARD_WIDTH) as nat, |i: int| cell_coords(i))
}

/// Whether `(d_row, d_col)` is one of the four axes of the game: along a
/// row, along a column, or along a diagonal of either kind.
pub open spec fn is_axis(d_row: int, d_col: int) -> bool {
    ||| (d_row == 0 && d_col == 1)
    ||| (d_row == 1 && d_col == 0)
    ||| (d_row == 1 && d_col == 1)
    ||| (d_row == 1 && d_col == -1)
}

impl Turn {
    /// The other player.
    pub open spec fn opponent(self) -> Turn {
        match self {
            Turn::X => Turn::O,
            Turn::O => Turn::X,
        }
    }
}

impl BoardView {
    /// A view has one entry per cell.
    pub open spec fn wf(self) -> bool {
        self.cells.len() == BOARD_WIDTH * BOARD_WIDTH
    }

    /// The board before the first move.
    pub open spec fn empty() -> BoardView {
        BoardView {
            cells: Seq::new((BOARD_WIDTH * BOARD_WIDTH) as nat, |i: int| None::<Turn>),
            turn: Turn::X,
            terminated: false,
        }
    }

    /// The content of cell `(row, col)`.
    pub open spec fn at(self, row: int, col: int) -> Option<Turn> {
        self.cells[cell_index(row, col)]
    }

    /// Whether `(row, col)` is a cell that nobody has claimed.
    pub open spec fn is_free(self, row: int, col: int) -> bool {
        in_bounds(row, col) && self.at(row, col) is None
    }

    /// Whether `(row, col)` is a cell that holds `mark`.
    pub open spec fn holds(self, row: int, col: int, mark: Turn) -> bool {
        in_bounds(row, col) && self.at(row, col) == Some(mark)
    }

    /// Whether the player to move may claim `(row, col)`.
    pub open spec fn valid_move(self, row: int, col: int) -> bool {
        self.is_free(row, col) && !self.terminated
    }

    /// The free cells in row-major order.
    pub open spec fn free_cells(self) -> Seq<(usize, usize)> {
        all_cells().filter(|m: (usize, usize)| self.is_free(m.0 as int, m.1 as int))
    }

    /// The claimed cells in row-major order.
    pub open spec fn occupied_cells(self) -> Seq<(usize, usize)> {
        all_cells().filter(|m: (usize, usize)| !self.is_free(m.0 as int, m.1 as int))
    }

    /// How many cells are claimed.
    pub open spec fn occupied_count(self) -> nat {
        self.occupied_cells().len()
    }

    /// Whether the cell `k` steps of `(d_row, d_col)` away from `(row, col)`
    /// is on the board and holds `mark`; `k` may be negative.
    pub open spec fn on_line(
        self,
        row: int,
        col: int,
        d_row: int,
        d_col: int,
        k: int,
        mark: Turn,
    ) -> bool {
        self.holds(row + k * d_row, col + k * d_col, mark)
    }

    /// Whether the cells at the `WINNING_LENGTH` steps from `start` on all
    /// hold `mark`.
    pub open spec fn run_from(
        self,
        row: int,
        col: int,
        d_row: int,
        d_col: int,
        start: int,
        mark: Turn,
    ) -> bool {
        forall|k: int|
            start <= k < start + WINNING_LENGTH ==> #[trigger] self.on_line(
                row,
                col,
                d_row,
                d_col,
                k,
                mark,
            )
    }

    /// Whether a run of `WINNING_LENGTH` cells of `mark` along the axis
    /// `(d_row, d_col)` passes through `(row, col)`.
    pub open spec fn run_along(
        self,
        row: int,
        col: int,
        d_row: int,
        d_col: int,
        mark: Turn,
    ) -> bool {
        exists|start: int|
            -WINNING_LENGTH < start <= 0 && #[trigger] self.run_from(
                row,
                col,
                d_row,
                d_col,
                start,
                mark,
            )
    }

    /// Whether `(row, col)` lies on a run of `WINNING_LENGTH` cells of
    /// `mark`: horizontal, vertical, or along either diagonal.
    pub open spec fn run_through(self, row: int, col: int, mark: Turn) -> bool {
        ||| self.run_along(row, col, 0, 1, mark)
        ||| self.run_along(row, col, 1, 0, mark)
        ||| self.run_along(row, col, 1, 1, mark)
        ||| self.run_along(row, col, 1, -1, mark)
    }

    /// The board with the mark of the player to move on `(row, col)`.
    pub open spec fn place(self, row: int, col: int) -> BoardView {
        BoardView {
            cells: self.cells.update(cell_index(row, col), Some(self.turn)),
            turn: self.turn,
            terminated: self.terminated,
        }
    }

    /// The board after the player to move has claimed `(row, col)`: the game
    /// ends if that completes a winning run, and the turn passes on if not.
    pub open spec fn play(self, row: int, col: int) -> BoardView {
        let placed = self.place(row, col);
        if placed.run_through(row, col, self.turn) {
            BoardView { cells: placed.cells, turn: self.turn, terminated: true }
        } else {
            BoardView { cells: placed.cells, turn: self.turn.opponent(), terminated: false }
        }
    }
}

/// A predicate and its negation split a sequence: the two filtered parts
/// have as many entries as the whole.
proof fn lemma_filter_partition<A>(s: Seq<A>, pred: spec_fn(A) -> bool)
    ensures
        s.filter(pred).len() + s.filter(|a: A| !pred(a)).len() == s.len(),
    decreases s.len(),
{
    reveal(Seq::filter);
    if s.len() > 0 {
        lemma_filter_partition(s.drop_last(), pred);
    }
}

/// A predicate that holds of the first `n` entries of a sequence filters
/// none of them out.
proof fn lemma_filter_keeps_all<A>(s: Seq<A>, pred: spec_fn(A) -> bool, n: int)
    requires
        0 <= n <= s.len(),
        forall|i: int| 0 <= i < n ==> pred(#[trigger] s[i]),
    ensures
        s.take(n).filter(pred) == s.take(n),
    decreases n,
{
    reveal(Seq::filter);
    if n > 0 {
        lemma_filter_keeps_all(s, pred, n - 1);
        assert(s.take(n).drop_last() =~= s.take(n - 1));
        assert(s.take(n - 1).push(s[n - 1]) =~= s.take(n));
    } else {
        assert(s.take(0).filter(pred) =~= s.take(0));
    }
}

/// Every cell is either free or claimed: the free cells and the claimed
/// cells together are as many as the board has cells.
pub proof fn lemma_free_and_occupied(view: BoardView)
    ensures
        view.free_cells().len() + view.occupied_count() == BOARD_WIDTH * BOARD_WIDTH,
{
    let free = |m: (usize, usize)| view.is_free(m.0 as int, m.1 as int);
    let taken = |m: (usize, usize)| !view.is_free(m.0 as int, m.1 as int);
    lemma_filter_partition(all_cells(), free);
    assert(taken =~= (|m: (usize, usize)| !free(m)));
}

/// On the board before the first move every cell is free.
pub proof fn lemma_empty_board_is_free()
    ensures
        BoardView::empty().free_cells() == all_cells(),
        BoardView::empty().free_cells().len() == BOARD_WIDTH * BOARD_WIDTH,
        BoardView::empty().occupied_count() == 0,
{
    let view = BoardView::empty();
    let free = |m: (usize, usize)| view.is_free(m.0 as int, m.1 as int);
    lemma_filter_keeps_all(all_cells(), free, all_cells().len() as int);
    assert(all_cells().take(all_cells().len() as int) =~= all_cells());
    lemma_free_and_occupied(view);
}

/// The free cells among the first `n` cells are listed in row-major order.
proof fn lemma_free_prefix_in_order(view: BoardView, n: int)
    requires
        0 <= n <= all_cells().len(),
    ensures
        ({
            let listed = all_cells().take(n).filter(
                |m: (usize, usize)| view.is_free(m.0 as int, m.1 as int),
            );
            &&& forall|i: int|
                0 <= i < listed.len() ==> cell_index(
                    (#[trigger] listed[i]).0 as int,
                    listed[i].1 as int,
                ) < n
            &&& forall|i: int, j: int|
                0 <= i < j < listed.len() ==> cell_index(
                    (#[trigger] listed[i]).0 as int,
                    listed[i].1 as int,
                ) < cell_index((#[trigger] listed[j]).0 as int, listed[j].1 as int)
        }),
    decreases n,
{
    let free = |m: (usize, usize)| view.is_free(m.0 as int, m.1 as int);
    if n > 0 {
        lemma_free_prefix_in_order(view, n - 1);
        let last = all_cells()[n - 1];
        assert(all_cells().take(n - 1).push(last) =~= all_cells().take(n));
        all_cells().take(n - 1).lemma_filter_push(last, free);
        assert(cell_index(last.0 as int, last.1 as int) == n - 1);
    } else {
        reveal(Seq::filter);
        assert(all_cells().take(0).filter(free) =~= Seq::<(usize, usize)>::empty());
    }
}

/// The list of free cells holds the free cells of the board and nothing
/// else, each of them once, in row-major order.
pub proof fn lemma_free_cells_listing(view: BoardView)
    ensures
        forall|k: int|
            0 <= k < view.free_cells().len() ==> view.is_free(
                (#[trigger] view.free_cells()[k]).0 as int,
                view.free_cells()[k].1 as int,
            ),
        forall|i: int, j: int|
            0 <= i < j < view.free_cells().len() ==> cell_index(
                (#[trigger] view.free_cells()[i]).0 as int,
                view.free_cells()[i].1 as int,
            ) < cell_index(
                (#[trigger] view.free_cells()[j]).0 as int,
                view.free_cells()[j].1 as int,
            ),
        forall|row: int, col: int|
            view.is_free(row, col) ==> #[trigger] view.free_cells().contains(
                (row as usize, col as usize),
            ),
{
    let free = |m: (usize, usize)| view.is_free(m.0 as int, m.1 as int);
    assert forall|k: int| 0 <= k < view.free_cells().len() implies view.is_free(
        (#[trigger] view.free_cells()[k]).0 as int,
        view.free_cells()[k].1 as int,
    ) by {
        lemma_free_cells_are_free(view, k);
    }
    lemma_free_prefix_in_order(view, all_cells().len() as int);
    assert(all_cells().take(all_cells().len() as int) =~= all_cells());
    assert forall|row: int, col: int| view.is_free(row, col) implies #[trigger] view.free_cells().contains(
        (row as usize, col as usize),
    ) by {
        let index = cell_index(row, col);
        assert(all_cells()[index] == (row as usize, col as usize));
        all_cells().lemma_filter_contains(free, index);
    }
}

/// Each entry of the list of free cells is a free cell of the board.
pub proof fn lemma_free_cells_are_free(view: BoardView, k: int)
    requires
        0 <= k < view.free_cells().len(),
    ensures
        view.is_free(view.free_cells()[k].0 as int, view.free_cells()[k].1 as int),
{
    all_cells().lemma_filter_pred(|m: (usize, usize)| view.is_free(m.0 as int, m.1 as int), k);
}

/// A move changes the cell that it claims and no other. It either ends the
/// game and leaves the turn with the winner, or passes the turn on; it ends
/// the game exactly when the new mark lies on a winning run.
pub proof fn lemma_play(view: BoardView, row: int, col: int)
    requires
        view.wf(),
        view.valid_move(row, col),
    ensures
        view.play(row, col).wf(),
        view.play(row, col).at(row, col) == Some(view.turn),
        forall|r: int, c: int|
            in_bounds(r, c) && (r != row || c != col) ==> #[trigger] view.play(row, col).at(r, c)
                == view.at(r, c),
        view.play(row, col).terminated == view.place(row, col).run_through(row, col, view.turn),
        view.play(row, col).terminated ==> view.play(row, col).turn == view.turn,
        !view.play(row, col).terminated ==> view.play(row, col).turn == view.turn.opponent(),
{
}

/// Once the game is over no move is valid.
pub proof fn lemma_no_move_after_the_end(view: BoardView, row: int, col: int)
    requires
        view.terminated,
    ensures
        !view.valid_move(row, col),
{
}

/// Stepping `k` times against an axis is stepping `-k` times along it.
pub proof fn lemma_on_line_reversed(
    view: BoardView,
    row: int,
    col: int,
    d_row: int,
    d_col: int,
    k: int,
    mark: Turn,
)
    ensures
        view.on_line(row, col, -d_row, -d_col, k, mark) == view.on_line(
            row,
            col,
            d_row,
            d_col,
            -k,
            mark,
        ),
{
    assert(k * (-d_row) == (-k) * d_row) by (nonlinear_arith);
    assert(k * (-d_col) == (-k) * d_col) by (nonlinear_arith);
}

/// Counting outward from a cell in both senses of an axis decides whether a
/// winning run passes through the cell. `forward` and `backward` are the
/// lengths of the stretches of `mark` next to the cell, each counted no
/// further than one short of `WINNING_LENGTH`; there is a winning run
/// exactly when they and the cell itself make up `WINNING_LENGTH`. So four
/// marks in a line, with no fifth next to them, do not win.
pub proof fn lemma_runs_decide(
    view: BoardView,
    row: int,
    col: int,
    d_row: int,
    d_col: int,
    mark: Turn,
    forward: int,
    backward: int,
)
    requires
        view.holds(row, col, mark),
        0 <= forward < WINNING_LENGTH,
        0 <= backward < WINNING_LENGTH,
        forall|k: int| 1 <= k <= forward ==> #[trigger] view.on_line(row, col, d_row, d_col, k, mark),
        forward < WINNING_LENGTH - 1 ==> !view.on_line(row, col, d_row, d_col, forward + 1, mark),
        forall|k: int|
            -backward <= k <= -1 ==> #[trigger] view.on_line(row, col, d_row, d_col, k, mark),
        backward < WINNING_LENGTH - 1 ==> !view.on_line(
            row,
            col,
            d_row,
            d_col,
            -backward - 1,
            mark,
        ),
    ensures
        view.run_along(row, col, d_row, d_col, mark) == (1 + forward + backward
            >= WINNING_LENGTH),
{
    assert(view.on_line(row, col, d_row, d_col, 0, mark));
    if 1 + forward + backward >= WINNING_LENGTH {
        assert(view.run_from(row, col, d_row, d_col, -backward, mark));
    }
    if view.run_along(row, col, d_row, d_col, mark) {
        let start = choose|start: int|
            -WINNING_LENGTH < start <= 0 && #[trigger] view.run_from(
                row,
                col,
                d_row,
                d_col,
                start,
                mark,
            );
        if forward < WINNING_LENGTH - 1 && forward + 1 < start + WINNING_LENGTH {
            assert(view.on_line(row, col, d_row, d_col, forward + 1, mark));
        }
        if backward < WINNING_LENGTH - 1 && start <= -backward - 1 {
            assert(view.on_line(row, col, d_row, d_col, -backward - 1, mark));
        }
    }
}

/// The move that completes a winning run wins: if the other cells of some
/// stretch of `WINNING_LENGTH` cells through a free cell, along one of the
/// four axes, hold the mark of the player to move, then claiming the cell
/// ends the game, and the winner keeps the turn.
pub proof fn lemma_completing_a_run_wins(
    view: BoardView,
    row: int,
    col: int,
    d_row: int,
    d_col: int,
    start: int,
)
    requires
        view.wf(),
        view.valid_move(row, col),
        is_axis(d_row, d_col),
        -WINNING_LENGTH < start <= 0,
        forall|k: int|
            start <= k < start + WINNING_LENGTH && k != 0 ==> #[trigger] view.on_line(
                row,
                col,
                d_row,
                d_col,
                k,
                view.turn,
            ),
    ensures
        view.play(row, col).terminated,
        view.play(row, col).turn == view.turn,
{
    let placed = view.place(row, col);
    assert forall|k: int| start <= k < start + WINNING_LENGTH implies #[trigger] placed.on_line(
        row,
        col,
        d_row,
        d_col,
        k,
        view.turn,
    ) by {
        if k != 0 {
            assert(view.on_line(row, col, d_row, d_col, k, view.turn));
            assert(k * 0 == 0 && k * 1 == k && k * (-1) == -k);
        }
    }
    assert(placed.run_from(row, col, d_row, d_col, start, view.turn));
    assert(placed.run_along(row, col, d_row, d_col, view.turn));
}

} // verus!
