//! The score of a board for one player, stated over the model: every row,
//! column and diagonal is read cell by cell with a running counter, and each
//! time the counter stands at three in favour of one side that side gains a
//! point.

use vstd::prelude::*;
use crate::board_view::{in_bounds, BoardView};
use crate::gomoku::{Turn, BOARD_WIDTH};

verus! {

/// A stretch of cells: `len` cells from `(row, col)` in steps of
/// `(d_row, d_col)`.
pub struct Line {
    pub row: int,
    pub col: int,
    pub d_row: int,
    pub d_col: int,
    pub len: nat,
}

impl Line {
    /// The cell at step `i`.
    pub open spec fn at_step(self, i: int) -> (int, int) {
        (self.row + i * self.d_row, self.col + i * self.d_col)
    }

    /// Whether the first `n` cells lie on the board.
    pub open spec fn fits(self, n: nat) -> bool {
        forall|i: int| 0 <= i < n ==> in_bounds(#[trigger] self.at_step(i).0, self.at_step(i).1)
    }

    /// The content of the cell at step `i`.
    pub open spec fn cell(self, view: BoardView, i: int) -> Option<Turn> {
        view.at(self.at_step(i).0, self.at_step(i).1)
    }
}

/// The running counter after one more cell: a cell of `player` raises it, a
/// cell of the opponent lowers it, a free cell sets it back to zero.
pub open spec fn run_step(count: int, cell: Option<Turn>, player: Turn) -> int {
    match cell {
        None => 0,
        Some(mark) => if mark == player {
            count + 1
        } else {
            count - 1
        },
    }
}

/// The running counter after the first `n` cells of `line`.
pub open spec fn run_count(view: BoardView, player: Turn, line: Line, n: nat) -> int
    decreases n,
{
    if n == 0 {
        0
    } else {
        run_step(run_count(view, player, line, (n - 1) as nat), line.cell(view, n - 1), player)
    }
}

/// What a counter value is worth: a point for `player` at three, a point
/// for the opponent at minus three.
pub open spec fn hit(count: int) -> int {
    if count == 3 {
        1
    } else if count == -3 {
        -1
    } else {
        0
    }
}

/// The points gathered along the first `n` cells of `line`.
pub open spec fn line_score(view: BoardView, player: Turn, line: Line, n: nat) -> int
    decreases n,
{
    if n == 0 {
        0
    } else {
        line_score(view, player, line, (n - 1) as nat) + hit(run_count(view, player, line, n))
    }
}

/// How many cells lie between a coordinate and the edge that `step` leads to,
/// the cell at the coordinate included; a coordinate that does not move never
/// reaches an edge.
pub open spec fn steps_to_edge(pos: int, step: int) -> int {
    if step > 0 {
        BOARD_WIDTH - pos
    } else if step < 0 {
        pos + 1
    } else {
        BOARD_WIDTH as int
    }
}

/// The line that starts at `start` and runs in steps of `(d_row, d_col)` to
/// the edge of the board.
pub open spec fn line_to_edge(start: (usize, usize), d_row: int, d_col: int) -> Line {
    let rows = steps_to_edge(start.0 as int, d_row);
    let cols = steps_to_edge(start.1 as int, d_col);
    Line {
        row: start.0 as int,
        col: start.1 as int,
        d_row,
        d_col,
        len: (if rows <= cols {
            rows
        } else {
            cols
        }) as nat,
    }
}

/// The points gathered on the lines that run from the first `n` of `starts`
/// to the edge in steps of `(d_row, d_col)`.
pub open spec fn family_score(
    view: BoardView,
    player: Turn,
    starts: Seq<(usize, usize)>,
    d_row: int,
    d_col: int,
    n: nat,
) -> int
    decreases n,
{
    if n == 0 {
        0
    } else {
        let line = line_to_edge(starts[n - 1], d_row, d_col);
        family_score(view, player, starts, d_row, d_col, (n - 1) as nat) + line_score(
            view,
            player,
            line,
            line.len,
        )
    }
}

/// The pairs of `row` and a column from `cols_lo .. cols_hi`, in the order
/// of the columns.
pub open spec fn grid_row(row: int, cols_lo: int, cols_hi: int) -> Seq<(usize, usize)> {
    Seq::new(
        (if cols_hi > cols_lo {
            cols_hi - cols_lo
        } else {
            0
        }) as nat,
        |j: int| (row as usize, (cols_lo + j) as usize),
    )
}

/// The pairs of a row from `rows_lo .. rows_hi` and a column from
/// `cols_lo .. cols_hi`: for each row in turn, every column in turn.
pub open spec fn grid(rows_lo: int, rows_hi: int, cols_lo: int, cols_hi: int) -> Seq<
    (usize, usize),
>
    decreases rows_hi - rows_lo,
{
    if rows_hi <= rows_lo {
        Seq::empty()
    } else {
        grid(rows_lo, rows_hi - 1, cols_lo, cols_hi) + grid_row(rows_hi - 1, cols_lo, cols_hi)
    }
}

/// The leftmost cell of every row.
pub open spec fn left_border() -> Seq<(usize, usize)> {
    grid(0, BOARD_WIDTH as int, 0, 1)
}

/// The topmost cell of every column.
pub open spec fn top_border() -> Seq<(usize, usize)> {
    grid(0, 1, 0, BOARD_WIDTH as int)
}

/// Where the diagonals that run down and to the right begin: on the left
/// border and on the top border, the shared corner taken once.
pub open spec fn diagonal_starts() -> Seq<(usize, usize)> {
    grid(0, BOARD_WIDTH as int, 0, 1) + grid(0, 1, 1, BOARD_WIDTH as int)
}

/// Where the diagonals that run up and to the right begin: on the left
/// border and on the bottom border, the shared corner taken once.
pub open spec fn anti_diagonal_starts() -> Seq<(usize, usize)> {
    grid(0, BOARD_WIDTH as int, 0, 1) + grid(
        BOARD_WIDTH - 1,
        BOARD_WIDTH as int,
        1,
        BOARD_WIDTH as int,
    )
}

/// The score of a position for `player` while the game is on: the points of
/// all rows, all columns and all diagonals of both kinds.
pub open spec fn position_score(view: BoardView, player: Turn) -> int {
    family_score(view, player, left_border(), 0, 1, left_border().len())
    + family_score(view, player, top_border(), 1, 0, top_border().len())
    + family_score(view, player, diagonal_starts(), 1, 1, diagonal_starts().len())
    + family_score(view, player, anti_diagonal_starts(), -1, 1, anti_diagonal_starts().len())
}

/// The score of a board for `player`: the highest score if `player` has won,
/// the lowest if the opponent has, and the positional score otherwise.
pub open spec fn evaluate(view: BoardView, player: Turn) -> int {
    if view.terminated {
        if view.turn == player {
            i32::MAX as int
        } else {
            i32::MIN as int
        }
    } else {
        position_score(view, player)
    }
}

/// Which lines are read: one from the left end of each row, one from the top
/// of each column, and one from each cell of the two borders that a
/// diagonal of either kind can begin on.
pub proof fn lemma_line_starts()
    ensures
        left_border().len() == BOARD_WIDTH,
        forall|r: int|
            0 <= r < BOARD_WIDTH ==> #[trigger] left_border()[r] == (r as usize, 0usize),
        top_border().len() == BOARD_WIDTH,
        forall|c: int| 0 <= c < BOARD_WIDTH ==> #[trigger] top_border()[c] == (0usize, c as usize),
        diagonal_starts().len() == 2 * BOARD_WIDTH - 1,
        forall|i: int|
            0 <= i < BOARD_WIDTH ==> #[trigger] diagonal_starts()[i] == (i as usize, 0usize),
        forall|i: int|
            BOARD_WIDTH <= i < 2 * BOARD_WIDTH - 1 ==> #[trigger] diagonal_starts()[i] == (
                0usize,
                (i - BOARD_WIDTH + 1) as usize,
            ),
        anti_diagonal_starts().len() == 2 * BOARD_WIDTH - 1,
        forall|i: int|
            0 <= i < BOARD_WIDTH ==> #[trigger] anti_diagonal_starts()[i] == (i as usize, 0usize),
        forall|i: int|
            BOARD_WIDTH <= i < 2 * BOARD_WIDTH - 1 ==> #[trigger] anti_diagonal_starts()[i] == (
                (BOARD_WIDTH - 1) as usize,
                (i - BOARD_WIDTH + 1) as usize,
            ),
{
    reveal_with_fuel(grid, 9);
    assert(grid(0, 8, 0, 1).len() == 8);
    assert(grid(0, 1, 0, 8).len() == 8);
    assert(grid(0, 1, 1, 8).len() == 7);
    assert(grid(7, 8, 1, 8).len() == 7);
    assert forall|i: int| 8 <= i < 15 implies #[trigger] diagonal_starts()[i] == (
        0usize,
        (i - 7) as usize,
    ) by {
        assert(diagonal_starts()[i] == grid(0, 1, 1, 8)[i - 8]);
    }
    assert forall|i: int| 8 <= i < 15 implies #[trigger] anti_diagonal_starts()[i] == (
        7usize,
        (i - 7) as usize,
    ) by {
        assert(anti_diagonal_starts()[i] == grid(7, 8, 1, 8)[i - 8]);
    }
}

/// Whether the `j`-th cell of the line from the `i`-th of `starts` to the
/// edge is `(row, col)`.
pub open spec fn reads(
    starts: Seq<(usize, usize)>,
    d_row: int,
    d_col: int,
    i: int,
    j: int,
    row: int,
    col: int,
) -> bool {
    &&& 0 <= i < starts.len()
    &&& 0 <= j < line_to_edge(starts[i], d_row, d_col).len
    &&& line_to_edge(starts[i], d_row, d_col).at_step(j) == (row, col)
}

/// Whether exactly one line of a family passes through `(row, col)`, and
/// that one once.
pub open spec fn read_once(
    starts: Seq<(usize, usize)>,
    d_row: int,
    d_col: int,
    row: int,
    col: int,
) -> bool {
    exists|i: int, j: int|
        {
            &&& #[trigger] reads(starts, d_row, d_col, i, j, row, col)
            &&& forall|i2: int, j2: int| #[trigger]
                reads(starts, d_row, d_col, i2, j2, row, col) ==> i2 == i && j2 == j
        }
}

/// No line is left out and none is read twice: each cell of the board is
/// read once with its row, once with its column, and once with its
/// diagonal of either kind.
pub proof fn lemma_every_cell_is_read_once(row: int, col: int)
    requires
        in_bounds(row, col),
    ensures
        read_once(left_border(), 0, 1, row, col),
        read_once(top_border(), 1, 0, row, col),
        read_once(diagonal_starts(), 1, 1, row, col),
        read_once(anti_diagonal_starts(), -1, 1, row, col),
{
    lemma_line_starts();
    lemma_read_once(left_border(), 0, 1, row, col, row, col);
    lemma_read_once(top_border(), 1, 0, col, row, row, col);
    if row >= col {
        lemma_read_once(diagonal_starts(), 1, 1, row - col, col, row, col);
    } else {
        lemma_read_once(diagonal_starts(), 1, 1, col - row + BOARD_WIDTH - 1, row, row, col);
    }
    if row + col < BOARD_WIDTH {
        lemma_read_once(anti_diagonal_starts(), -1, 1, row + col, col, row, col);
    } else {
        lemma_read_once(
            anti_diagonal_starts(),
            -1,
            1,
            row + col,
            BOARD_WIDTH - 1 - row,
            row,
            col,
        );
    }
}

/// Whether a line in steps of `(d_row, d_col)` can begin at `start`: the
/// cell before it is off the board.
pub open spec fn begins_line(start: (usize, usize), d_row: int, d_col: int) -> bool {
    in_bounds(start.0 as int, start.1 as int) && !in_bounds(start.0 - d_row, start.1 - d_col)
}

/// In a family of lines that begin at different cells, each with the cell
/// before it off the board, the line and the step that read a cell are the
/// only ones that do.
proof fn lemma_read_once(
    starts: Seq<(usize, usize)>,
    d_row: int,
    d_col: int,
    i: int,
    j: int,
    row: int,
    col: int,
)
    requires
        in_bounds(row, col),
        -1 <= d_row <= 1,
        -1 <= d_col <= 1,
        0 <= i < starts.len(),
        0 <= j < line_to_edge(starts[i], d_row, d_col).len,
        starts[i].0 == row - j * d_row,
        starts[i].1 == col - j * d_col,
        forall|k: int| 0 <= k < starts.len() ==> begins_line(#[trigger] starts[k], d_row, d_col),
        forall|k: int, l: int|
            0 <= k < starts.len() && 0 <= l < starts.len() && #[trigger] starts[k]
                == #[trigger] starts[l] ==> k == l,
    ensures
        read_once(starts, d_row, d_col, row, col),
{
    assert(j * 0 == 0 && j * 1 == j && j * (-1) == -j);
    assert(begins_line(starts[i], d_row, d_col));
    assert(reads(starts, d_row, d_col, i, j, row, col));
    assert forall|i2: int, j2: int| #[trigger]
        reads(starts, d_row, d_col, i2, j2, row, col) implies i2 == i && j2 == j by {
        assert(j2 * 0 == 0 && j2 * 1 == j2 && j2 * (-1) == -j2);
        assert(begins_line(starts[i2], d_row, d_col));
        assert(starts[i2].0 == row - j2 * d_row);
        assert(starts[i2].1 == col - j2 * d_col);
        assert(j2 == j);
        assert(starts[i2] == starts[i]);
    }
}

/// The counter moves by at most one per cell, and so do the points.
pub proof fn lemma_line_score_bounds(view: BoardView, player: Turn, line: Line, n: nat)
    ensures
        -n <= run_count(view, player, line, n) <= n,
        -n <= line_score(view, player, line, n) <= n,
    decreases n,
{
    if n > 0 {
        lemma_line_score_bounds(view, player, line, (n - 1) as nat);
    }
}

/// A family of lines gathers no more points per line than a line has cells.
pub proof fn lemma_family_score_bounds(
    view: BoardView,
    player: Turn,
    starts: Seq<(usize, usize)>,
    d_row: int,
    d_col: int,
    n: nat,
)
    requires
        n <= starts.len(),
        forall|i: int| 0 <= i < starts.len() ==> in_bounds(starts[i].0 as int, starts[i].1 as int),
    ensures
        -BOARD_WIDTH * n <= family_score(view, player, starts, d_row, d_col, n) <= BOARD_WIDTH
            * n,
    decreases n,
{
    if n > 0 {
        lemma_family_score_bounds(view, player, starts, d_row, d_col, (n - 1) as nat);
        let line = line_to_edge(starts[n - 1], d_row, d_col);
        lemma_line_score_bounds(view, player, line, line.len);
    }
}

/// The score of a board always fits the machine integer that carries it;
/// while the game is on it is far from the two scores of a finished game.
pub proof fn lemma_evaluate_bounds(view: BoardView, player: Turn)
    ensures
        i32::MIN <= evaluate(view, player) <= i32::MAX,
        -368 <= position_score(view, player) <= 368,
{
    lemma_line_starts();
    lemma_family_score_bounds(view, player, left_border(), 0, 1, 8);
    lemma_family_score_bounds(view, player, top_border(), 1, 0, 8);
    lemma_family_score_bounds(view, player, diagonal_starts(), 1, 1, 15);
    lemma_family_score_bounds(view, player, anti_diagonal_starts(), -1, 1, 15);
}

/// A line that runs from a cell of the board to the edge stays on the board.
pub proof fn lemma_line_to_edge_fits(start: (usize, usize), d_row: int, d_col: int)
    requires
        in_bounds(start.0 as int, start.1 as int),
        -1 <= d_row <= 1,
        -1 <= d_col <= 1,
    ensures
        line_to_edge(start, d_row, d_col).len <= BOARD_WIDTH,
        line_to_edge(start, d_row, d_col).fits(line_to_edge(start, d_row, d_col).len),
{
    let line = line_to_edge(start, d_row, d_col);
    assert forall|i: int| 0 <= i < line.len implies in_bounds(
        #[trigger] line.at_step(i).0,
        line.at_step(i).1,
    ) by {
        assert(i * 0 == 0 && i * 1 == i && i * (-1) == -i);
    }
}

/// Along a line the opponent's counter and points are the negatives of the
/// player's.
pub proof fn lemma_line_score_of_opponent(view: BoardView, player: Turn, line: Line, n: nat)
    ensures
        run_count(view, player.opponent(), line, n) == -run_count(view, player, line, n),
        line_score(view, player.opponent(), line, n) == -line_score(view, player, line, n),
    decreases n,
{
    if n > 0 {
        lemma_line_score_of_opponent(view, player, line, (n - 1) as nat);
    }
}

/// Over a family of lines the opponent's points are the negative of the
/// player's.
pub proof fn lemma_family_score_of_opponent(
    view: BoardView,
    player: Turn,
    starts: Seq<(usize, usize)>,
    d_row: int,
    d_col: int,
    n: nat,
)
    ensures
        family_score(view, player.opponent(), starts, d_row, d_col, n) == -family_score(
            view,
            player,
            starts,
            d_row,
            d_col,
            n,
        ),
    decreases n,
{
    if n > 0 {
        lemma_family_score_of_opponent(view, player, starts, d_row, d_col, (n - 1) as nat);
        let line = line_to_edge(starts[n - 1], d_row, d_col);
        lemma_line_score_of_opponent(view, player, line, line.len);
    }
}

/// The two players see a position with opposite signs: while the game is
/// on, the score for the opponent is the negative of the score for the
/// player; once it is over, one of them has the highest score and the other
/// the lowest.
pub proof fn lemma_score_of_opponent(view: BoardView, player: Turn)
    ensures
        position_score(view, player.opponent()) == -position_score(view, player),
        !view.terminated ==> evaluate(view, player.opponent()) == -evaluate(view, player),
        view.terminated && view.turn == player ==> evaluate(view, player) == i32::MAX && evaluate(
            view,
            player.opponent(),
        ) == i32::MIN,
        view.terminated && view.turn != player ==> evaluate(view, player) == i32::MIN && evaluate(
            view,
            player.opponent(),
        ) == i32::MAX,
{
    lemma_family_score_of_opponent(view, player, left_border(), 0, 1, left_border().len());
    lemma_family_score_of_opponent(view, player, top_border(), 1, 0, top_border().len());
    lemma_family_score_of_opponent(
        view,
        player,
        diagonal_starts(),
        1,
        1,
        diagonal_starts().len(),
    );
    lemma_family_score_of_opponent(
        view,
        player,
        anti_diagonal_starts(),
        -1,
        1,
        anti_diagonal_starts().len(),
    );
}

/// A cell with the mark on it exchanged for the other player's.
pub open spec fn swap_mark(cell: Option<Turn>) -> Option<Turn> {
    match cell {
        None => None,
        Some(mark) => Some(mark.opponent()),
    }
}

impl BoardView {
    /// The same position with the two players exchanged: every mark becomes
    /// the other player's, and so does the turn.
    pub open spec fn swapped(self) -> BoardView {
        BoardView {
            cells: Seq::new(self.cells.len(), |i: int| swap_mark(self.cells[i])),
            turn: self.turn.opponent(),
            terminated: self.terminated,
        }
    }
}

/// Along a line on the board, exchanging the marks and the player at once
/// changes neither the counter nor the points.
pub proof fn lemma_line_score_of_swapped(view: BoardView, player: Turn, line: Line, n: nat)
    requires
        view.wf(),
        line.fits(n),
    ensures
        run_count(view.swapped(), player.opponent(), line, n) == run_count(view, player, line, n),
        line_score(view.swapped(), player.opponent(), line, n) == line_score(
            view,
            player,
            line,
            n,
        ),
    decreases n,
{
    if n > 0 {
        lemma_line_score_of_swapped(view, player, line, (n - 1) as nat);
        let cell = line.at_step(n - 1);
        assert(in_bounds(cell.0, cell.1));
        assert(line.cell(view.swapped(), n - 1) == swap_mark(line.cell(view, n - 1)));
    }
}

/// Over a family of lines from cells of the board, exchanging the marks and
/// the player at once does not change the points.
pub proof fn lemma_family_score_of_swapped(
    view: BoardView,
    player: Turn,
    starts: Seq<(usize, usize)>,
    d_row: int,
    d_col: int,
    n: nat,
)
    requires
        view.wf(),
        n <= starts.len(),
        forall|i: int| 0 <= i < starts.len() ==> in_bounds(starts[i].0 as int, starts[i].1 as int),
        -1 <= d_row <= 1,
        -1 <= d_col <= 1,
    ensures
        family_score(view.swapped(), player.opponent(), starts, d_row, d_col, n) == family_score(
            view,
            player,
            starts,
            d_row,
            d_col,
            n,
        ),
    decreases n,
{
    if n > 0 {
        lemma_family_score_of_swapped(view, player, starts, d_row, d_col, (n - 1) as nat);
        let line = line_to_edge(starts[n - 1], d_row, d_col);
        lemma_line_to_edge_fits(starts[n - 1], d_row, d_col);
        lemma_line_score_of_swapped(view, player, line, line.len);
    }
}

/// The score does not depend on which player is called which: the opponent
/// scores the board with the marks exchanged as the player scores the board.
pub proof fn lemma_score_of_swapped(view: BoardView, player: Turn)
    requires
        view.wf(),
    ensures
        position_score(view.swapped(), player.opponent()) == position_score(view, player),
        evaluate(view.swapped(), player.opponent()) == evaluate(view, player),
{
    lemma_line_starts();
    lemma_family_score_of_swapped(view, player, left_border(), 0, 1, 8);
    lemma_family_score_of_swapped(view, player, top_border(), 1, 0, 8);
    lemma_family_score_of_swapped(view, player, diagonal_starts(), 1, 1, 15);
    lemma_family_score_of_swapped(view, player, anti_diagonal_starts(), -1, 1, 15);
}

} // verus!
