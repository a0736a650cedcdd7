//! The board: two disjoint 64-bit sets of claimed cells, one per player,
//! the player to move and the termination flag.

use vstd::prelude::*;
use crate::bits::{
    bit_set, lemma_bit_of_not, lemma_bit_of_or, lemma_bit_of_single, lemma_disjoint_symmetric,
    lemma_low_bit, lemma_set_keeps_disjoint, lemma_zero_has_no_bit,
};
use crate::board_view::{
    all_cells, cell_coords, cell_index, lemma_empty_board_is_free, lemma_free_and_occupied,
    lemma_on_line_reversed, lemma_runs_decide, BoardView,
};

verus! {

/// Side length of the square board.
pub const BOARD_WIDTH: usize = 8;

/// The four axes along which a run can be formed, as (row step, column step).
pub const WIN_DIRECTIONS: [[i32; 2]; 4] = [[0, 1], [1, 0], [1, 1], [1, -1]];

/// Number of consecutive marks that wins the game.
pub const WINNING_LENGTH: i32 = 5;

/// Number of cells of the board, which is the number of bits of a set.
const CELL_COUNT: usize = BOARD_WIDTH * BOARD_WIDTH;

/// A player, and at the same time the mark that the player leaves on a cell.
#[derive(Clone, Copy, Debug, PartialEq, Eq, Structural)]
pub enum Turn {
    X,
    O,
}

/// The character that shows the content of a cell.
pub open spec fn mark_char(cell: Option<Turn>) -> char {
    match cell {
        Some(Turn::X) => 'x',
        Some(Turn::O) => 'o',
        None => ' ',
    }
}

impl Turn {
    /// The character that shows this player's mark.
    pub fn to_char(&self) -> (c: char)
        ensures
            c == mark_char(Some(*self)),
    {
        match self {
            Turn::X => 'x',
            Turn::O => 'o',
        }
    }
}

/// The state of a game. Each player has a set of sixty-four bits, and bit
/// `63 - (row * BOARD_WIDTH + col)` of it tells whether the player has
/// claimed the cell `(row, col)`.
#[derive(Clone, Copy, Debug)]
pub struct TicTacToeBoard {
    x_board: u64,
    o_board: u64,
    /// The player who moves next, or the winner once the game is over.
    pub turn: Turn,
    /// Whether the last move completed a winning run.
    pub terminated: bool,
}

impl View for TicTacToeBoard {
    type V = BoardView;

    closed spec fn view(&self) -> BoardView {
        BoardView { cells: self.cells(), turn: self.turn, terminated: self.terminated }
    }
}

impl TicTacToeBoard {
    /// The mark that the two bit sets give to the cell at `index` in
    /// row-major order.
    spec fn mark_at(&self, index: int) -> Option<Turn> {
        if bit_set(self.x_board, (63 - index) as u64) {
            Some(Turn::X)
        } else if bit_set(self.o_board, (63 - index) as u64) {
            Some(Turn::O)
        } else {
            None
        }
    }

    /// The cells of the board in row-major order.
    spec fn cells(&self) -> Seq<Option<Turn>> {
        Seq::new(64, |i: int| self.mark_at(i))
    }

    /// The representation invariant: no cell is claimed by both players.
    pub closed spec fn wf(&self) -> bool {
        self.x_board & self.o_board == 0
    }

    /// The view of every board has all sixty-four cells.
    pub proof fn lemma_view_wf(&self)
        ensures
            self@.wf(),
    {
    }

    /// How far a coordinate is from the last row or column.
    fn get_shift(index: usize) -> (shift: usize)
        requires
            index < BOARD_WIDTH,
        ensures
            shift == BOARD_WIDTH - index - 1,
    {
        BOARD_WIDTH - index - 1
    }

    /// The number of the bit that stands for the cell `(row, col)`: 63 for
    /// the first cell of the first row, 0 for the last cell of the last row.
    fn get_shift_from_row_col(row: usize, col: usize) -> (shift: usize)
        requires
            row < BOARD_WIDTH,
            col < BOARD_WIDTH,
        ensures
            shift == 63 - cell_index(row as int, col as int),
    {
        BOARD_WIDTH * Self::get_shift(row) + Self::get_shift(col)
    }

    /// Whether the player to move may claim `(row, col)`: the cell is free
    /// and the game is not over.
    pub fn valid_move(&self, row: usize, col: usize) -> (ok: bool)
        requires
            row < BOARD_WIDTH,
            col < BOARD_WIDTH,
        ensures
            ok == self@.valid_move(row as int, col as int),
            ok == (self@.at(row as int, col as int) is None && !self@.terminated),
    {
        let shift: u64 = Self::get_shift_from_row_col(row, col) as u64;
        let is_taken: u64 = (self.x_board | self.o_board) >> shift;
        proof {
            lemma_bit_of_or(self.x_board, self.o_board, shift);
            lemma_low_bit(is_taken);
        }
        is_taken & 1 == 0 && !self.terminated
    }

    /// Claims `(row, col)` for the player to move. The game ends when that
    /// completes a winning run; if it does not, the turn passes on.
    /// Returns whether the game has just ended.
    pub fn make_move(&mut self, row: usize, col: usize) -> (won: bool)
        requires
            row < BOARD_WIDTH,
            col < BOARD_WIDTH,
            old(self)@.valid_move(row as int, col as int),
        ensures
            old(self).wf() ==> final(self).wf(),
            final(self)@ == old(self)@.play(row as int, col as int),
            final(self)@.cells == old(self)@.cells.update(
                cell_index(row as int, col as int),
                Some(old(self)@.turn),
            ),
            won == old(self)@.place(row as int, col as int).run_through(
                row as int,
                col as int,
                old(self)@.turn,
            ),
            final(self)@.terminated == won,
            final(self)@.turn == if won {
                old(self)@.turn
            } else {
                old(self)@.turn.opponent()
            },
    {
        let shift: u64 = Self::get_shift_from_row_col(row, col) as u64;
        let ghost before = *self;
        let ghost index = cell_index(row as int, col as int);
        proof {
            lemma_bit_of_or(self.x_board, 1u64 << shift, shift);
            lemma_bit_of_or(self.o_board, 1u64 << shift, shift);
            lemma_bit_of_single(shift, shift);
            assert(before.mark_at(index) == before@.cells[index]);
        }
        match self.turn {
            Turn::X => {
                proof {
                    if self.wf() {
                        lemma_set_keeps_disjoint(self.x_board, self.o_board, shift);
                    }
                }
                self.x_board = self.x_board | (1u64 << shift);
            },
            Turn::O => {
                proof {
                    if self.wf() {
                        lemma_disjoint_symmetric(self.x_board, self.o_board);
                        lemma_set_keeps_disjoint(self.o_board, self.x_board, shift);
                    }
                }
                self.o_board = self.o_board | (1u64 << shift);
            },
        }
        proof {
            assert forall|i: int| 0 <= i < 64 implies self.mark_at(i) == before@.place(
                row as int,
                col as int,
            ).cells[i] by {
                let bit: u64 = (63 - i) as u64;
                lemma_bit_of_or(before.x_board, 1u64 << shift, bit);
                lemma_bit_of_or(before.o_board, 1u64 << shift, bit);
                lemma_bit_of_single(shift, bit);
                assert(before.mark_at(i) == before@.cells[i]);
            }
            assert(self@.cells =~= before@.place(row as int, col as int).cells);
            assert(self@ == before@.place(row as int, col as int));
        }
        let ghost placed = *self;
        if self.check_win(row, col) {
            self.terminated = true;
            assert(self@.cells =~= placed@.cells);
            return true;
        }
        self.turn =
        match self.turn {
            Turn::X => Turn::O,
            Turn::O => Turn::X,
        };
        assert(self@.cells =~= placed@.cells);
        false
    }

    /// The free cells, row by row and from left to right within a row.
    pub fn avaliable_moves(&self) -> (moves: Vec<(usize, usize)>)
        ensures
            moves@ == self@.free_cells(),
            moves@.len() + self@.occupied_count() == BOARD_WIDTH * BOARD_WIDTH,
    {
        let mut moves: Vec<(usize, usize)> = Vec::new();
        let spaces: u64 = !(self.x_board | self.o_board);
        let ghost free = |m: (usize, usize)| self@.is_free(m.0 as int, m.1 as int);
        let mut index: usize = 0;
        proof {
            reveal(Seq::filter);
            assert(all_cells().take(0) =~= Seq::<(usize, usize)>::empty());
        }
        while index < CELL_COUNT
            invariant
                index <= CELL_COUNT,
                spaces == !(self.x_board | self.o_board),
                free == |m: (usize, usize)| self@.is_free(m.0 as int, m.1 as int),
                moves@ == all_cells().take(index as int).filter(free),
            decreases CELL_COUNT - index,
        {
            let shift: u64 = (CELL_COUNT - index - 1) as u64;
            let cell: (usize, usize) = (index / BOARD_WIDTH, index % BOARD_WIDTH);
            proof {
                lemma_bit_of_not(self.x_board | self.o_board, shift);
                lemma_bit_of_or(self.x_board, self.o_board, shift);
                assert(self.mark_at(index as int) == self@.cells[index as int]);
                assert(cell == cell_coords(index as int));
                assert(cell_index(cell.0 as int, cell.1 as int) == index);
                assert(free(cell) == bit_set(spaces, shift));
                assert(all_cells().take(index + 1) =~= all_cells().take(index as int).push(cell));
                all_cells().take(index as int).lemma_filter_push(cell, free);
            }
            if (spaces >> shift) & 1 == 1 {
                moves.push(cell);
            }
            index += 1;
        }
        proof {
            assert(all_cells().take(CELL_COUNT as int) =~= all_cells());
            lemma_free_and_occupied(self@);
        }
        moves
    }

    /// How many cells in a row hold `mark`, going from the neighbour of
    /// `(row, col)` outward in steps of `(d_row, d_col)`: at most one short
    /// of `WINNING_LENGTH`, and fewer where the board ends or another
    /// content comes first.
    fn count_run(&self, row: usize, col: usize, d_row: i32, d_col: i32, mark: Turn) -> (run: i32)
        requires
            row < BOARD_WIDTH,
            col < BOARD_WIDTH,
            -1 <= d_row <= 1,
            -1 <= d_col <= 1,
        ensures
            0 <= run < WINNING_LENGTH,
            forall|k: int|
                1 <= k <= run ==> #[trigger] self@.on_line(
                    row as int,
                    col as int,
                    d_row as int,
                    d_col as int,
                    k,
                    mark,
                ),
            run < WINNING_LENGTH - 1 ==> !self@.on_line(
                row as int,
                col as int,
                d_row as int,
                d_col as int,
                run + 1,
                mark,
            ),
    {
        let wanted: char = mark.to_char();
        let mut run: i32 = 0;
        let mut i: i32 = 1;
        while i < WINNING_LENGTH
            invariant
                1 <= i <= WINNING_LENGTH,
                run == i - 1,
                row < BOARD_WIDTH,
                col < BOARD_WIDTH,
                -1 <= d_row <= 1,
                -1 <= d_col <= 1,
                wanted == mark_char(Some(mark)),
                forall|k: int|
                    1 <= k <= run ==> #[trigger] self@.on_line(
                        row as int,
                        col as int,
                        d_row as int,
                        d_col as int,
                        k,
                        mark,
                    ),
            ensures
                0 <= run < WINNING_LENGTH,
                forall|k: int|
                    1 <= k <= run ==> #[trigger] self@.on_line(
                        row as int,
                        col as int,
                        d_row as int,
                        d_col as int,
                        k,
                        mark,
                    ),
                run < WINNING_LENGTH - 1 ==> !self@.on_line(
                    row as int,
                    col as int,
                    d_row as int,
                    d_col as int,
                    run + 1,
                    mark,
                ),
            decreases WINNING_LENGTH - i,
        {
            assert(-4 <= i * d_row <= 4 && -4 <= i * d_col <= 4) by (nonlinear_arith)
                requires
                    1 <= i <= 4,
                    -1 <= d_row <= 1,
                    -1 <= d_col <= 1,
            ;
            let check_row: i32 = row as i32 + i * d_row;
            let check_col: i32 = col as i32 + i * d_col;
            if check_row < 0 || check_row >= BOARD_WIDTH as i32 || check_col < 0 || check_col
                >= BOARD_WIDTH as i32 {
                break ;
            }
            if self.get_at(check_row as usize, check_col as usize) == wanted {
                run += 1;
            } else {
                break ;
            }
            i += 1;
        }
        run
    }

    /// Whether the mark just placed on `(row, col)` by the player to move
    /// completes a winning run along one of the four axes.
    fn check_win(&self, row: usize, col: usize) -> (won: bool)
        requires
            row < BOARD_WIDTH,
            col < BOARD_WIDTH,
            self@.holds(row as int, col as int, self@.turn),
        ensures
            won == self@.run_through(row as int, col as int, self@.turn),
    {
        let mark: Turn = self.turn;
        let mut d: usize = 0;
        while d < 4
            invariant
                d <= 4,
                row < BOARD_WIDTH,
                col < BOARD_WIDTH,
                mark == self@.turn,
                self@.holds(row as int, col as int, mark),
                d > 0 ==> !self@.run_along(row as int, col as int, 0, 1, mark),
                d > 1 ==> !self@.run_along(row as int, col as int, 1, 0, mark),
                d > 2 ==> !self@.run_along(row as int, col as int, 1, 1, mark),
                d > 3 ==> !self@.run_along(row as int, col as int, 1, -1, mark),
            decreases 4 - d,
        {
            let up: i32 = WIN_DIRECTIONS[d][0];
            let right: i32 = WIN_DIRECTIONS[d][1];
            let forward: i32 = self.count_run(row, col, up, right, mark);
            let backward: i32 = self.count_run(row, col, -up, -right, mark);
            proof {
                assert forall|k: int| -backward <= k <= -1 implies #[trigger] self@.on_line(
                    row as int,
                    col as int,
                    up as int,
                    right as int,
                    k,
                    mark,
                ) by {
                    lemma_on_line_reversed(
                        self@,
                        row as int,
                        col as int,
                        up as int,
                        right as int,
                        -k,
                        mark,
                    );
                    assert(self@.on_line(
                        row as int,
                        col as int,
                        -up as int,
                        -right as int,
                        -k,
                        mark,
                    ));
                }
                lemma_on_line_reversed(
                    self@,
                    row as int,
                    col as int,
                    up as int,
                    right as int,
                    backward + 1,
                    mark,
                );
                lemma_runs_decide(
                    self@,
                    row as int,
                    col as int,
                    up as int,
                    right as int,
                    mark,
                    forward as int,
                    backward as int,
                );
            }
            if 1 + forward + backward >= WINNING_LENGTH {
                return true;
            }
            d += 1;
        }
        false
    }

    /// The player who moves next, or the winner once the game is over.
    pub fn current_turn(&self) -> (turn: Turn)
        ensures
            turn == self@.turn,
    {
        self.turn
    }

    /// Whether the game is over.
    pub fn is_terminated(&self) -> (over: bool)
        ensures
            over == self@.terminated,
    {
        self.terminated
    }

    /// The content of the cell `(row, col)`: `'x'`, `'o'`, or a blank for a
    /// free cell.
    pub fn get_at(&self, row: usize, col: usize) -> (c: char)
        requires
            row < BOARD_WIDTH,
            col < BOARD_WIDTH,
        ensures
            c == mark_char(self@.at(row as int, col as int)),
    {
        let shift: u64 = Self::get_shift_from_row_col(row, col) as u64;
        let has_x: u64 = self.x_board >> shift;
        let has_o: u64 = self.o_board >> shift;
        if has_x & 1 == 1 {
            'x'
        } else if has_o & 1 == 1 {
            'o'
        } else {
            ' '
        }
    }
}

/// The board before the first move: every cell free, x to move.
pub fn build_tictactoeboard() -> (board: TicTacToeBoard)
    ensures
        board.wf(),
        board@ == BoardView::empty(),
        board@.free_cells().len() == BOARD_WIDTH * BOARD_WIDTH,
{
    let board = TicTacToeBoard { x_board: 0, o_board: 0, turn: Turn::X, terminated: false };
    proof {
        assert(0u64 & 0u64 == 0) by (bit_vector);
        assert forall|i: int| 0 <= i < 64 implies board.mark_at(i) == None::<Turn> by {
            lemma_zero_has_no_bit((63 - i) as u64);
        }
        assert(board@.cells =~= BoardView::empty().cells);
        lemma_empty_board_is_free();
    }
    board
}

} // verus!
