//! A five-in-a-row engine on an 8x8 board: a bitboard game state and a
//! depth-limited minimax search with alpha-beta pruning, verified with Verus.
//!
//! The board and its moves are in `gomoku`, the search and the bot in
//! `minmax`. What they compute is stated over a mathematical model: the
//! board and the rules of the game in `board_view`, the score of a position
//! in `evaluation`, the game tree and the two searches in `game_tree`.

mod bits;
pub mod board_view;
pub mod evaluation;
pub mod game_tree;
pub mod gomoku;
pub mod minmax;

pub use board_view::BoardView;
pub use gomoku::{
    build_tictactoeboard, TicTacToeBoard, Turn, BOARD_WIDTH, WINNING_LENGTH, WIN_DIRECTIONS,
};
pub use minmax::{Heuristic, MinMaxNode, MinMaxNodeRole, SimpleBot, TicTacToeBot};
