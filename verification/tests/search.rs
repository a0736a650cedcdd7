use minmax_bots::board_view::BoardView;
use minmax_bots::gomoku::{build_tictactoeboard, TicTacToeBoard, Turn, BOARD_WIDTH};
use minmax_bots::minmax::{search, Heuristic, MinMaxNodeRole, SimpleBot, TicTacToeBot};

fn board_after(moves: &[(usize, usize)]) -> TicTacToeBoard {
    let mut board = build_tictactoeboard();
    for &(row, col) in moves {
        assert!(board.valid_move(row, col));
        assert!(!board.make_move(row, col));
    }
    board
}

/// The moves that fill the board without a run of five, the two players
/// alternating, in the order in which they are played.
fn filling_moves() -> Vec<(usize, usize)> {
    let mut first: Vec<(usize, usize)> = Vec::new();
    let mut second: Vec<(usize, usize)> = Vec::new();
    for row in 0..8 {
        for col in 0..8 {
            if (row + col / 2) % 2 == 0 {
                first.push((row, col));
            } else {
                second.push((row, col));
            }
        }
    }
    let mut moves = Vec::new();
    for index in 0..32 {
        moves.push(first[index]);
        moves.push(second[index]);
    }
    moves
}

/// The search without pruning: every child of every node is looked at, and
/// the first of the best moves is kept.
fn full_search<B: Heuristic>(
    bot: &B,
    state: &TicTacToeBoard,
    depth: i32,
    maximizing: bool,
) -> (i32, (usize, usize)) {
    let moves = state.avaliable_moves();
    if depth == 0 || state.terminated || moves.is_empty() {
        return (bot.heuristic(state), (BOARD_WIDTH, BOARD_WIDTH));
    }
    let mut score = if maximizing { i32::MIN } else { i32::MAX };
    let mut action = moves[0];
    for (row, col) in moves {
        let mut next = state.clone();
        next.make_move(row, col);
        let (value, _) = full_search(bot, &next, depth - 1, !maximizing);
        if (maximizing && value > score) || (!maximizing && value < score) {
            score = value;
            action = (row, col);
        }
    }
    (score, action)
}

/// A bot with another taste: it likes its own marks far from the first
/// cell and the opponent's marks near it.
struct WeighingBot {
    turn: Turn,
}

impl Heuristic for WeighingBot {
    fn heuristic_spec(&self, _state: BoardView) -> i32 {
        unreachable!()
    }

    fn turn_spec(&self) -> Turn {
        unreachable!()
    }

    fn heuristic(&self, state: &TicTacToeBoard) -> i32 {
        let own = self.turn.to_char();
        let mut score: i32 = 0;
        for row in 0..BOARD_WIDTH {
            for col in 0..BOARD_WIDTH {
                let weight = ((row * 5 + col * 3) % 11) as i32 - 4;
                let mark = state.get_at(row, col);
                if mark == own {
                    score += weight;
                } else if mark != ' ' {
                    score -= weight;
                }
            }
        }
        score
    }

    fn turn(&self) -> &Turn {
        &self.turn
    }
}

impl TicTacToeBot for WeighingBot {}

#[test]
fn the_empty_board_scores_zero() {
    let board = build_tictactoeboard();
    assert_eq!(SimpleBot { turn: Turn::X }.heuristic(&board), 0);
    assert_eq!(SimpleBot { turn: Turn::O }.heuristic(&board), 0);
}

#[test]
fn the_bot_knows_its_player() {
    assert_eq!(*SimpleBot { turn: Turn::X }.turn(), Turn::X);
    assert_eq!(*SimpleBot { turn: Turn::O }.turn(), Turn::O);
}

#[test]
fn three_in_a_row_is_worth_a_point() {
    let board = board_after(&[(0, 0), (7, 7), (0, 1), (5, 5), (0, 2)]);
    assert_eq!(SimpleBot { turn: Turn::X }.heuristic(&board), 1);
    assert_eq!(SimpleBot { turn: Turn::O }.heuristic(&board), -1);
}

#[test]
fn threes_of_both_players_cancel() {
    let board = board_after(&[(0, 0), (7, 7), (0, 1), (7, 6), (0, 2), (7, 5)]);
    assert_eq!(SimpleBot { turn: Turn::X }.heuristic(&board), 0);
    assert_eq!(SimpleBot { turn: Turn::O }.heuristic(&board), 0);
}

#[test]
fn a_counter_that_comes_back_to_three_counts_again() {
    let board = board_after(&[(3, 0), (0, 7), (3, 1), (7, 0), (3, 2), (7, 7), (3, 3), (3, 4)]);
    assert_eq!(SimpleBot { turn: Turn::X }.heuristic(&board), 2);
    assert_eq!(SimpleBot { turn: Turn::O }.heuristic(&board), -2);
}

#[test]
fn a_three_at_the_end_of_the_main_diagonal_counts_once() {
    let board = board_after(&[(5, 5), (0, 0), (6, 6), (0, 2), (7, 7)]);
    assert_eq!(SimpleBot { turn: Turn::X }.heuristic(&board), 1);
    assert_eq!(SimpleBot { turn: Turn::O }.heuristic(&board), -1);
}

#[test]
fn a_three_on_a_diagonal_from_the_top_border_counts() {
    let board = board_after(&[(0, 3), (7, 0), (1, 4), (5, 0), (2, 5)]);
    assert_eq!(SimpleBot { turn: Turn::X }.heuristic(&board), 1);
    assert_eq!(SimpleBot { turn: Turn::O }.heuristic(&board), -1);
}

#[test]
fn a_three_on_a_diagonal_from_the_bottom_border_counts() {
    let board = board_after(&[(7, 1), (0, 0), (6, 2), (0, 2), (5, 3)]);
    assert_eq!(SimpleBot { turn: Turn::X }.heuristic(&board), 1);
    assert_eq!(SimpleBot { turn: Turn::O }.heuristic(&board), -1);
}

#[test]
fn a_won_game_scores_the_extremes() {
    let mut board =
        board_after(&[(0, 0), (7, 0), (0, 1), (7, 2), (0, 2), (7, 4), (0, 3), (7, 6)]);
    assert!(board.make_move(0, 4));
    assert_eq!(SimpleBot { turn: Turn::X }.heuristic(&board), i32::MAX);
    assert_eq!(SimpleBot { turn: Turn::O }.heuristic(&board), i32::MIN);
}

#[test]
fn the_other_player_scores_the_negated_position() {
    let games: [&[(usize, usize)]; 4] = [
        &[(0, 0), (7, 7), (0, 1), (5, 5), (0, 2)],
        &[(3, 3), (3, 4), (4, 3), (4, 4), (2, 3), (5, 3), (2, 4)],
        &[(3, 0), (0, 7), (3, 1), (7, 0), (3, 2), (7, 7), (3, 3), (3, 4)],
        &[(7, 1), (0, 0), (6, 2), (0, 2), (5, 3), (0, 1)],
    ];
    for moves in games {
        let board = board_after(moves);
        let for_x = SimpleBot { turn: Turn::X }.heuristic(&board);
        let for_o = SimpleBot { turn: Turn::O }.heuristic(&board);
        assert_eq!(for_o, -for_x);
    }
}

#[test]
fn swapping_marks_and_player_keeps_the_score() {
    let board = board_after(&[(3, 0), (0, 7), (3, 1), (7, 0), (3, 2), (7, 7), (3, 3), (3, 4)]);
    let swapped = board_after(&[(0, 7), (3, 0), (7, 0), (3, 1), (7, 7), (3, 2), (3, 4), (3, 3)]);
    for row in 0..BOARD_WIDTH {
        for col in 0..BOARD_WIDTH {
            let expected = match board.get_at(row, col) {
                'x' => 'o',
                'o' => 'x',
                other => other,
            };
            assert_eq!(swapped.get_at(row, col), expected);
        }
    }
    assert_eq!(SimpleBot { turn: Turn::X }.heuristic(&board), 2);
    assert_eq!(SimpleBot { turn: Turn::O }.heuristic(&swapped), 2);
    assert_eq!(SimpleBot { turn: Turn::O }.heuristic(&board), -2);
    assert_eq!(SimpleBot { turn: Turn::X }.heuristic(&swapped), -2);
}

#[test]
fn depth_zero_returns_the_heuristic_and_no_move() {
    let board = board_after(&[(0, 0), (7, 7), (0, 1), (5, 5), (0, 2)]);
    assert_eq!(SimpleBot { turn: Turn::X }.make_move(&board, 0), (1, (8, 8)));
    assert_eq!(SimpleBot { turn: Turn::O }.make_move(&board, 0), (-1, (8, 8)));
}

#[test]
fn a_finished_game_returns_the_heuristic_and_no_move() {
    let mut board =
        board_after(&[(0, 0), (7, 0), (0, 1), (7, 2), (0, 2), (7, 4), (0, 3), (7, 6)]);
    assert!(board.make_move(0, 4));
    assert_eq!(SimpleBot { turn: Turn::X }.make_move(&board, 3), (i32::MAX, (8, 8)));
    assert_eq!(SimpleBot { turn: Turn::O }.make_move(&board, 3), (i32::MIN, (8, 8)));
}

#[test]
fn a_full_board_returns_the_heuristic_and_no_move() {
    let board = board_after(&filling_moves());
    assert!(board.avaliable_moves().is_empty());
    assert!(!board.terminated);
    assert_eq!(SimpleBot { turn: Turn::X }.heuristic(&board), 0);
    assert_eq!(SimpleBot { turn: Turn::X }.make_move(&board, 2), (0, (8, 8)));
    assert_eq!(SimpleBot { turn: Turn::O }.make_move(&board, 4), (0, (8, 8)));
}

#[test]
fn equal_scores_keep_the_first_move() {
    let board = build_tictactoeboard();
    assert_eq!(SimpleBot { turn: Turn::X }.make_move(&board, 1), (0, (0, 0)));
    assert_eq!(SimpleBot { turn: Turn::O }.make_move(&board, 1), (0, (0, 0)));
    let board = board_after(&[(5, 5)]);
    assert_eq!(SimpleBot { turn: Turn::O }.make_move(&board, 1), (0, (0, 0)));
    assert_eq!(SimpleBot { turn: Turn::O }.make_move(&board, 2), (0, (0, 0)));
}

#[test]
fn an_immediate_win_is_taken() {
    let board =
        board_after(&[(7, 0), (2, 1), (7, 2), (2, 2), (7, 4), (2, 3), (7, 6), (2, 4), (5, 7)]);
    assert_eq!(board.turn, Turn::O);
    let bot = SimpleBot { turn: Turn::O };
    assert_eq!(bot.make_move(&board, 1), (i32::MAX, (2, 0)));
    assert_eq!(bot.make_move(&board, 2), (i32::MAX, (2, 0)));
    let mut after = board.clone();
    assert!(after.make_move(2, 0));
    assert!(after.terminated);
}

#[test]
fn a_threat_is_answered() {
    let board = board_after(&[(3, 3), (3, 4), (4, 3), (4, 4), (2, 3), (5, 3), (2, 4)]);
    assert_eq!(board.turn, Turn::O);
    let bot = SimpleBot { turn: Turn::O };
    assert_eq!(bot.heuristic(&board), -1);
    assert_eq!(bot.make_move(&board, 1), (0, (1, 3)));
    assert_eq!(bot.make_move(&board, 2), (-1, (1, 3)));
}

#[test]
fn the_best_move_need_not_be_the_first() {
    let moves = filling_moves();
    let board = board_after(&moves[..58]);
    assert_eq!(
        board.avaliable_moves(),
        vec![(7, 1), (7, 3), (7, 4), (7, 5), (7, 6), (7, 7)]
    );
    assert_eq!(board.turn, Turn::X);
    let bot = SimpleBot { turn: Turn::X };
    assert_eq!(bot.make_move(&board, 1), (1, (7, 4)));
    assert_eq!(bot.make_move(&board, 3), (1, (7, 4)));
    assert_eq!(bot.make_move(&board, 6), (1, (7, 4)));
    assert_eq!(SimpleBot { turn: Turn::O }.make_move(&board, 3), (0, (7, 1)));
}

#[test]
fn the_minimizer_picks_the_lowest_score() {
    let board = board_after(&[(3, 3), (3, 4), (4, 3), (4, 4), (2, 3), (5, 3), (2, 4)]);
    let bot = SimpleBot { turn: Turn::O };
    assert_eq!(
        bot.minmax(&board, 2, MinMaxNodeRole::Minimizer, i32::MIN, i32::MAX),
        (-1, (0, 0))
    );
    let moves = filling_moves();
    let board = board_after(&moves[..57]);
    assert_eq!(board.turn, Turn::O);
    assert_eq!(
        bot.minmax(&board, 2, MinMaxNodeRole::Maximizer, i32::MIN, i32::MAX),
        (-1, (7, 0))
    );
    assert_eq!(
        bot.minmax(&board, 2, MinMaxNodeRole::Minimizer, i32::MIN, i32::MAX),
        (0, (7, 0))
    );
}

#[test]
fn pruning_does_not_change_the_result() {
    let filling = filling_moves();
    let games: Vec<Vec<(usize, usize)>> = vec![
        vec![],
        vec![(5, 5)],
        vec![(3, 3), (3, 4), (4, 3), (4, 4), (2, 3), (5, 3), (2, 4)],
        vec![(7, 0), (2, 1), (7, 2), (2, 2), (7, 4), (2, 3), (7, 6), (2, 4), (5, 7)],
        filling[..58].to_vec(),
        filling[..57].to_vec(),
        filling.clone(),
    ];
    for moves in &games {
        let board = board_after(moves);
        let free = board.avaliable_moves().len();
        for player in [Turn::X, Turn::O] {
            let bot = SimpleBot { turn: player };
            for depth in 0..7 {
                if depth > 2 && free > 8 {
                    continue;
                }
                assert_eq!(bot.make_move(&board, depth), full_search(&bot, &board, depth, true));
                assert_eq!(
                    bot.minmax(&board, depth, MinMaxNodeRole::Maximizer, i32::MIN, i32::MAX),
                    full_search(&bot, &board, depth, true)
                );
                assert_eq!(
                    bot.minmax(&board, depth, MinMaxNodeRole::Minimizer, i32::MIN, i32::MAX),
                    full_search(&bot, &board, depth, false)
                );
            }
        }
    }
}

#[test]
fn pruning_does_not_change_the_result_of_another_heuristic() {
    let games: Vec<Vec<(usize, usize)>> = vec![
        vec![],
        vec![(5, 5)],
        vec![(3, 3), (3, 4), (4, 3), (4, 4), (2, 3), (5, 3), (2, 4)],
        filling_moves()[..58].to_vec(),
        filling_moves()[..55].to_vec(),
    ];
    for moves in &games {
        let board = board_after(moves);
        let free = board.avaliable_moves().len();
        for player in [Turn::X, Turn::O] {
            let bot = WeighingBot { turn: player };
            assert_eq!(*bot.turn(), player);
            for depth in 0..6 {
                if depth > 2 && free > 9 {
                    continue;
                }
                let expected = full_search(&bot, &board, depth, true);
                assert_eq!(bot.make_move(&board, depth), expected);
                assert_eq!(
                    search(&bot, &board, depth, MinMaxNodeRole::Maximizer, i32::MIN, i32::MAX),
                    expected
                );
                assert_eq!(
                    bot.minmax(&board, depth, MinMaxNodeRole::Minimizer, i32::MIN, i32::MAX),
                    full_search(&bot, &board, depth, false)
                );
            }
        }
    }
}

#[test]
fn the_free_search_is_the_search_of_the_bot() {
    let board = board_after(&[(3, 3), (3, 4), (4, 3), (4, 4), (2, 3), (5, 3), (2, 4)]);
    let bot = SimpleBot { turn: Turn::O };
    assert_eq!(
        search(&bot, &board, 2, MinMaxNodeRole::Maximizer, i32::MIN, i32::MAX),
        (-1, (1, 3))
    );
    assert_eq!(
        search(&bot, &board, 2, MinMaxNodeRole::Maximizer, -3, 3),
        bot.minmax(&board, 2, MinMaxNodeRole::Maximizer, -3, 3)
    );
    assert_eq!(search(&bot, &board, 0, MinMaxNodeRole::Minimizer, 0, 0), (-1, (8, 8)));
}

#[test]
fn a_narrow_window_bounds_the_score() {
    let board = board_after(&[(3, 3), (3, 4), (4, 3), (4, 4), (2, 3), (5, 3), (2, 4)]);
    let bot = SimpleBot { turn: Turn::O };
    let (exact, _) = full_search(&bot, &board, 2, true);
    assert_eq!(exact, -1);
    let (low, _) = bot.minmax(&board, 2, MinMaxNodeRole::Maximizer, 0, 5);
    assert!(low <= 0 && exact <= low);
    let (high, _) = bot.minmax(&board, 2, MinMaxNodeRole::Maximizer, -5, -2);
    assert!(high >= -2 && exact >= high);
    let (inside, _) = bot.minmax(&board, 2, MinMaxNodeRole::Maximizer, -3, 3);
    assert_eq!(inside, exact);
}

#[test]
fn the_search_leaves_the_board_alone() {
    let board = board_after(&[(3, 3), (3, 4), (4, 3)]);
    let before = board.avaliable_moves();
    let bot = SimpleBot { turn: Turn::O };
    let (_, (row, col)) = bot.make_move(&board, 2);
    assert!(board.valid_move(row, col));
    assert_eq!(board.avaliable_moves(), before);
    assert_eq!(board.turn, Turn::O);
    assert!(!board.terminated);
}
