use minmax_bots::gomoku::{build_tictactoeboard, TicTacToeBoard, Turn, BOARD_WIDTH, WINNING_LENGTH};

/// Plays the moves in order, the two players alternating, and expects that
/// none of them ends the game.
fn play_all(board: &mut TicTacToeBoard, moves: &[(usize, usize)]) {
    for &(row, col) in moves {
        assert!(board.valid_move(row, col));
        assert!(!board.make_move(row, col));
    }
}

fn occupied_cells(board: &TicTacToeBoard) -> usize {
    let mut count = 0;
    for row in 0..BOARD_WIDTH {
        for col in 0..BOARD_WIDTH {
            if board.get_at(row, col) != ' ' {
                count += 1;
            }
        }
    }
    count
}

#[test]
fn gomoku_empty_board() {
    let tictactoe = build_tictactoeboard();
    assert_eq!(tictactoe.avaliable_moves().len(), (BOARD_WIDTH * BOARD_WIDTH).try_into().unwrap());
}

#[test]
fn lib_empty_board() {
    let tictactoe = minmax_bots::build_tictactoeboard();
    assert_eq!(
        tictactoe.avaliable_moves().len(),
        (minmax_bots::BOARD_WIDTH * minmax_bots::BOARD_WIDTH).try_into().unwrap()
    );
}

#[test]
fn new_board_is_empty_with_x_to_move() {
    let board = build_tictactoeboard();
    assert_eq!(board.turn, Turn::X);
    assert!(!board.terminated);
    assert_eq!(board.current_turn(), Turn::X);
    assert!(!board.is_terminated());
    for row in 0..BOARD_WIDTH {
        for col in 0..BOARD_WIDTH {
            assert_eq!(board.get_at(row, col), ' ');
            assert!(board.valid_move(row, col));
        }
    }
}

#[test]
fn constants_have_their_values() {
    assert_eq!(BOARD_WIDTH, 8);
    assert_eq!(WINNING_LENGTH, 5);
    assert_eq!(minmax_bots::WIN_DIRECTIONS, [[0, 1], [1, 0], [1, 1], [1, -1]]);
}

#[test]
fn marks_show_as_characters() {
    assert_eq!(Turn::X.to_char(), 'x');
    assert_eq!(Turn::O.to_char(), 'o');
}

#[test]
fn moves_come_in_row_major_order() {
    let board = build_tictactoeboard();
    let moves = board.avaliable_moves();
    assert_eq!(moves.len(), 64);
    for (index, cell) in moves.iter().enumerate() {
        assert_eq!(*cell, (index / 8, index % 8));
    }
    assert_eq!(moves[0], (0, 0));
    assert_eq!(moves[1], (0, 1));
    assert_eq!(moves[8], (1, 0));
    assert_eq!(moves[63], (7, 7));
}

#[test]
fn claimed_cells_leave_the_list_of_moves() {
    let mut board = build_tictactoeboard();
    play_all(&mut board, &[(0, 1), (7, 7), (3, 4)]);
    let moves = board.avaliable_moves();
    assert_eq!(moves.len(), 61);
    assert_eq!(moves[0], (0, 0));
    assert_eq!(moves[1], (0, 2));
    assert_eq!(moves[60], (7, 6));
    assert!(!moves.contains(&(0, 1)));
    assert!(!moves.contains(&(3, 4)));
    assert!(!moves.contains(&(7, 7)));
    assert!(moves.contains(&(3, 3)));
}

#[test]
fn free_and_claimed_cells_add_up() {
    let mut board = build_tictactoeboard();
    let moves = [(0, 0), (1, 1), (2, 2), (3, 3), (4, 4), (5, 5), (6, 6), (7, 7), (0, 7), (7, 0)];
    for (done, &(row, col)) in moves.iter().enumerate() {
        assert_eq!(board.avaliable_moves().len() + occupied_cells(&board), 64);
        assert_eq!(occupied_cells(&board), done);
        assert!(!board.make_move(row, col));
    }
    assert_eq!(board.avaliable_moves().len(), 54);
    assert_eq!(occupied_cells(&board), 10);
}

#[test]
fn a_full_board_has_no_moves() {
    let mut board = build_tictactoeboard();
    let mut first: Vec<(usize, usize)> = Vec::new();
    let mut second: Vec<(usize, usize)> = Vec::new();
    for row in 0..8 {
        for col in 0..8 {
            if (row + col / 2) % 2 == 0 {
                first.push((row, col));
            } else {
                second.push((row, col));
            }
        }
    }
    assert_eq!(first.len(), 32);
    assert_eq!(second.len(), 32);
    for index in 0..32 {
        assert!(!board.make_move(first[index].0, first[index].1));
        assert!(!board.make_move(second[index].0, second[index].1));
    }
    assert!(board.avaliable_moves().is_empty());
    assert!(!board.terminated);
    assert_eq!(occupied_cells(&board), 64);
    assert!(!board.valid_move(0, 0));
    assert!(!board.valid_move(7, 7));
}

#[test]
fn get_at_reads_both_marks() {
    let mut board = build_tictactoeboard();
    play_all(&mut board, &[(0, 0), (7, 7), (3, 5), (5, 3)]);
    assert_eq!(board.get_at(0, 0), 'x');
    assert_eq!(board.get_at(7, 7), 'o');
    assert_eq!(board.get_at(3, 5), 'x');
    assert_eq!(board.get_at(5, 3), 'o');
    assert_eq!(board.get_at(0, 1), ' ');
    assert_eq!(board.get_at(1, 0), ' ');
    assert_eq!(board.get_at(7, 6), ' ');
    assert_eq!(board.get_at(5, 5), ' ');
    assert_eq!(occupied_cells(&board), 4);
}

#[test]
fn a_claimed_cell_is_no_valid_move() {
    let mut board = build_tictactoeboard();
    assert!(board.valid_move(2, 3));
    assert!(!board.make_move(2, 3));
    assert!(!board.valid_move(2, 3));
    assert!(board.valid_move(3, 2));
    assert!(!board.make_move(3, 2));
    assert!(!board.valid_move(3, 2));
    assert!(!board.valid_move(2, 3));
    assert!(board.valid_move(2, 2));
}

#[test]
fn the_turn_passes_on_after_each_move() {
    let mut board = build_tictactoeboard();
    assert_eq!(board.turn, Turn::X);
    assert!(!board.make_move(4, 4));
    assert_eq!(board.turn, Turn::O);
    assert_eq!(board.current_turn(), Turn::O);
    assert!(!board.make_move(4, 5));
    assert_eq!(board.turn, Turn::X);
    assert!(!board.make_move(0, 0));
    assert_eq!(board.turn, Turn::O);
    assert_eq!(board.get_at(4, 4), 'x');
    assert_eq!(board.get_at(4, 5), 'o');
    assert_eq!(board.get_at(0, 0), 'x');
}

#[test]
fn four_in_a_row_then_five() {
    let mut board = build_tictactoeboard();
    assert_eq!(board.avaliable_moves().len(), 64);
    play_all(&mut board, &[(0, 0), (7, 0), (0, 1), (7, 2), (0, 2), (7, 4), (0, 3), (7, 6)]);
    assert!(!board.terminated);
    assert_eq!(board.turn, Turn::X);
    assert!(board.valid_move(0, 4));
    assert!(board.make_move(0, 4));
    assert!(board.terminated);
    assert!(board.is_terminated());
}

#[test]
fn the_winner_keeps_the_turn_and_the_game_stays_over() {
    let mut board = build_tictactoeboard();
    play_all(&mut board, &[(0, 0), (7, 0), (0, 1), (7, 2), (0, 2), (7, 4), (0, 3), (7, 6)]);
    assert!(board.make_move(0, 4));
    assert_eq!(board.turn, Turn::X);
    assert_eq!(board.current_turn(), Turn::X);
    assert!(board.terminated);
    for row in 0..BOARD_WIDTH {
        for col in 0..BOARD_WIDTH {
            assert!(!board.valid_move(row, col));
        }
    }
    assert_eq!(board.avaliable_moves().len(), 55);
    assert_eq!(board.get_at(0, 4), 'x');
    assert_eq!(board.get_at(0, 5), ' ');
}

#[test]
fn five_in_a_column_wins() {
    let mut board = build_tictactoeboard();
    play_all(&mut board, &[(2, 6), (0, 0), (3, 6), (0, 2), (4, 6), (0, 4), (5, 6), (0, 6)]);
    assert!(!board.terminated);
    assert!(board.make_move(6, 6));
    assert!(board.terminated);
    assert_eq!(board.turn, Turn::X);
}

#[test]
fn five_on_a_falling_diagonal_wins() {
    let mut board = build_tictactoeboard();
    play_all(&mut board, &[(3, 3), (0, 1), (4, 4), (0, 3), (5, 5), (0, 5), (6, 6), (0, 7)]);
    assert!(!board.terminated);
    assert!(board.make_move(7, 7));
    assert!(board.terminated);
}

#[test]
fn five_on_a_rising_diagonal_wins() {
    let mut board = build_tictactoeboard();
    play_all(&mut board, &[(7, 0), (0, 0), (6, 1), (0, 2), (5, 2), (0, 4), (4, 3), (0, 6)]);
    assert!(!board.terminated);
    assert!(board.make_move(3, 4));
    assert!(board.terminated);
}

#[test]
fn the_second_player_can_win() {
    let mut board = build_tictactoeboard();
    play_all(
        &mut board,
        &[(0, 0), (5, 1), (0, 2), (5, 2), (0, 4), (5, 3), (0, 6), (5, 4), (2, 0)],
    );
    assert_eq!(board.turn, Turn::O);
    assert!(board.make_move(5, 5));
    assert!(board.terminated);
    assert_eq!(board.turn, Turn::O);
}

#[test]
fn closing_a_gap_completes_the_run() {
    let mut board = build_tictactoeboard();
    play_all(&mut board, &[(4, 1), (0, 0), (4, 2), (0, 2), (4, 4), (0, 4), (4, 5), (0, 6)]);
    assert!(!board.terminated);
    assert!(board.make_move(4, 3));
    assert!(board.terminated);
}

#[test]
fn a_run_longer_than_five_wins_too() {
    let mut board = build_tictactoeboard();
    play_all(
        &mut board,
        &[(6, 0), (0, 0), (6, 1), (0, 2), (6, 2), (0, 4), (6, 4), (0, 6), (6, 5), (2, 0)],
    );
    assert!(!board.terminated);
    assert!(board.make_move(6, 3));
    assert!(board.terminated);
}

#[test]
fn four_with_a_gap_before_the_fifth_do_not_win() {
    let mut board = build_tictactoeboard();
    play_all(
        &mut board,
        &[(1, 0), (7, 0), (1, 1), (7, 2), (1, 2), (7, 4), (1, 3), (7, 6), (1, 5), (5, 0)],
    );
    assert!(!board.terminated);
    assert_eq!(board.get_at(1, 4), ' ');
    assert_eq!(board.turn, Turn::X);
}

#[test]
fn a_run_cut_by_the_opponent_does_not_win() {
    let mut board = build_tictactoeboard();
    play_all(
        &mut board,
        &[(2, 0), (2, 2), (2, 1), (7, 0), (2, 3), (7, 2), (2, 4), (7, 4), (2, 5), (5, 7)],
    );
    assert!(!board.terminated);
    assert!(!board.make_move(2, 6));
    assert!(!board.terminated);
}

#[test]
fn a_run_does_not_wrap_around_the_edge() {
    let mut board = build_tictactoeboard();
    play_all(
        &mut board,
        &[(0, 5), (5, 0), (0, 6), (5, 2), (0, 7), (5, 4), (1, 0), (5, 6), (1, 1), (7, 7)],
    );
    assert!(!board.terminated);
    assert_eq!(board.turn, Turn::X);
}

#[test]
fn a_copy_is_independent_of_its_source() {
    let mut board = build_tictactoeboard();
    play_all(&mut board, &[(1, 1), (2, 2)]);
    let mut copy = board.clone();
    assert!(!copy.make_move(3, 3));
    assert_eq!(copy.get_at(3, 3), 'x');
    assert_eq!(copy.turn, Turn::O);
    assert_eq!(board.get_at(3, 3), ' ');
    assert_eq!(board.turn, Turn::X);
    assert_eq!(board.avaliable_moves().len(), 62);
    assert_eq!(copy.avaliable_moves().len(), 61);
}
