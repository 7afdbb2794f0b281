use gridgames::board::Board;
use gridgames::board::Player;
use gridgames::board::Square;
use gridgames::connectn::ConnectN;
use gridgames::game::Game;
use gridgames::game::GameError;
use gridgames::game::GameStatus;
use gridgames::tictactoe::Tictactoe;

fn new_tictactoe(size: usize) -> Tictactoe {
    Tictactoe::new(Board::new(size).unwrap())
}

#[test]
fn find_run_counts_three_after_a_gap() {
    // Column read top-down: [Empty, X, X, X]; a run of three is found.
    let mut board = Board::new_rectangle(1, 4).unwrap();
    for row in 1..4 {
        board.set_square(0, row, Square::Played(Player::X)).unwrap();
    }
    let probe = ConnectN::new(1, 1, 1);
    let mut cursor = board.column_iterator(0);
    assert_eq!(probe.detect_winning_line(&mut cursor, 3), Some(Player::X));
}

#[test]
fn find_run_sees_no_run_in_alternation() {
    // Column read top-down: [X, O, X, O]; no run of two.
    let mut board = Board::new_rectangle(1, 4).unwrap();
    board.set_square(0, 0, Square::Played(Player::X)).unwrap();
    board.set_square(0, 1, Square::Played(Player::O)).unwrap();
    board.set_square(0, 2, Square::Played(Player::X)).unwrap();
    board.set_square(0, 3, Square::Played(Player::O)).unwrap();
    let probe = ConnectN::new(1, 1, 1);
    let mut cursor = board.column_iterator(0);
    assert_eq!(probe.detect_winning_line(&mut cursor, 2), None);
}

#[test]
fn occupied_square_rejects_move_and_keeps_board() {
    let mut game = new_tictactoe(3);
    assert_eq!(game.play(Player::X, &vec![0, 0]), Ok(GameStatus::InProgress));
    assert_eq!(game.play(Player::O, &vec![0, 0]), Err(GameError::SquareNotEmpty));
    assert_eq!(game.board().get_square(0, 0), Some(Square::Played(Player::X)));
    for column in 0..3 {
        for row in 0..3 {
            if !(column == 0 && row == 0) {
                assert_eq!(game.board().get_square(column, row), Some(Square::Empty));
            }
        }
    }
    assert_eq!(game.get_status(), GameStatus::InProgress);
}

#[test]
fn tictactoe_rejects_out_of_bounds() {
    let mut game = new_tictactoe(3);
    assert_eq!(game.play(Player::X, &vec![3, 0]), Err(GameError::OutOfBounds));
    assert_eq!(game.play(Player::X, &vec![0, 5]), Err(GameError::OutOfBounds));
}

#[test]
fn gravity_drops_stack_from_the_bottom() {
    let mut game = ConnectN::new(7, 6, 4);
    game.play(Player::X, &vec![0]).unwrap();
    game.play(Player::O, &vec![0]).unwrap();
    game.play(Player::X, &vec![0]).unwrap();
    assert_eq!(game.board().get_square(0, 5), Some(Square::Played(Player::X)));
    assert_eq!(game.board().get_square(0, 4), Some(Square::Played(Player::O)));
    assert_eq!(game.board().get_square(0, 3), Some(Square::Played(Player::X)));
    assert_eq!(game.board().get_square(0, 2), Some(Square::Empty));
}

#[test]
fn gravity_rejects_bad_columns() {
    let mut game = ConnectN::new(2, 2, 2);
    assert_eq!(game.play(Player::X, &vec![9]), Err(GameError::OutOfBounds));
    game.play(Player::X, &vec![0]).unwrap();
    game.play(Player::O, &vec![0]).unwrap();
    assert_eq!(game.play(Player::X, &vec![0]), Err(GameError::SquareNotEmpty));
}

#[test]
fn tictactoe_wins_on_the_main_diagonal() {
    let mut game = new_tictactoe(3);
    assert_eq!(game.play(Player::X, &vec![0, 0]), Ok(GameStatus::InProgress));
    assert_eq!(game.play(Player::O, &vec![1, 0]), Ok(GameStatus::InProgress));
    assert_eq!(game.play(Player::X, &vec![1, 1]), Ok(GameStatus::InProgress));
    assert_eq!(game.play(Player::O, &vec![2, 0]), Ok(GameStatus::InProgress));
    assert_eq!(game.play(Player::X, &vec![2, 2]), Ok(GameStatus::Won(Player::X)));
}

#[test]
fn tictactoe_wins_on_a_row() {
    let mut game = new_tictactoe(3);
    assert_eq!(game.play(Player::X, &vec![0, 1]), Ok(GameStatus::InProgress));
    assert_eq!(game.play(Player::O, &vec![0, 0]), Ok(GameStatus::InProgress));
    assert_eq!(game.play(Player::X, &vec![1, 1]), Ok(GameStatus::InProgress));
    assert_eq!(game.play(Player::O, &vec![2, 0]), Ok(GameStatus::InProgress));
    assert_eq!(game.play(Player::X, &vec![2, 1]), Ok(GameStatus::Won(Player::X)));
}

#[test]
fn tictactoe_wins_on_a_column() {
    let mut game = new_tictactoe(3);
    assert_eq!(game.play(Player::X, &vec![1, 0]), Ok(GameStatus::InProgress));
    assert_eq!(game.play(Player::O, &vec![0, 0]), Ok(GameStatus::InProgress));
    assert_eq!(game.play(Player::X, &vec![1, 1]), Ok(GameStatus::InProgress));
    assert_eq!(game.play(Player::O, &vec![2, 1]), Ok(GameStatus::InProgress));
    assert_eq!(game.play(Player::X, &vec![1, 2]), Ok(GameStatus::Won(Player::X)));
}

#[test]
fn tictactoe_wins_on_the_reverse_diagonal() {
    let mut game = new_tictactoe(3);
    assert_eq!(game.play(Player::X, &vec![2, 0]), Ok(GameStatus::InProgress));
    assert_eq!(game.play(Player::O, &vec![0, 0]), Ok(GameStatus::InProgress));
    assert_eq!(game.play(Player::X, &vec![1, 1]), Ok(GameStatus::InProgress));
    assert_eq!(game.play(Player::O, &vec![0, 1]), Ok(GameStatus::InProgress));
    assert_eq!(game.play(Player::X, &vec![0, 2]), Ok(GameStatus::Won(Player::X)));
}

#[test]
fn connectn_wins_on_the_bottom_row() {
    let mut game = ConnectN::new(7, 6, 4);
    assert_eq!(game.play(Player::X, &vec![0]), Ok(GameStatus::InProgress));
    assert_eq!(game.play(Player::X, &vec![1]), Ok(GameStatus::InProgress));
    assert_eq!(game.play(Player::X, &vec![2]), Ok(GameStatus::InProgress));
    assert_eq!(game.play(Player::X, &vec![3]), Ok(GameStatus::Won(Player::X)));
}

#[test]
fn connectn_wins_on_a_diagonal() {
    // X stacks a rising diagonal of three: (0, bottom), (1, bottom-1),
    // (2, bottom-2).
    let mut game = ConnectN::new(7, 6, 3);
    assert_eq!(game.play(Player::X, &vec![0]), Ok(GameStatus::InProgress));
    assert_eq!(game.play(Player::O, &vec![1]), Ok(GameStatus::InProgress));
    assert_eq!(game.play(Player::X, &vec![1]), Ok(GameStatus::InProgress));
    assert_eq!(game.play(Player::O, &vec![2]), Ok(GameStatus::InProgress));
    assert_eq!(game.play(Player::O, &vec![2]), Ok(GameStatus::InProgress));
    assert_eq!(game.play(Player::X, &vec![2]), Ok(GameStatus::Won(Player::X)));
}

#[test]
fn filled_board_without_lines_is_drawn() {
    // X O X
    // X O O
    // O X X
    let mut board = Board::new(3).unwrap();
    let x = Square::Played(Player::X);
    let o = Square::Played(Player::O);
    board.set_square(0, 0, x).unwrap();
    board.set_square(1, 0, o).unwrap();
    board.set_square(2, 0, x).unwrap();
    board.set_square(0, 1, x).unwrap();
    board.set_square(1, 1, o).unwrap();
    board.set_square(2, 1, o).unwrap();
    board.set_square(0, 2, o).unwrap();
    board.set_square(1, 2, x).unwrap();
    board.set_square(2, 2, x).unwrap();
    let game = Tictactoe::new(board);
    assert_eq!(game.get_status(), GameStatus::Drawn);
}

#[test]
fn reset_restores_an_in_progress_empty_game() {
    let mut game = new_tictactoe(3);
    game.play(Player::X, &vec![0, 0]).unwrap();
    game.play(Player::O, &vec![1, 0]).unwrap();
    game.play(Player::X, &vec![1, 1]).unwrap();
    game.play(Player::O, &vec![2, 0]).unwrap();
    assert_eq!(game.play(Player::X, &vec![2, 2]), Ok(GameStatus::Won(Player::X)));
    game.reset();
    assert_eq!(game.get_status(), GameStatus::InProgress);
    for column in 0..3 {
        for row in 0..3 {
            assert_eq!(game.board().get_square(column, row), Some(Square::Empty));
        }
    }

    let mut dropper = ConnectN::new(2, 1, 2);
    dropper.play(Player::X, &vec![0]).unwrap();
    assert_eq!(dropper.play(Player::O, &vec![1]), Ok(GameStatus::Drawn));
    dropper.reset();
    assert_eq!(dropper.get_status(), GameStatus::InProgress);
    assert_eq!(dropper.board().get_square(0, 0), Some(Square::Empty));
    assert_eq!(dropper.board().get_square(1, 0), Some(Square::Empty));
}

#[test]
fn moves_per_turn_match_the_placement_rule() {
    let game = new_tictactoe(3);
    assert_eq!(game.num_inputs(), 2);
    let dropper = ConnectN::new(7, 6, 4);
    assert_eq!(dropper.num_inputs(), 1);
}
