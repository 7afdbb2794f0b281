use gridgames::board::Board;
use gridgames::board::Player;
use gridgames::board::Square;
use gridgames::game::GameError;

#[test]
fn diagonal_length_1() {
    let board = Board::new(1).unwrap();
    let di = board.diagonal_iterator_iterator(1).unwrap();
    let length = di.calculate_diagonal_length();
    assert_eq!(length, Some(1));
}

#[test]
fn test_diagonal_iterations() {
    let board = Board::new(2).unwrap();
    let mut diagonal_iterator_iterator = board.diagonal_iterator_iterator(1).unwrap();
    let mut counter = 0;
    while let Some(_length) = diagonal_iterator_iterator.calculate_diagonal_length() {
        diagonal_iterator_iterator.next();
        counter += 1;
    }
    assert_eq!(counter, 6);
}

#[test]
fn diagonal_length_2() {
    let board = Board::new(2).unwrap();
    let mut diagonal_iterator_iterator = board.diagonal_iterator_iterator(1).unwrap();
    let mut length = diagonal_iterator_iterator.calculate_diagonal_length();
    assert_eq!(length, Some(1));
    diagonal_iterator_iterator.next();
    length = diagonal_iterator_iterator.calculate_diagonal_length();
    assert_eq!(length, Some(2));
    diagonal_iterator_iterator.next();
    length = diagonal_iterator_iterator.calculate_diagonal_length();
    assert_eq!(length, Some(1));
}

#[test]
fn diagonal_length_2a() {
    let board = Board::new_rectangle(2, 3).unwrap();
    let dii = board.diagonal_iterator_iterator(2).unwrap();
    let length = dii.calculate_diagonal_length();
    assert_eq!(length, Some(2));
}

#[test]
fn diagonal_length_3x() {
    let board = Board::new_rectangle(2, 3).unwrap();
    assert!(board.diagonal_iterator_iterator(3).is_none());
}

#[test]
fn diagonal_length_3y() {
    let board = Board::new_rectangle(3, 2).unwrap();
    assert!(board.diagonal_iterator_iterator(3).is_none());
}

#[test]
fn construction_rejects_zero_dimensions() {
    assert_eq!(Board::new(0).unwrap_err(), GameError::InvalidDimensions);
    assert_eq!(Board::new_rectangle(0, 5).unwrap_err(), GameError::InvalidDimensions);
    assert_eq!(Board::new_rectangle(5, 0).unwrap_err(), GameError::InvalidDimensions);
    assert!(Board::new_rectangle(5, 4).is_ok());
}

#[test]
fn get_and_set_are_bounds_checked() {
    let mut board = Board::new_rectangle(2, 3).unwrap();
    assert_eq!(board.get_square(0, 0), Some(Square::Empty));
    assert_eq!(board.get_square(2, 0), None);
    assert_eq!(board.get_square(0, 3), None);
    assert_eq!(
        board.set_square(2, 0, Square::Played(Player::X)).unwrap_err(),
        GameError::OutOfBounds
    );
    assert!(board.set_square(1, 2, Square::Played(Player::X)).is_ok());
    assert_eq!(board.get_square(1, 2), Some(Square::Played(Player::X)));
}

#[test]
fn reset_empties_every_square() {
    let mut board = Board::new_rectangle(3, 2).unwrap();
    board.set_square(0, 0, Square::Played(Player::X)).unwrap();
    board.set_square(2, 1, Square::Played(Player::O)).unwrap();
    board.reset();
    for column in 0..3 {
        for row in 0..2 {
            assert_eq!(board.get_square(column, row), Some(Square::Empty));
        }
    }
    assert_eq!(board.columns(), 3);
    assert_eq!(board.rows(), 2);
}

#[test]
fn cursors_walk_their_lines() {
    // 3 columns x 2 rows; mark (0,0) and (2,1).
    let mut board = Board::new_rectangle(3, 2).unwrap();
    board.set_square(0, 0, Square::Played(Player::X)).unwrap();
    board.set_square(2, 1, Square::Played(Player::O)).unwrap();

    let mut row0 = board.row_iterator(0);
    assert_eq!(row0.next(), Some(Square::Played(Player::X)));
    assert_eq!(row0.next(), Some(Square::Empty));
    assert_eq!(row0.next(), Some(Square::Empty));
    assert_eq!(row0.next(), None);

    let mut col2 = board.column_iterator(2);
    assert_eq!(col2.next(), Some(Square::Empty));
    assert_eq!(col2.next(), Some(Square::Played(Player::O)));
    assert_eq!(col2.next(), None);

    let mut forward = board.diagonal_iterator(1, true);
    assert_eq!(forward.next(), Some(Square::Empty));
    assert_eq!(forward.next(), Some(Square::Played(Player::O)));
    assert_eq!(forward.next(), None);

    let mut backward = board.diagonal_iterator(1, false);
    assert_eq!(backward.next(), Some(Square::Empty));
    assert_eq!(backward.next(), Some(Square::Empty));
    assert_eq!(backward.next(), None);
}

#[test]
fn every_enumerated_diagonal_reaches_the_minimum() {
    // 4 columns x 3 rows, minimum 2: walk every cursor and count its squares.
    let board = Board::new_rectangle(4, 3).unwrap();
    let mut dii = board.diagonal_iterator_iterator(2).unwrap();
    let mut cursors = 0;
    while let Some(mut cursor) = dii.next() {
        let mut cells = 0;
        while let Some(_square) = cursor.next() {
            cells += 1;
        }
        assert!(cells >= 2);
        cursors += 1;
    }
    // Forward: lengths from the sweep 1,2,3,3,2,1 keep four of size >= 2;
    // backward symmetrically.
    assert_eq!(cursors, 8);
}

#[test]
fn one_by_one_board_has_a_diagonal_of_length_one() {
    // The one cell is an origin in each direction, so it is enumerated
    // twice: once forward, once backward, both of length exactly 1.
    let board = Board::new(1).unwrap();
    let mut dii = board.diagonal_iterator_iterator(1).unwrap();
    let mut cursor = dii.next().unwrap();
    assert_eq!(cursor.next(), Some(Square::Empty));
    assert_eq!(cursor.next(), None);
    let mut second = dii.next().unwrap();
    assert_eq!(second.next(), Some(Square::Empty));
    assert_eq!(second.next(), None);
    assert!(dii.next().is_none());
}

#[test]
fn square_to_option() {
    assert_eq!(Square::Empty.to_option(), None);
    assert_eq!(Square::Played(Player::X).to_option(), Some(Player::X));
    assert_eq!(Square::Played(Player::O).to_option(), Some(Player::O));
}
