use goban::{get_index, Board, Cell, Coord, GameError, Player};

#[test]
fn new_board_is_empty_everywhere() {
    let board = Board::new(19);
    assert_eq!(board.size(), 19);
    for row in 1..=19 {
        for col in 1..=19 {
            assert_eq!(board.get(Coord(row, col)), Ok(Cell::Empty));
        }
    }
}

#[test]
fn board_of_side_zero_has_no_point() {
    let board = Board::new(0);
    assert_eq!(board.size(), 0);
    assert_eq!(board.get(Coord(1, 1)), Err(GameError::Range));
    assert_eq!(board.to_string(), "");
}

#[test]
fn set_then_get_returns_the_stone() {
    let mut board = Board::new(5);
    assert_eq!(board.set(Coord(2, 4), Cell::Black), Ok(()));
    assert_eq!(board.get(Coord(2, 4)), Ok(Cell::Black));
    assert_eq!(board.get(Coord(4, 2)), Ok(Cell::Empty));
    assert_eq!(board.cell_at(Coord(2, 4)), Cell::Black);
}

#[test]
fn set_overwrites_an_occupied_point() {
    let mut board = Board::new(5);
    board.set(Coord(3, 3), Cell::Black).unwrap();
    board.set(Coord(3, 3), Cell::White).unwrap();
    assert_eq!(board.get(Coord(3, 3)), Ok(Cell::White));
}

#[test]
fn set_touches_no_other_point() {
    let mut board = Board::new(4);
    board.set(Coord(2, 3), Cell::White).unwrap();
    for row in 1..=4 {
        for col in 1..=4 {
            let expected = if (row, col) == (2, 3) { Cell::White } else { Cell::Empty };
            assert_eq!(board.get(Coord(row, col)), Ok(expected));
        }
    }
}

#[test]
fn points_off_the_board_are_range_errors() {
    let mut board = Board::new(3);
    for &(row, col) in [(0, 1), (1, 0), (4, 1), (1, 4), (0, 0), (usize::MAX, 2)].iter() {
        assert_eq!(board.get(Coord(row, col)), Err(GameError::Range));
        assert_eq!(board.set(Coord(row, col), Cell::Black), Err(GameError::Range));
    }
    assert_eq!(board.to_string(), "\n. . .\n. . .\n. . .");
}

#[test]
fn index_is_row_major() {
    assert_eq!(get_index(19, Coord(1, 1)), 0);
    assert_eq!(get_index(19, Coord(1, 19)), 18);
    assert_eq!(get_index(19, Coord(2, 1)), 19);
    assert_eq!(get_index(19, Coord(19, 19)), 360);
    assert_eq!(get_index(3, Coord(2, 3)), 5);
}

#[test]
fn symbols_of_players_and_cells() {
    assert_eq!(Player::Black.symbol(), 'x');
    assert_eq!(Player::White.symbol(), 'o');
    assert_eq!(Cell::Empty.symbol(), '.');
    assert_eq!(Cell::Black.symbol(), 'x');
    assert_eq!(Cell::White.symbol(), 'o');
}

#[test]
fn stones_and_opponents() {
    assert_eq!(Player::Black.stone(), Cell::Black);
    assert_eq!(Player::White.stone(), Cell::White);
    assert_eq!(Player::Black.opponent(), Player::White);
    assert_eq!(Player::White.opponent(), Player::Black);
}

#[test]
fn rendering_lists_rows_top_down_and_columns_left_to_right() {
    let mut board = Board::new(3);
    board.set(Coord(1, 1), Cell::Black).unwrap();
    board.set(Coord(1, 3), Cell::White).unwrap();
    board.set(Coord(3, 2), Cell::White).unwrap();
    assert_eq!(board.to_string(), "\nx . o\n. . .\n. o .");
}

#[test]
fn rendering_twice_gives_the_same_text() {
    let mut board = Board::new(9);
    board.set(Coord(4, 5), Cell::Black).unwrap();
    board.set(Coord(5, 5), Cell::White).unwrap();
    let first = board.to_string();
    let second = board.to_string();
    assert_eq!(first, second);
    assert_eq!(first.len(), 9 * (2 * 9));
}

#[test]
fn rendering_puts_spaces_between_symbols_only() {
    let mut board = Board::new(2);
    board.set(Coord(1, 2), Cell::Black).unwrap();
    board.set(Coord(2, 1), Cell::White).unwrap();
    assert_eq!(board.to_string(), "\n. x\no .");
    assert_eq!(board.to_string().len(), 8);
}

#[test]
fn rendering_of_a_single_point() {
    let mut board = Board::new(1);
    assert_eq!(board.to_string(), "\n.");
    board.set(Coord(1, 1), Cell::Black).unwrap();
    assert_eq!(board.to_string(), "\nx");
}

#[test]
fn new_board_shows_nothing_of_an_earlier_one() {
    let mut first = Board::new(3);
    first.set(Coord(2, 2), Cell::Black).unwrap();
    let mut second = Board::new(3);
    assert_eq!(second.to_string(), "\n. . .\n. . .\n. . .");
    second.set(Coord(1, 1), Cell::White).unwrap();
    assert_eq!(first.to_string(), "\n. . .\n. x .\n. . .");
    assert_eq!(second.to_string(), "\no . .\n. . .\n. . .");
}
