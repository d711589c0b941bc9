use goban::{resolve_capture, Board, Cell, Coord};

fn board_of(rows: &[&str]) -> Board {
    let mut board = Board::new(rows.len());
    for (r, line) in rows.iter().enumerate() {
        for (c, symbol) in line.chars().enumerate() {
            let cell = match symbol {
                'x' => Cell::Black,
                'o' => Cell::White,
                _ => Cell::Empty,
            };
            board.set(Coord(r + 1, c + 1), cell).unwrap();
        }
    }
    board
}

fn rows_of(board: &Board) -> Vec<String> {
    let n = board.size();
    (1..=n)
        .map(|row| (1..=n).map(|col| board.cell_at(Coord(row, col)).symbol()).collect())
        .collect()
}

fn swapped(rows: &[&str]) -> Vec<String> {
    rows.iter()
        .map(|line| {
            line.chars()
                .map(|c| match c {
                    'x' => 'o',
                    'o' => 'x',
                    other => other,
                })
                .collect()
        })
        .collect()
}

#[test]
fn centre_stone_is_captured_when_the_fourth_neighbour_arrives() {
    let mut board = Board::new(3);
    board.set(Coord(2, 2), Cell::White).unwrap();
    assert_eq!(resolve_capture(&mut board), Vec::<usize>::new());
    for &(row, col) in [(1, 2), (2, 1), (2, 3)].iter() {
        board.set(Coord(row, col), Cell::Black).unwrap();
        assert_eq!(resolve_capture(&mut board), Vec::<usize>::new());
    }
    board.set(Coord(3, 2), Cell::Black).unwrap();
    assert_eq!(resolve_capture(&mut board), vec![1]);
    assert_eq!(board.get(Coord(2, 2)), Ok(Cell::Empty));
    assert_eq!(board.to_string(), "\n. x .\nx . x\n. x .");
}

#[test]
fn empty_board_has_nothing_to_capture() {
    let mut board = Board::new(19);
    assert_eq!(resolve_capture(&mut board), Vec::<usize>::new());
    assert_eq!(board.to_string(), Board::new(19).to_string());
}

#[test]
fn chains_with_a_liberty_stay() {
    let rows = ["xo.", "ox.", "..."];
    let mut board = board_of(&rows);
    // (1, 1) has no liberty; the others have.
    assert_eq!(resolve_capture(&mut board), vec![1]);
    assert_eq!(rows_of(&board), vec![".o.", "ox.", "..."]);
}

#[test]
fn chain_of_several_stones_is_taken_whole() {
    let rows = [".xx..", "xoox.", "xo.x.", ".xx..", "....."];
    let mut board = board_of(&rows);
    assert_eq!(resolve_capture(&mut board), Vec::<usize>::new());
    board.set(Coord(3, 3), Cell::Black).unwrap();
    assert_eq!(resolve_capture(&mut board), vec![3]);
    assert_eq!(rows_of(&board), vec![".xx..", "x..x.", "x.xx.", ".xx..", "....."]);
}

#[test]
fn sizes_come_in_row_major_order_of_first_meeting() {
    // Two white chains lose their last liberty to the same black stone at
    // (3, 3): the single stone at (2, 3) is met first, the pair below after it.
    let rows = ["..x..", ".xox.", ".x.x.", ".xox.", ".xox.", "..x.."];
    let mut board = Board::new(6);
    for (r, line) in rows.iter().enumerate() {
        for (c, symbol) in line.chars().enumerate() {
            let cell = match symbol {
                'x' => Cell::Black,
                'o' => Cell::White,
                _ => Cell::Empty,
            };
            board.set(Coord(r + 1, c + 1), cell).unwrap();
        }
    }
    assert_eq!(resolve_capture(&mut board), Vec::<usize>::new());
    board.set(Coord(3, 3), Cell::Black).unwrap();
    assert_eq!(resolve_capture(&mut board), vec![1, 2]);
    assert_eq!(board.get(Coord(2, 3)), Ok(Cell::Empty));
    assert_eq!(board.get(Coord(4, 3)), Ok(Cell::Empty));
    assert_eq!(board.get(Coord(5, 3)), Ok(Cell::Empty));
    assert_eq!(board.get(Coord(3, 3)), Ok(Cell::Black));
}

#[test]
fn larger_chain_met_first_is_reported_first() {
    let rows = ["oox.", "xx.x", "..xo", "...x"];
    let mut board = board_of(&rows);
    assert_eq!(resolve_capture(&mut board), vec![2, 1]);
    assert_eq!(rows_of(&board), vec!["..x.", "xx.x", "..x.", "...x"]);
}

#[test]
fn stone_played_without_a_liberty_is_taken_like_any_other() {
    // White plays into the corner where Black holds both neighbours.
    let mut board = board_of(&[".x.", "x..", "..."]);
    board.set(Coord(1, 1), Cell::White).unwrap();
    assert_eq!(resolve_capture(&mut board), vec![1]);
    assert_eq!(rows_of(&board), vec![".x.", "x..", "..."]);
}

#[test]
fn earlier_capture_in_the_sweep_frees_a_later_chain() {
    // The black stone at (2, 3) and the white stone at (3, 3) are both
    // without a liberty.  The sweep meets the black stone first and takes
    // it; the white stone then has a liberty and stays.
    let rows = ["..o..", ".oxo.", ".xox.", "..x..", "....."];
    let mut board = board_of(&rows);
    assert_eq!(resolve_capture(&mut board), vec![1]);
    assert_eq!(rows_of(&board), vec!["..o..", ".o.o.", ".xox.", "..x..", "....."]);
}

#[test]
fn colours_play_no_part() {
    let positions: [&[&str]; 4] = [
        &["oox.", "xx.x", "..xo", "...x"],
        &["..o..", ".oxo.", ".xox.", "..x..", "....."],
        &[".xx..", "xoox.", "xoxx.", ".xx..", "....."],
        &["xox", "oxo", "xox"],
    ];
    for rows in positions.iter() {
        let mut board = board_of(rows);
        let sizes = resolve_capture(&mut board);
        let other_rows = swapped(rows);
        let other_refs: Vec<&str> = other_rows.iter().map(|s| s.as_str()).collect();
        let mut other = board_of(&other_refs);
        let other_sizes = resolve_capture(&mut other);
        assert_eq!(sizes, other_sizes);
        let after: Vec<String> = rows_of(&board);
        let after_refs: Vec<&str> = after.iter().map(|s| s.as_str()).collect();
        assert_eq!(swapped(&after_refs), rows_of(&other));
    }
}

#[test]
fn checkerboard_loses_the_stones_met_before_a_liberty_opens() {
    let mut board = board_of(&["xox", "oxo", "xox"]);
    assert_eq!(resolve_capture(&mut board), vec![1, 1, 1, 1, 1]);
    assert_eq!(rows_of(&board), vec![".o.", "o.o", ".o."]);
}

#[test]
fn full_board_of_one_colour_is_taken_as_one_chain() {
    let mut board = Board::new(19);
    for row in 1..=19 {
        for col in 1..=19 {
            board.set(Coord(row, col), Cell::Black).unwrap();
        }
    }
    assert_eq!(resolve_capture(&mut board), vec![361]);
    assert_eq!(board.to_string(), Board::new(19).to_string());
}

#[test]
fn second_sweep_finds_nothing_more_on_a_settled_board() {
    let mut board = board_of(&["oox.", "xx.x", "..xo", "...x"]);
    resolve_capture(&mut board);
    let after = board.to_string();
    assert_eq!(resolve_capture(&mut board), Vec::<usize>::new());
    assert_eq!(board.to_string(), after);
}
