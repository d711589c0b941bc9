use goban::{process_chain, Board, Cell, Coord};

fn board_of(rows: &[&str]) -> Board {
    let mut board = Board::new(rows.len());
    for (r, line) in rows.iter().enumerate() {
        for (c, symbol) in line.chars().enumerate() {
            let cell = match symbol {
                'x' => Cell::Black,
                'o' => Cell::White,
                _ => Cell::Empty,
            };
            board.set(Coord(r + 1, c + 1), cell).unwrap();
        }
    }
    board
}

fn sorted(points: &[Coord]) -> Vec<(usize, usize)> {
    let mut out: Vec<(usize, usize)> = points.iter().map(|p| (p.0, p.1)).collect();
    out.sort();
    out
}

#[test]
fn lone_stone_in_the_middle_has_four_liberties() {
    let board = board_of(&["...", ".x.", "..."]);
    let chain = process_chain(&board, Coord(2, 2));
    assert_eq!(sorted(&chain.members), vec![(2, 2)]);
    assert_eq!(sorted(&chain.liberties), vec![(1, 2), (2, 1), (2, 3), (3, 2)]);
    assert_eq!(chain.size(), 1);
    assert_eq!(chain.liberty_count(), 4);
}

#[test]
fn lone_stone_in_the_corner_has_two_liberties() {
    let board = board_of(&["o..", "...", "..."]);
    let chain = process_chain(&board, Coord(1, 1));
    assert_eq!(sorted(&chain.members), vec![(1, 1)]);
    assert_eq!(sorted(&chain.liberties), vec![(1, 2), (2, 1)]);
}

#[test]
fn shared_liberty_is_counted_once() {
    // The empty point (2, 2) touches three stones of the chain.
    let board = board_of(&["xx.", "x..", "..."]);
    let chain = process_chain(&board, Coord(1, 1));
    assert_eq!(sorted(&chain.members), vec![(1, 1), (1, 2), (2, 1)]);
    assert_eq!(sorted(&chain.liberties), vec![(1, 3), (2, 2), (3, 1)]);
    assert_eq!(chain.liberty_count(), 3);
}

#[test]
fn chain_is_the_same_from_each_of_its_stones() {
    let board = board_of(&["xx.o", ".x.o", ".xxo", "...."]);
    let expected = vec![(1, 1), (1, 2), (2, 2), (3, 2), (3, 3)];
    for &(row, col) in expected.iter() {
        let chain = process_chain(&board, Coord(row, col));
        assert_eq!(sorted(&chain.members), expected);
        assert_eq!(
            sorted(&chain.liberties),
            vec![(1, 3), (2, 1), (2, 3), (3, 1), (4, 2), (4, 3)]
        );
    }
}

#[test]
fn diagonal_stones_are_separate_chains() {
    let board = board_of(&["x..", ".x.", "..x"]);
    let chain = process_chain(&board, Coord(2, 2));
    assert_eq!(sorted(&chain.members), vec![(2, 2)]);
    assert_eq!(chain.liberty_count(), 4);
}

#[test]
fn stones_of_the_other_colour_end_the_search() {
    let board = board_of(&["xox", "oxo", "xox"]);
    let chain = process_chain(&board, Coord(2, 2));
    assert_eq!(sorted(&chain.members), vec![(2, 2)]);
    assert_eq!(chain.liberty_count(), 0);
    let corner = process_chain(&board, Coord(1, 1));
    assert_eq!(sorted(&corner.members), vec![(1, 1)]);
    assert_eq!(corner.liberty_count(), 0);
}

#[test]
fn whole_board_of_one_colour_is_one_chain_without_liberty() {
    let mut board = Board::new(19);
    for row in 1..=19 {
        for col in 1..=19 {
            board.set(Coord(row, col), Cell::White).unwrap();
        }
    }
    let chain = process_chain(&board, Coord(10, 10));
    assert_eq!(chain.size(), 361);
    assert_eq!(chain.liberty_count(), 0);
    let mut seen = sorted(&chain.members);
    seen.dedup();
    assert_eq!(seen.len(), 361);
}

#[test]
fn search_from_an_empty_point_notes_the_point_as_a_liberty() {
    let board = board_of(&["x..", "...", "..."]);
    for &(row, col) in [(2, 2), (1, 2), (3, 3)].iter() {
        let chain = process_chain(&board, Coord(row, col));
        assert!(chain.members.is_empty());
        assert_eq!(chain.liberties, vec![Coord(row, col)]);
        assert_eq!(chain.size(), 0);
        assert_eq!(chain.liberty_count(), 1);
    }
}

#[test]
fn search_from_off_the_board_finds_nothing() {
    let board = board_of(&["x..", "...", "..."]);
    for &(row, col) in [(0, 1), (1, 0), (4, 4), (1, 4)].iter() {
        let chain = process_chain(&board, Coord(row, col));
        assert!(chain.members.is_empty());
        assert!(chain.liberties.is_empty());
    }
}

#[test]
fn search_does_not_change_the_board() {
    let board = board_of(&["xx.", "xo.", "..."]);
    let before = board.to_string();
    let _ = process_chain(&board, Coord(1, 1));
    assert_eq!(board.to_string(), before);
}
