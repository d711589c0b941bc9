use goban::{
    annotate, update_board, Annotation, Board, Cell, Coord, Event, GameError, GameState, Player,
};

fn mv(row: &str, col: &str) -> Event {
    Event::Move(row.to_string(), col.to_string())
}

#[test]
fn update_board_places_the_stone_of_the_player() {
    let mut board = Board::new(19);
    assert_eq!(update_board(&mut board, "F", "18", Player::Black), Ok(vec![]));
    assert_eq!(board.get(Coord(6, 18)), Ok(Cell::Black));
    assert_eq!(update_board(&mut board, "A", "1", Player::White), Ok(vec![]));
    assert_eq!(board.get(Coord(1, 1)), Ok(Cell::White));
}

#[test]
fn update_board_reports_the_capture_scenario() {
    let mut board = Board::new(3);
    assert_eq!(update_board(&mut board, "B", "2", Player::White), Ok(vec![]));
    assert_eq!(update_board(&mut board, "A", "2", Player::Black), Ok(vec![]));
    assert_eq!(update_board(&mut board, "B", "1", Player::Black), Ok(vec![]));
    assert_eq!(update_board(&mut board, "B", "3", Player::Black), Ok(vec![]));
    assert_eq!(update_board(&mut board, "C", "2", Player::Black), Ok(vec![1]));
    assert_eq!(board.to_string(), "\n. x .\nx . x\n. x .");
}

#[test]
fn update_board_overwrites_an_occupied_point() {
    let mut board = Board::new(5);
    assert_eq!(update_board(&mut board, "C", "3", Player::Black), Ok(vec![]));
    assert_eq!(update_board(&mut board, "C", "3", Player::White), Ok(vec![]));
    assert_eq!(board.get(Coord(3, 3)), Ok(Cell::White));
}

#[test]
fn update_board_refuses_what_it_cannot_decode_and_changes_nothing() {
    let mut board = Board::new(19);
    update_board(&mut board, "D", "4", Player::Black).unwrap();
    let before = board.to_string();
    assert_eq!(update_board(&mut board, "I", "4", Player::White), Err(GameError::Decode));
    assert_eq!(update_board(&mut board, "D", "0", Player::White), Err(GameError::Decode));
    assert_eq!(update_board(&mut board, "D", "four", Player::White), Err(GameError::Decode));
    assert_eq!(update_board(&mut board, "D", "20", Player::White), Err(GameError::Range));
    assert_eq!(board.to_string(), before);
}

#[test]
fn self_capture_is_no_error() {
    let mut board = Board::new(3);
    update_board(&mut board, "A", "2", Player::Black).unwrap();
    update_board(&mut board, "B", "1", Player::Black).unwrap();
    assert_eq!(update_board(&mut board, "A", "1", Player::White), Ok(vec![1]));
    assert_eq!(board.get(Coord(1, 1)), Ok(Cell::Empty));
}

#[test]
fn new_game_has_an_empty_board_and_black_to_move() {
    let game = GameState::new(19);
    assert_eq!(game.to_move(), Player::Black);
    assert_eq!(game.board().to_string(), Board::new(19).to_string());
}

#[test]
fn move_places_alternating_colours() {
    let mut game = GameState::new(3);
    let first = game.apply(&mv("A", "1")).unwrap();
    assert_eq!(first.captured, Vec::<usize>::new());
    assert_eq!(first.rendering.as_deref(), Some("\nx . .\n. . .\n. . ."));
    assert_eq!(game.to_move(), Player::White);
    let second = game.apply(&mv("C", "3")).unwrap();
    assert_eq!(second.rendering.as_deref(), Some("\nx . .\n. . .\n. . o"));
    assert_eq!(game.to_move(), Player::Black);
}

#[test]
fn pass_flips_the_turn_and_shows_the_board() {
    let mut game = GameState::new(2);
    let note = game.apply(&Event::Pass).unwrap();
    assert_eq!(note.captured, Vec::<usize>::new());
    assert_eq!(note.rendering.as_deref(), Some("\n. .\n. ."));
    assert_eq!(game.to_move(), Player::White);
    game.apply(&Event::Pass).unwrap();
    assert_eq!(game.to_move(), Player::Black);
}

#[test]
fn unrecognized_event_changes_nothing() {
    let mut game = GameState::new(3);
    game.apply(&mv("B", "2")).unwrap();
    let before = game.board().to_string();
    let note = game.apply(&Event::Unrecognized).unwrap();
    assert_eq!(note, Annotation { captured: vec![], rendering: None });
    assert_eq!(game.to_move(), Player::White);
    assert_eq!(game.board().to_string(), before);
}

#[test]
fn game_end_clears_the_board_and_gives_black_the_move() {
    let mut game = GameState::new(3);
    game.apply(&mv("B", "2")).unwrap();
    assert_eq!(game.to_move(), Player::White);
    let note = game.apply(&Event::GameEnd).unwrap();
    assert_eq!(note, Annotation { captured: vec![], rendering: None });
    assert_eq!(game.to_move(), Player::Black);
    assert_eq!(game.board().to_string(), "\n. . .\n. . .\n. . .");
    let next = game.apply(&mv("A", "1")).unwrap();
    assert_eq!(next.rendering.as_deref(), Some("\nx . .\n. . .\n. . ."));
}

#[test]
fn move_after_game_end_is_as_the_first_move_of_a_game() {
    let mut played = GameState::new(5);
    for (row, col) in [("A", "1"), ("B", "2"), ("C", "3")].iter() {
        played.apply(&mv(row, col)).unwrap();
    }
    played.apply(&Event::GameEnd).unwrap();
    let mut fresh = GameState::new(5);
    assert_eq!(played.apply(&mv("D", "4")), fresh.apply(&mv("D", "4")));
    assert_eq!(played.to_move(), fresh.to_move());
    assert_eq!(played.board().to_string(), fresh.board().to_string());
}

#[test]
fn captures_do_not_touch_the_turn() {
    let mut game = GameState::new(3);
    // Black and White alternate; White's centre stone falls to Black's
    // fourth neighbour while White throws stones into a corner.
    let moves = [("A", "2"), ("B", "2"), ("B", "1"), ("C", "3"), ("B", "3"), ("C", "1")];
    for (row, col) in moves.iter() {
        game.apply(&mv(row, col)).unwrap();
    }
    assert_eq!(game.to_move(), Player::Black);
    let note = game.apply(&mv("C", "2")).unwrap();
    assert_eq!(note.captured, vec![1, 1, 1]);
    assert_eq!(note.rendering.as_deref(), Some("\n. x .\nx . x\n. x ."));
    assert_eq!(game.to_move(), Player::White);
}

#[test]
fn refused_move_leaves_board_and_turn() {
    let mut game = GameState::new(9);
    game.apply(&mv("A", "1")).unwrap();
    let before = game.board().to_string();
    assert_eq!(game.apply(&mv("K", "1")), Err(GameError::Decode));
    assert_eq!(game.apply(&mv("A", "10")), Err(GameError::Range));
    assert_eq!(game.apply(&mv("A", "")), Err(GameError::Decode));
    assert_eq!(game.to_move(), Player::White);
    assert_eq!(game.board().to_string(), before);
    game.apply(&mv("J", "9")).unwrap();
    assert_eq!(game.board().get(Coord(9, 9)), Ok(Cell::White));
}

#[test]
fn annotation_without_captures_adds_only_the_board() {
    let note = Annotation { captured: vec![], rendering: Some("\n.".to_string()) };
    assert_eq!(annotate(" 1 (A1)", &note), " 1 (A1)\n.\n");
}

#[test]
fn annotation_lists_captured_sizes() {
    let one = Annotation { captured: vec![1], rendering: None };
    assert_eq!(annotate("t", &one), "t Captured chains: 1\n");
    let several = Annotation { captured: vec![3, 12, 361], rendering: Some("\nx".to_string()) };
    assert_eq!(annotate("t", &several), "t Captured chains: 3, 12, 361\nx\n");
}

#[test]
fn blank_annotation_adds_only_the_line_break() {
    let note = Annotation { captured: vec![], rendering: None };
    assert_eq!(annotate("Engine ready", &note), "Engine ready\n");
    assert_eq!(annotate("", &note), "\n");
}

#[test]
fn respond_applies_the_events_of_a_line_in_order() {
    let mut game = GameState::new(2);
    game.apply(&mv("A", "1")).unwrap();
    let events = vec![Event::GameEnd, mv("B", "2")];
    let line = game.respond("over\n 1 (B2)", &events).unwrap();
    assert_eq!(line, "over\n 1 (B2)\n. .\n. x\n");
    assert_eq!(game.to_move(), Player::White);
}

#[test]
fn respond_stops_at_a_refused_event() {
    let mut game = GameState::new(2);
    game.apply(&mv("A", "1")).unwrap();
    let events = vec![Event::GameEnd, mv("C", "1"), Event::Pass];
    assert_eq!(game.respond("x", &events), Err(GameError::Decode));
    // The end of the game took effect; the refused move and the pass did not.
    assert_eq!(game.to_move(), Player::Black);
    assert_eq!(game.board().to_string(), "\n. .\n. .");
}

#[test]
fn respond_to_no_event_hands_the_line_on() {
    let mut game = GameState::new(2);
    assert_eq!(game.respond("hello", &vec![]).unwrap(), "hello\n");
    assert_eq!(game.respond("hello", &vec![Event::Unrecognized]).unwrap(), "hello\n");
}
