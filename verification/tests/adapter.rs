use goban::adapter::{events_of, search, Findings};
use goban::{classify, process_line, Event, GameError, GameState, Player};

fn mv(row: &str, col: &str) -> Event {
    Event::Move(row.to_string(), col.to_string())
}

#[test]
fn numbered_move_is_found_with_its_coordinates() {
    assert_eq!(classify(" 245 (F18)"), vec![mv("F", "18")]);
    assert_eq!(classify("\n1 (Q16)"), vec![mv("Q", "16")]);
    assert_eq!(classify("noise 12 (A1) more"), vec![mv("A", "1")]);
}

#[test]
fn first_move_of_a_line_is_taken() {
    assert_eq!(classify(" 1 (D4) 2 (Q16)"), vec![mv("D", "4")]);
}

#[test]
fn pass_is_found() {
    assert_eq!(classify(" 12 (pass)"), vec![Event::Pass]);
    assert_eq!(classify("pass)"), vec![Event::Pass]);
}

#[test]
fn coordinates_without_a_number_count_as_a_pass() {
    assert_eq!(classify("(F18)"), vec![Event::Pass]);
    assert_eq!(classify("x(F18"), vec![Event::Pass]);
}

#[test]
fn end_of_game_is_found() {
    assert_eq!(classify("Game has ended."), vec![Event::GameEnd]);
    assert_eq!(classify("...\nGame has ended.\nScore: B+3.5"), vec![Event::GameEnd]);
}

#[test]
fn end_of_game_comes_before_the_move_on_the_same_line() {
    assert_eq!(
        classify("Game has ended.\n 1 (Q16)"),
        vec![Event::GameEnd, mv("Q", "16")]
    );
    assert_eq!(
        classify("Game has ended. (pass)"),
        vec![Event::GameEnd, Event::Pass]
    );
}

#[test]
fn other_lines_are_not_recognized() {
    for line in ["", "hello", "245 F18", " 245 (f18)", "game has ended", "(pass"].iter() {
        assert_eq!(classify(line), vec![Event::Unrecognized]);
    }
}

#[test]
fn search_reports_each_pattern() {
    assert_eq!(
        search(" 7 (C3)"),
        Findings {
            game_end: false,
            played: Some(("C".to_string(), "3".to_string())),
            move_or_pass: true
        }
    );
    assert_eq!(
        search("Game has ended"),
        Findings { game_end: true, played: None, move_or_pass: false }
    );
    assert_eq!(
        search("(pass)"),
        Findings { game_end: false, played: None, move_or_pass: true }
    );
}

#[test]
fn events_follow_from_the_findings() {
    let none = Findings { game_end: false, played: None, move_or_pass: false };
    assert_eq!(events_of(none), vec![Event::Unrecognized]);
    let pass = Findings { game_end: false, played: None, move_or_pass: true };
    assert_eq!(events_of(pass), vec![Event::Pass]);
    let played = Findings {
        game_end: false,
        played: Some(("A".to_string(), "1".to_string())),
        move_or_pass: true,
    };
    assert_eq!(events_of(played), vec![mv("A", "1")]);
    let played_only = Findings {
        game_end: true,
        played: Some(("A".to_string(), "1".to_string())),
        move_or_pass: false,
    };
    assert_eq!(events_of(played_only), vec![Event::GameEnd, mv("A", "1")]);
    let ended = Findings { game_end: true, played: None, move_or_pass: false };
    assert_eq!(events_of(ended), vec![Event::GameEnd]);
}

#[test]
fn line_with_a_move_is_annotated_with_the_board() {
    let mut game = GameState::new(3);
    assert_eq!(
        process_line(&mut game, " 1 (B2)"),
        Ok(" 1 (B2)\n. . .\n. x .\n. . .\n".to_string())
    );
    assert_eq!(game.to_move(), Player::White);
}

#[test]
fn line_with_a_capture_is_annotated_with_the_sizes() {
    let mut game = GameState::new(3);
    let lines = [" 1 (A2)", " 2 (B2)", " 3 (B1)", " 4 (pass)", " 5 (B3)", " 6 (pass)"];
    for line in lines.iter() {
        process_line(&mut game, line).unwrap();
    }
    assert_eq!(
        process_line(&mut game, " 7 (C2)"),
        Ok(" 7 (C2) Captured chains: 1\n. x .\nx . x\n. x .\n".to_string())
    );
}

#[test]
fn line_with_a_pass_shows_the_board_as_it_is() {
    let mut game = GameState::new(2);
    process_line(&mut game, " 1 (A1)").unwrap();
    assert_eq!(
        process_line(&mut game, " 2 (pass)"),
        Ok(" 2 (pass)\nx .\n. .\n".to_string())
    );
    assert_eq!(game.to_move(), Player::Black);
}

#[test]
fn other_lines_pass_through() {
    let mut game = GameState::new(2);
    assert_eq!(process_line(&mut game, "Starting"), Ok("Starting\n".to_string()));
    assert_eq!(game.to_move(), Player::Black);
}

#[test]
fn line_that_ends_a_game_and_opens_the_next() {
    let mut game = GameState::new(2);
    process_line(&mut game, " 1 (A1)").unwrap();
    assert_eq!(
        process_line(&mut game, "Game has ended.\n 1 (B2)"),
        Ok("Game has ended.\n 1 (B2)\n. .\n. x\n".to_string())
    );
    assert_eq!(game.to_move(), Player::White);
}

#[test]
fn move_off_the_board_is_refused() {
    let mut game = GameState::new(9);
    assert_eq!(process_line(&mut game, " 1 (A10)"), Err(GameError::Range));
    assert_eq!(process_line(&mut game, " 1 (K1)"), Err(GameError::Decode));
    assert_eq!(process_line(&mut game, " 1 (I1)"), Err(GameError::Decode));
    assert_eq!(process_line(&mut game, " 1 (A0)"), Err(GameError::Decode));
    assert_eq!(game.to_move(), Player::Black);
    assert_eq!(game.board().to_string(), GameState::new(9).board().to_string());
}
