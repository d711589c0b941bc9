//! From the engine's lines to typed events.
//!
//! The engine reports in prose.  Three patterns tell what a line holds: the
//! announcement that a game has ended, a numbered move with its coordinates,
//! and the mark of a move or a pass.  The patterns are matched by the `regex`
//! crate; what is made of the matches is decided here.

use crate::error::GameError;
use crate::game::{event_views, Event, EventView, GameState};
use vstd::prelude::*;
use vstd::string::*;

verus! {

/// The phrase that announces the end of a game.
pub const END_PATTERN: &'static str = "Game has ended";

/// A numbered move: the move's number, then in brackets the letter of the
/// row and the number of the column, which are the two groups.
pub const MOVE_PATTERN: &'static str = "[ \\n]\\d+ \\(([A-Z])(\\d+)\\)";

/// The mark of a move or of a pass.
pub const MOVE_OR_PASS_PATTERN: &'static str = "\\((?:[A-Z]\\d+)|(?:pass)\\)";

/// Whether the regular expression `pattern` matches anywhere in `text`, as
/// the `regex` crate decides it; `None` where the crate does not accept the
/// pattern.
pub uninterp spec fn pattern_found(pattern: Seq<char>, text: Seq<char>) -> Option<bool>;

/// The texts of the first and the second group of the first match of the
/// regular expression `pattern` in `text`, as the `regex` crate finds them;
/// `None` where the crate does not accept the pattern, where nothing
/// matches, or where one of the two groups took no part in the match.
pub uninterp spec fn pattern_groups(pattern: Seq<char>, text: Seq<char>) -> Option<
    (Seq<char>, Seq<char>),
>;

/// Compiles `pattern` with `regex::Regex::new` and asks `Regex::is_match`
/// whether it matches anywhere in `text`.  The contract claims only that
/// the answer is determined by the pattern and the text.
#[verifier::external_body]
fn find_pattern(pattern: &str, text: &str) -> (found: Option<bool>)
    ensures
        found == pattern_found(pattern@, text@),
{
    match regex::Regex::new(pattern) {
        Ok(re) => Some(re.is_match(text)),
        Err(_) => None,
    }
}

/// Compiles `pattern` with `regex::Regex::new`, searches `text` with
/// `Regex::captures`, and copies out the texts of groups 1 and 2 of the
/// first match (`Captures::get`, `Match::as_str`).  The contract claims
/// only that the outcome is determined by the pattern and the text.
#[verifier::external_body]
fn find_groups(pattern: &str, text: &str) -> (groups: Option<(String, String)>)
    ensures
        match groups {
            Some((first, second)) => pattern_groups(pattern@, text@) == Some((first@, second@)),
            None => pattern_groups(pattern@, text@) is None,
        },
{
    let re = regex::Regex::new(pattern).ok()?;
    let caps = re.captures(text)?;
    Some((caps.get(1)?.as_str().to_string(), caps.get(2)?.as_str().to_string()))
}

/// What the three patterns found in a line.
#[derive(Debug, PartialEq, Eq)]
pub struct Findings {
    /// The line announces the end of a game.
    pub game_end: bool,
    /// The row letter and the column number of the move that the line
    /// reports, if it reports one.
    pub played: Option<(String, String)>,
    /// The line bears the mark of a move or of a pass.
    pub move_or_pass: bool,
}

/// The findings as mathematical values.
pub struct FindingsView {
    pub game_end: bool,
    pub played: Option<(Seq<char>, Seq<char>)>,
    pub move_or_pass: bool,
}

impl View for Findings {
    type V = FindingsView;

    open spec fn view(&self) -> FindingsView {
        FindingsView {
            game_end: self.game_end,
            played: match self.played {
                Some((row, col)) => Some((row@, col@)),
                None => None,
            },
            move_or_pass: self.move_or_pass,
        }
    }
}

impl FindingsView {
    /// The events that a line with these findings tells of, in the order in
    /// which they take effect: the end of a game comes first, so that a move
    /// reported on the same line opens the next game; a move comes before a
    /// mere pass; a line with none of these is not recognized.
    pub open spec fn events(self) -> Seq<EventView> {
        let ended = if self.game_end {
            seq![EventView::GameEnd]
        } else {
            Seq::empty()
        };
        let turn = match self.played {
            Some((row, col)) => seq![EventView::Move(row, col)],
            None => if self.move_or_pass {
                seq![EventView::Pass]
            } else {
                Seq::empty()
            },
        };
        if (ended + turn).len() == 0 {
            seq![EventView::Unrecognized]
        } else {
            ended + turn
        }
    }
}

/// What the three patterns find in `line`.  A pattern that the `regex`
/// crate does not accept finds nothing.
pub open spec fn findings_of(line: Seq<char>) -> FindingsView {
    FindingsView {
        game_end: pattern_found(END_PATTERN@, line) == Some(true),
        played: pattern_groups(MOVE_PATTERN@, line),
        move_or_pass: pattern_found(MOVE_OR_PASS_PATTERN@, line) == Some(true),
    }
}

/// Turns the findings on a line into the events that the line tells of.
pub fn events_of(found: Findings) -> (events: Vec<Event>)
    ensures
        event_views(events@) == found@.events(),
{
    let ghost view = found@;
    let mut events: Vec<Event> = Vec::new();
    if found.game_end {
        events.push(Event::GameEnd);
    }
    match found.played {
        Some((row, col)) => {
            events.push(Event::Move(row, col));
        },
        None => {
            if found.move_or_pass {
                events.push(Event::Pass);
            }
        },
    }
    if events.len() == 0 {
        events.push(Event::Unrecognized);
    }
    assert(event_views(events@) =~= view.events());
    events
}

/// Matches the three patterns against `line`.
pub fn search(line: &str) -> (found: Findings)
    ensures
        found@ == findings_of(line@),
{
    let game_end = match find_pattern(END_PATTERN, line) {
        Some(found) => found,
        None => false,
    };
    let played = find_groups(MOVE_PATTERN, line);
    let move_or_pass = match find_pattern(MOVE_OR_PASS_PATTERN, line) {
        Some(found) => found,
        None => false,
    };
    Findings { game_end, played, move_or_pass }
}

/// The events that `line` tells of.
pub fn classify(line: &str) -> (events: Vec<Event>)
    ensures
        event_views(events@) == findings_of(line@).events(),
{
    events_of(search(line))
}

/// Takes one line of the engine's output in: finds the events it tells of,
/// lets each take effect on the game, and returns the line as it is handed
/// on.
pub fn process_line(game: &mut GameState, line: &str) -> (r: Result<String, GameError>)
    requires
        old(game).wf(),
    ensures
        final(game).wf(),
        final(game)@ == old(game)@.run(findings_of(line@).events()).0,
        match old(game)@.run(findings_of(line@).events()).1 {
            Err(e) => r == Err::<String, GameError>(e),
            Ok(added) => r matches Ok(out) && out@ == line@ + added + "\n"@,
        },
{
    let events = classify(line);
    game.respond(line, &events)
}

} // verus!
