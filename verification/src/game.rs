//! The game as a state machine: typed events in, annotations out.

use crate::board::{Board, BoardView};
use crate::capture::{as_nats, resolve_capture};
use crate::codec::{decode_move, decode_move_spec};
use crate::error::GameError;
use crate::stone::Player;
use crate::text::{decimal, push_decimal};
use vstd::prelude::*;
use vstd::string::*;

verus! {

/// What a line of the engine's output tells.
#[derive(Debug, PartialEq, Eq)]
pub enum Event {
    /// A stone was played: the letter of its row and the number of its
    /// column, as the engine wrote them.
    Move(String, String),
    /// The player to move passed.
    Pass,
    /// The game is over; the next move opens a new one.
    GameEnd,
    /// Anything else.
    Unrecognized,
}

/// An event with its texts as sequences of characters.
pub enum EventView {
    Move(Seq<char>, Seq<char>),
    Pass,
    GameEnd,
    Unrecognized,
}

impl View for Event {
    type V = EventView;

    open spec fn view(&self) -> EventView {
        match self {
            Event::Move(row, col) => EventView::Move(row@, col@),
            Event::Pass => EventView::Pass,
            Event::GameEnd => EventView::GameEnd,
            Event::Unrecognized => EventView::Unrecognized,
        }
    }
}

/// What an event adds to the line that told of it.
#[derive(Debug, PartialEq, Eq)]
pub struct Annotation {
    /// The sizes of the chains that the event took off the board, in the
    /// order of the sweep.
    pub captured: Vec<usize>,
    /// The board after the event, rendered; `None` where the event shows no
    /// board.
    pub rendering: Option<String>,
}

/// An annotation as mathematical values.
pub struct AnnotationView {
    pub captured: Seq<nat>,
    pub rendering: Option<Seq<char>>,
}

impl View for Annotation {
    type V = AnnotationView;

    open spec fn view(&self) -> AnnotationView {
        AnnotationView {
            captured: as_nats(self.captured@),
            rendering: match self.rendering {
                Some(text) => Some(text@),
                None => None,
            },
        }
    }
}

/// Numbers in decimal with a comma and a space between them.
pub open spec fn joined(sizes: Seq<nat>) -> Seq<char>
    decreases sizes.len(),
{
    if sizes.len() == 0 {
        Seq::empty()
    } else if sizes.len() == 1 {
        decimal(sizes[0])
    } else {
        joined(sizes.drop_last()) + ", "@ + decimal(sizes.last())
    }
}

impl AnnotationView {
    /// The annotation with nothing in it.
    pub open spec fn blank() -> AnnotationView {
        AnnotationView { captured: Seq::empty(), rendering: None }
    }

    /// The note on captured chains: nothing where no chain was taken, else
    /// the label and the sizes.
    pub open spec fn capture_note(self) -> Seq<char> {
        if self.captured.len() == 0 {
            Seq::empty()
        } else {
            " Captured chains: "@ + joined(self.captured)
        }
    }

    /// The text that the annotation adds to a line: the note on captured
    /// chains, then the rendered board if there is one.
    pub open spec fn suffix(self) -> Seq<char> {
        self.capture_note() + match self.rendering {
            Some(text) => text,
            None => Seq::empty(),
        }
    }
}

impl Annotation {
    /// Appends to `out` the text that the annotation adds to a line.
    pub fn push_suffix(&self, out: &mut String)
        ensures
            final(out)@ == old(out)@ + self@.suffix(),
    {
        let ghost base = out@;
        let ghost sizes = as_nats(self.captured@);
        if self.captured.len() > 0 {
            out.append(" Captured chains: ");
            let ghost labelled = out@;
            let mut i: usize = 0;
            assert(sizes.take(0) =~= Seq::<nat>::empty());
            while i < self.captured.len()
                invariant
                    i <= self.captured@.len(),
                    sizes == as_nats(self.captured@),
                    out@ == labelled + joined(sizes.take(i as int)),
                decreases self.captured@.len() - i,
            {
                let ghost before = out@;
                if i > 0 {
                    out.append(", ");
                }
                push_decimal(out, self.captured[i]);
                proof {
                    let longer = sizes.take(i + 1);
                    assert(longer.drop_last() =~= sizes.take(i as int));
                    assert(longer.last() == self.captured@[i as int] as nat);
                    if i > 0 {
                        assert(out@ =~= labelled + (joined(sizes.take(i as int)) + ", "@ + decimal(
                            longer.last(),
                        )));
                    } else {
                        assert(out@ =~= labelled + decimal(longer[0]));
                    }
                }
                i += 1;
            }
            proof {
                assert(sizes.take(i as int) =~= sizes);
                assert(out@ =~= base + self@.capture_note());
            }
        } else {
            assert(out@ =~= base + self@.capture_note());
        }
        let ghost noted = out@;
        match &self.rendering {
            Some(text) => {
                out.append(text.as_str());
            },
            None => {
                assert(out@ =~= noted + Seq::<char>::empty());
            },
        }
        assert(out@ =~= base + self@.suffix());
    }
}

/// A line as it is handed on: the text as it came, what the annotation adds
/// to it, and a line break.
pub open spec fn annotated(text: Seq<char>, note: AnnotationView) -> Seq<char> {
    text + note.suffix() + "\n"@
}

/// Annotates a line.
pub fn annotate(text: &str, note: &Annotation) -> (line: String)
    ensures
        line@ == annotated(text@, note@),
{
    let mut line = String::from_str(text);
    note.push_suffix(&mut line);
    line.append("\n");
    line
}

/// Places a stone of `current_player` at the point that the two tokens name,
/// then resolves captures on the whole board and returns the sizes of the
/// chains taken off.  A point that holds a stone already is overwritten.
/// Where the tokens name no point of the board the move is refused and the
/// board stays as it was.
pub fn update_board(
    board: &mut Board,
    row_str: &str,
    col_str: &str,
    current_player: Player,
) -> (r: Result<Vec<usize>, GameError>)
    requires
        old(board).wf(),
    ensures
        final(board).wf(),
        match decode_move_spec(old(board)@.size, row_str@, col_str@) {
            Err(e) => r == Err::<Vec<usize>, GameError>(e) && final(board)@ == old(board)@,
            Ok(c) => r matches Ok(sizes) && (final(board)@, as_nats(sizes@)) == old(board)@.put(
                c,
                current_player.stone_spec(),
            ).resolve(),
        },
{
    let n = board.size();
    match decode_move(n, row_str, col_str) {
        Err(e) => Err(e),
        Ok(coord) => match board.set(coord, current_player.stone()) {
            Err(e) => Err(e),
            Ok(()) => Ok(resolve_capture(board)),
        },
    }
}

/// The state of a game as mathematical values.
pub struct GameView {
    pub board: BoardView,
    pub to_move: Player,
}

impl GameView {
    /// The start of a game on a board of side `size`: no stone, Black to
    /// move.
    pub open spec fn initial(size: nat) -> GameView {
        GameView { board: BoardView::empty(size), to_move: Player::Black }
    }

    /// The state after an event and the annotation that the event earns, or
    /// the reason for which the event is refused.
    ///
    /// A move places a stone of the player to move, resolves captures, and
    /// hands the turn over; its annotation holds the captured sizes and the
    /// board after the move.  A pass hands the turn over and shows the
    /// board.  The end of a game clears the board and gives Black the move.
    /// Anything else changes nothing.  Captures never touch the turn.
    pub open spec fn step(self, event: EventView) -> Result<(GameView, AnnotationView), GameError> {
        match event {
            EventView::Move(row, col) => match decode_move_spec(self.board.size, row, col) {
                Err(e) => Err(e),
                Ok(c) => {
                    let (board, captured) = self.board.put(c, self.to_move.stone_spec()).resolve();
                    Ok(
                        (
                            GameView { board, to_move: self.to_move.opponent_spec() },
                            AnnotationView { captured, rendering: Some(board.render()) },
                        ),
                    )
                },
            },
            EventView::Pass => Ok(
                (
                    GameView { board: self.board, to_move: self.to_move.opponent_spec() },
                    AnnotationView {
                        captured: Seq::empty(),
                        rendering: Some(self.board.render()),
                    },
                ),
            ),
            EventView::GameEnd => Ok(
                (GameView::initial(self.board.size), AnnotationView::blank()),
            ),
            EventView::Unrecognized => Ok((self, AnnotationView::blank())),
        }
    }

    /// The events of one line, taken in order: the state they lead to, and
    /// the text that they add to the line.  The first event that is refused
    /// ends the run: the state is the one that the events before it left,
    /// and the reason takes the place of the text.
    pub open spec fn run(self, events: Seq<EventView>) -> (GameView, Result<Seq<char>, GameError>)
        decreases events.len(),
    {
        if events.len() == 0 {
            (self, Ok(Seq::empty()))
        } else {
            let (state, outcome) = self.run(events.drop_last());
            match outcome {
                Err(e) => (state, Err(e)),
                Ok(text) => match state.step(events.last()) {
                    Err(e) => (state, Err(e)),
                    Ok((next, note)) => (next, Ok(text + note.suffix())),
                },
            }
        }
    }
}

/// The views of a list of events.
pub open spec fn event_views(events: Seq<Event>) -> Seq<EventView> {
    events.map_values(|e: Event| e@)
}

/// A game: the board and the player to move.  Both change only through
/// `apply`.
pub struct GameState {
    board: Board,
    to_move: Player,
}

impl View for GameState {
    type V = GameView;

    closed spec fn view(&self) -> GameView {
        GameView { board: self.board@, to_move: self.to_move }
    }
}

impl GameState {
    /// The board of the game is well formed.
    pub closed spec fn wf(&self) -> bool {
        self.board.wf()
    }

    /// A new game on a board of side `size`.
    pub fn new(size: usize) -> (game: GameState)
        requires
            size * size <= usize::MAX,
        ensures
            game.wf(),
            game@ == GameView::initial(size as nat),
    {
        GameState { board: Board::new(size), to_move: Player::Black }
    }

    /// The board as it stands.
    pub fn board(&self) -> (board: &Board)
        requires
            self.wf(),
        ensures
            board.wf(),
            board@ == self@.board,
    {
        &self.board
    }

    /// The player who moves next.
    pub fn to_move(&self) -> (player: Player)
        ensures
            player == self@.to_move,
    {
        self.to_move
    }

    /// Takes one event in.  An event that is refused leaves the game as it
    /// was.
    pub fn apply(&mut self, event: &Event) -> (r: Result<Annotation, GameError>)
        requires
            old(self).wf(),
        ensures
            final(self).wf(),
            match old(self)@.step(event@) {
                Err(e) => r == Err::<Annotation, GameError>(e) && final(self)@ == old(self)@,
                Ok((state, note)) => r matches Ok(found) && found@ == note && final(self)@
                    == state,
            },
    {
        match event {
            Event::Move(row, col) => {
                match update_board(&mut self.board, row.as_str(), col.as_str(), self.to_move) {
                    Err(e) => Err(e),
                    Ok(captured) => {
                        self.to_move = self.to_move.opponent();
                        let rendering = self.board.to_string();
                        Ok(Annotation { captured, rendering: Some(rendering) })
                    },
                }
            },
            Event::Pass => {
                self.to_move = self.to_move.opponent();
                let rendering = self.board.to_string();
                let note = Annotation { captured: Vec::new(), rendering: Some(rendering) };
                assert(note@.captured =~= Seq::<nat>::empty());
                Ok(note)
            },
            Event::GameEnd => {
                let n = self.board.size();
                self.board = Board::new(n);
                self.to_move = Player::Black;
                let note = Annotation { captured: Vec::new(), rendering: None };
                assert(note@.captured =~= Seq::<nat>::empty());
                Ok(note)
            },
            Event::Unrecognized => {
                let note = Annotation { captured: Vec::new(), rendering: None };
                assert(note@.captured =~= Seq::<nat>::empty());
                Ok(note)
            },
        }
    }

    /// Takes the events of one line in, in order, and returns the line as it
    /// is handed on: the text, what each event adds to it, and a line break.
    /// The first event that is refused ends the work on the line: the events
    /// before it have had their effect, the refused one has none, and its
    /// reason is returned.
    pub fn respond(&mut self, text: &str, events: &Vec<Event>) -> (r: Result<String, GameError>)
        requires
            old(self).wf(),
        ensures
            final(self).wf(),
            final(self)@ == old(self)@.run(event_views(events@)).0,
            match old(self)@.run(event_views(events@)).1 {
                Err(e) => r == Err::<String, GameError>(e),
                Ok(added) => r matches Ok(line) && line@ == text@ + added + "\n"@,
            },
    {
        let ghost views = event_views(events@);
        let ghost start = self@;
        let mut line = String::from_str(text);
        let mut i: usize = 0;
        assert(views.take(0) =~= Seq::<EventView>::empty());
        assert(line@ =~= text@ + Seq::<char>::empty());
        while i < events.len()
            invariant
                self.wf(),
                i <= events@.len(),
                views == event_views(events@),
                start == old(self)@,
                start.run(views.take(i as int)).0 == self@,
                start.run(views.take(i as int)).1 matches Ok(added) && line@ == text@ + added,
            decreases events@.len() - i,
        {
            proof {
                let longer = views.take(i + 1);
                assert(longer.drop_last() =~= views.take(i as int));
                assert(longer.last() == events@[i as int]@);
            }
            let ghost added = start.run(views.take(i as int)).1->Ok_0;
            let ghost before = self@;
            match self.apply(&events[i]) {
                Err(e) => {
                    proof {
                        assert(before.step(views.take(i + 1).last()) is Err);
                        assert(start.run(views.take(i + 1)) == (before, Err::<Seq<char>, GameError>(e)));
                        lemma_run_stops(start, views, i + 1);
                    }
                    return Err(e);
                },
                Ok(note) => {
                    note.push_suffix(&mut line);
                    assert(line@ =~= text@ + (added + note@.suffix()));
                },
            }
            i += 1;
        }
        assert(views.take(i as int) =~= views);
        line.append("\n");
        Ok(line)
    }
}

/// Once an event of a line is refused, the events after it are not looked
/// at.
pub proof fn lemma_run_stops(start: GameView, events: Seq<EventView>, n: int)
    requires
        0 <= n <= events.len(),
        start.run(events.take(n)).1 is Err,
    ensures
        start.run(events) == start.run(events.take(n)),
    decreases events.len() - n,
{
    if n < events.len() {
        let longer = events.take(n + 1);
        assert(longer.drop_last() =~= events.take(n));
        lemma_run_stops(start, events, n + 1);
    } else {
        assert(events.take(n) =~= events);
    }
}

} // verus!
