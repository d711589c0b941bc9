//! A live model of a Go board that follows the output of an engine.
//!
//! The engine plays and reports each move in a line of text.  This library
//! keeps a board beside it: every reported stone is placed, and after it
//! the whole board is swept once, in row-major order and without regard to
//! colour; each chain found without a liberty is taken off and its size
//! noted.  The line is handed on with the sizes and a drawing of the board
//! added to it.
//!
//! The modules, leaves first:
//!
//! * [`stone`]: players, cell states and their symbols;
//! * [`error`]: the two reasons for which an event is refused;
//! * [`board`]: the square grid and its mathematical view;
//! * [`chain`]: chains, liberties and the flood fill that finds them;
//! * [`capture`]: the sweep that removes chains without liberties;
//! * [`codec`]: row letters and column numbers;
//! * [`text`] and [`render`]: numbers and boards as text;
//! * [`game`]: the board and the turn as a state machine over typed events;
//! * [`adapter`]: from the engine's lines to typed events;
//! * [`version`]: the version that the engine's client reports;
//! * [`laws`]: what is proved of the sweep and of the game as a whole.

pub mod adapter;
pub mod board;
pub mod capture;
pub mod chain;
pub mod codec;
pub mod error;
pub mod game;
pub mod laws;
mod marks;
pub mod render;
pub mod stone;
pub mod text;
pub mod version;

pub use adapter::{classify, process_line};
pub use board::{get_index, Board, Coord};
pub use capture::resolve_capture;
pub use chain::{process_chain, Chain};
pub use error::GameError;
pub use game::{annotate, update_board, Annotation, Event, GameState};
pub use stone::{Cell, Player};
pub use version::{is_early_version, version_of};
