//! A verified Minesweeper board model: mine placement, adjacency queries,
//! the reveal/mark state machine with cascading reveals, and win/lose/reset
//! detection.  Rendering and input handling are left to callers, which feed
//! the session plain reveal/mark/reset requests and read back per-cell
//! display states and the game phase.

use vstd::prelude::*;

pub mod arith;
pub mod board;
pub mod cells;
pub mod counting;
pub mod laws;
pub mod options;
pub mod session;

pub use board::Board;
pub use cells::CellState;
pub use options::BoardOptions;
pub use options::Level;
pub use session::GamePhase;
pub use session::GameSession;
pub use session::InputEvent;
pub use session::LastStep;

verus! {

/// The one way a request can fail: board parameters no board can satisfy.
/// Anything else (a coordinate off the board, an event out of phase)
/// degrades to a silent no-op instead.
#[derive(Clone, Copy, Debug, PartialEq, Eq, Structural)]
pub enum GameError {
    InvalidParameters,
}

} // verus!
