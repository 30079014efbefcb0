//! Per-cell display state: what the presentation layer reads for every
//! coordinate, and the small spec transforms on it (mark toggling, the
//! predicates cells are counted under).

use vstd::prelude::*;

verus! {

/// The display state of one cell.  `Hidden` is the initial state;
/// `Flagged` is a hidden cell additionally marked; `Revealed(n)` carries
/// the cell's neighbor mine count; the two mine variants appear only
/// through the loss reveal, `DetonatedMine` on the mine that ended the
/// game.
#[derive(Clone, Copy, Debug, PartialEq, Eq, Structural)]
pub enum CellState {
    Hidden,
    Flagged,
    Revealed(u8),
    RevealedMine,
    DetonatedMine,
}

/// A cell that still counts toward the win check: not yet revealed.
pub open spec fn is_unrevealed(c: CellState) -> bool {
    c is Hidden || c is Flagged
}

/// The predicate under which cells are counted for the win check.
pub open spec fn unrevealed_flag() -> spec_fn(CellState) -> bool {
    |c: CellState| is_unrevealed(c)
}

/// The predicate under which cells are counted for cascade termination.
pub open spec fn hidden_flag() -> spec_fn(CellState) -> bool {
    |c: CellState| c is Hidden
}

/// The predicate under which cells are counted for the flag counter.
pub open spec fn flagged_flag() -> spec_fn(CellState) -> bool {
    |c: CellState| c is Flagged
}

/// What toggling the mark does to one cell: hidden and flagged trade
/// places, every other state is left alone.
pub open spec fn toggled(c: CellState) -> CellState {
    match c {
        CellState::Hidden => CellState::Flagged,
        CellState::Flagged => CellState::Hidden,
        _ => c,
    }
}

/// Toggling twice is the identity on a cell.
pub proof fn lemma_toggled_involution(c: CellState)
    ensures
        toggled(toggled(c)) == c,
{
}

} // verus!
