//! The per-cell visibility state machine.

use vstd::prelude::*;

verus! {

/// What the player sees of one cell. `Unopened -> Opened` is one-way;
/// `Unopened <-> Flagged` toggles; `Opened` is terminal.
#[derive(Copy, Clone, Debug, PartialEq, Eq, Structural)]
pub enum CellState {
    Unopened,
    Opened,
    Flagged,
}

} // verus!
