//! Entry point of the interactive game.

use vstd::prelude::*;
use crate::board::Board;

verus! {

/// Starts an interactive game on `_board`; the game loop is not written yet, so
/// nothing happens.
pub fn tui_start(_board: Board) {
}

} // verus!
