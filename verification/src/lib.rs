//! A verified rule engine for a Minesweeper-style puzzle: a rectangular board
//! of cells, lazy mine placement, flood-fill reveal, and flag bookkeeping.

use vstd::prelude::*;

pub mod cell;
pub mod grid;
pub mod scatter;
pub mod game;
pub mod envelope;
pub mod laws;

verus! {

} // verus!
