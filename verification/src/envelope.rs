//! The value shapes handed across the shell boundary: the board's display
//! projection, alone or together with a move's outcome. The shell layer
//! copies these into whatever wire format it speaks; the engine itself
//! never encodes anything.

use vstd::prelude::*;

verus! {

/// The whole-board display projection, as handed to the shell layer.
pub struct DotsJson {
    pub dots: Vec<Vec<String>>,
}

/// A move's outcome label together with the board's display projection,
/// as handed to the shell layer.
pub struct DotsAndSweptJson {
    pub swept: String,
    pub dots: Vec<Vec<String>>,
}

} // verus!
