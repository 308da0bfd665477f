//! The per-position cell state, the outcome of a move, the mine-density tier,
//! and the error type, together with their basic spec-level predicates.

use vstd::prelude::*;

verus! {

/// The state of one board position.
///
/// A cell is `Number(n)` exactly when it has been revealed and is not a mine;
/// `n` counts the mines among its up-to-eight neighbours, so `0 <= n <= 8`.
/// `Mine` and `FlaggedMine` cells are never revealed to a `Number`;
/// `Unexplored` and `FlaggedSafe` are the not-yet-revealed non-mines.
#[derive(Clone, Copy, Debug, PartialEq, Eq, Structural)]
pub enum Dot {
    Unexplored,
    FlaggedSafe,
    FlaggedMine,
    Mine,
    Number(u64),
}

/// The outcome of a `sweep` or `flag` call.
#[derive(Clone, Copy, Debug, PartialEq, Eq, Structural)]
pub enum Swept {
    Safe,
    Bomb,
    Stay,
    Clear,
}

/// The tier that fixes which fraction of the cells is seeded with mines.
#[derive(Clone, Copy, Debug, PartialEq, Eq, Structural)]
pub enum Density {
    Low,
    Middle,
    High,
}

/// A recoverable contract violation surfaced to the caller.
#[derive(Clone, Copy, Debug, PartialEq, Eq, Structural)]
pub enum GameError {
    /// The given coordinates lie outside the configured grid.
    OutOfBounds,
}

/// Whether this cell hides a mine, flagged or not. Sweeping and flagging
/// never change this underlying fact, only its presentation.
pub open spec fn is_mine_dot(d: Dot) -> bool {
    d == Dot::Mine || d == Dot::FlaggedMine
}

/// Whether this cell is correctly accounted for: revealed when safe, or
/// flagged when it hides a mine. The game is won when every cell is solved.
pub open spec fn is_solved_dot(d: Dot) -> bool {
    d is Number || d == Dot::FlaggedMine
}

/// The state a cell moves to when the player toggles its flag. Revealed
/// cells are left alone; all other states toggle in pairs, so applying
/// this twice returns any cell to where it started.
pub open spec fn flag_toggle(d: Dot) -> Dot {
    match d {
        Dot::Unexplored => Dot::FlaggedSafe,
        Dot::FlaggedSafe => Dot::Unexplored,
        Dot::Mine => Dot::FlaggedMine,
        Dot::FlaggedMine => Dot::Mine,
        Dot::Number(n) => Dot::Number(n),
    }
}

/// How much the solved-cell counter moves when a cell's flag is toggled:
/// flagging a mine solves it, unflagging one unsolves it, and flags on
/// safe cells are mere annotations.
pub open spec fn flag_delta(d: Dot) -> int {
    match d {
        Dot::Mine => 1,
        Dot::FlaggedMine => -1,
        _ => 0,
    }
}

/// The percentage of cells nominally seeded with mines at each tier.
pub open spec fn density_ratio(d: Density) -> int {
    match d {
        Density::Low => 5,
        Density::Middle => 10,
        Density::High => 20,
    }
}

/// The decimal digit for a revealed cell's adjacent-mine count.
/// Meaningful for `0 <= n <= 8`, the only counts a cell can carry.
pub open spec fn digit_label(n: int) -> Seq<char> {
    if n == 0 {
        "0"@
    } else if n == 1 {
        "1"@
    } else if n == 2 {
        "2"@
    } else if n == 3 {
        "3"@
    } else if n == 4 {
        "4"@
    } else if n == 5 {
        "5"@
    } else if n == 6 {
        "6"@
    } else if n == 7 {
        "7"@
    } else {
        "8"@
    }
}

/// What the display projection shows for a cell: nothing for unexplored
/// cells and for unrevealed mines (mine positions are never disclosed),
/// `"flag"` for either kind of flag, and the digit for a revealed count.
pub open spec fn dot_label(d: Dot) -> Seq<char> {
    match d {
        Dot::Unexplored => ""@,
        Dot::Mine => ""@,
        Dot::FlaggedSafe => "flag"@,
        Dot::FlaggedMine => "flag"@,
        Dot::Number(n) => digit_label(n as int),
    }
}

/// The single-character form of a cell used by diagnostic dumps.
pub open spec fn dbg_label(d: Dot) -> Seq<char> {
    match d {
        Dot::Unexplored => " "@,
        Dot::FlaggedSafe => "f"@,
        Dot::FlaggedMine => "F"@,
        Dot::Mine => "M"@,
        Dot::Number(n) => digit_label(n as int),
    }
}

impl Dot {
    /// Renders the cell as the single character used by diagnostic dumps.
    pub fn dbg(&self) -> (r: String)
        requires
            self matches Dot::Number(n) ==> n <= 8,
        ensures
            r@ == dbg_label(*self),
    {
        match self {
            Dot::Unexplored => " ".to_owned(),
            Dot::FlaggedSafe => "f".to_owned(),
            Dot::FlaggedMine => "F".to_owned(),
            Dot::Mine => "M".to_owned(),
            Dot::Number(n) => digit_string(*n),
        }
    }
}

/// Renders an adjacent-mine count as its decimal digit.
pub fn digit_string(n: u64) -> (r: String)
    requires
        n <= 8,
    ensures
        r@ == digit_label(n as int),
{
    match n {
        0 => "0".to_owned(),
        1 => "1".to_owned(),
        2 => "2".to_owned(),
        3 => "3".to_owned(),
        4 => "4".to_owned(),
        5 => "5".to_owned(),
        6 => "6".to_owned(),
        7 => "7".to_owned(),
        _ => "8".to_owned(),
    }
}

/// The spelling of an outcome on the wire, as the shell layer reports it.
pub open spec fn swept_label_spec(s: Swept) -> Seq<char> {
    match s {
        Swept::Safe => "safe"@,
        Swept::Bomb => "bomb"@,
        Swept::Stay => "stay"@,
        Swept::Clear => "clear"@,
    }
}

/// Spells an outcome for the shell layer, which speaks strings.
pub fn swept_label(swept: Swept) -> (r: String)
    ensures
        r@ == swept_label_spec(swept),
{
    match swept {
        Swept::Safe => "safe".to_owned(),
        Swept::Bomb => "bomb".to_owned(),
        Swept::Stay => "stay".to_owned(),
        Swept::Clear => "clear".to_owned(),
    }
}

} // verus!
