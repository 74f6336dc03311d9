use vstd::prelude::*;

use std::rc::Rc;

use crate::clue::{Clue, ClueOrientation, ClueSet, Deduction};
use crate::grid::CandidateGrid;
use crate::tile::Difficulty;

verus! {

/// Figures of a finished game.
#[derive(Debug, Clone, Copy, PartialEq, Eq, Structural)]
pub struct GameStats {
    pub completion_time_secs: u64,
    pub hints_used: u32,
    pub grid_size: usize,
    pub difficulty: Difficulty,
}

/// The game clock as the player sees it.
#[derive(Debug, Clone, Copy, PartialEq, Eq, Structural)]
pub struct TimerState {
    pub elapsed_secs: u64,
    pub paused: bool,
}

/// A clue together with where it stands in the clue set.
#[derive(Debug, Clone, Copy, PartialEq, Eq, Structural)]
pub struct ClueWithAddress {
    pub orientation: ClueOrientation,
    pub index: usize,
    pub clue: Clue,
}

/// The clue the player selected, and whether it has the focus.
#[derive(Debug, Clone, Copy, PartialEq, Eq, Structural)]
pub struct ClueSelection {
    pub clue: ClueWithAddress,
    pub is_focused: bool,
}

/// Where the player stands with the puzzle.
#[derive(Debug, Clone, Copy, PartialEq, Eq, Structural)]
pub enum PuzzleCompletionState {
    /// Some tile still has more than one position left.
    Incomplete,
    /// Every tile is resolved, and where the solution has it.
    Correct(GameStats),
    /// Every tile is resolved, and some tile is not where the solution has it.
    Incorrect,
}

/// A change of the game state, told to whoever presents it.
#[derive(Debug)]
pub enum GameStateEvent {
    HistoryChanged { history_index: usize, history_length: usize },
    GridUpdate(CandidateGrid),
    ClueStatusUpdate { horizontal_hidden_tiles: Vec<usize>, vertical_hidden_tiles: Vec<usize> },
    CellHintHighlight(Deduction),
    HintUsageChanged(u32),
    TimerStateChanged(TimerState),
    PuzzleSubmissionReadyChanged(bool),
    PuzzleCompleted(PuzzleCompletionState),
    ClueHintHighlight(Option<ClueWithAddress>),
    ClueSetUpdate(Rc<ClueSet>, Difficulty),
    ClueSelected(Option<ClueSelection>),
}

} // verus!
