use vstd::prelude::*;

use crate::tile::Tile;

verus! {

/// Whether a tile may still occupy a position.
#[derive(Debug, Clone, Copy, PartialEq, Eq, Structural)]
pub enum CandidateState {
    Available,
    Eliminated,
}

/// A tile together with whether it is still a possibility at some cell.
#[derive(Debug, Clone, Copy, PartialEq, Eq, Structural)]
pub struct Candidate {
    pub tile: Tile,
    pub state: CandidateState,
}

impl Candidate {
    pub fn new(tile: Tile) -> (r: Self)
        ensures
            r.tile == tile,
            r.state == CandidateState::Available,
    {
        Self { tile, state: CandidateState::Available }
    }

    /// A candidate for `(row, variant)` that is available exactly when `b` holds.
    pub fn from_bool(row: usize, variant: char, b: bool) -> (r: Self)
        ensures
            r.tile == (Tile { row, variant }),
            r.state == (if b {
                CandidateState::Available
            } else {
                CandidateState::Eliminated
            }),
    {
        let tile = Tile::new(row, variant);
        if b {
            Self { tile, state: CandidateState::Available }
        } else {
            Self { tile, state: CandidateState::Eliminated }
        }
    }
}

} // verus!
