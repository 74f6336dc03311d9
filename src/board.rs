use vstd::prelude::*;

use crate::clue::{bijection_eliminates, clue_eliminates, consistent, Clue, Deduction};
use crate::events::{GameStats, PuzzleCompletionState};
use crate::grid::{avail, contradictory, count_positions, count_values, CandidateGrid};
use crate::placement::lemma_admitted_not_contradictory;
use crate::solution::{canonical_variants, lemma_row_is_permutation, Solution};
use crate::solver::{
    admitted, comes_before, deducible, deduction_ok, fixpoint, lemma_deducible_sound, propagate, solve,
    SolveResult,
};
use crate::tile::{variant_index, variant_of, variant_position, Tile, MAX_GRID_SIZE};

verus! {

/// Why a move on the board was refused; the board is left unchanged.
#[derive(Debug, Clone, Copy, PartialEq, Eq, Structural)]
pub enum MoveError {
    /// The tile or the position lies outside the puzzle.
    OutOfRange,
    /// The candidate is already eliminated, or the move would remove the
    /// last available candidate of a tile or of a position.
    InvalidMove,
}

/// The player's board: the candidate grid, its history of snapshots with a
/// cursor for undo and redo, and the number of hints used.
#[derive(Debug)]
pub struct BoardState {
    pub grid: CandidateGrid,
    pub history: Vec<CandidateGrid>,
    pub history_index: usize,
    pub hints_used: u32,
}

/// What a hint request found.
#[derive(Debug, Clone, Copy, PartialEq, Eq, Structural)]
pub enum Hint {
    /// An elimination the clues force on the current board, with the index
    /// of a clue that justifies it (`None` where the rows being bijections do).
    Next(Deduction, Option<usize>),
    /// The board is inconsistent with the clues: a placement was wrong.
    IncorrectBoard,
    /// The clues force nothing more on the current board.
    NothingLeft,
}

/// Every tile of `g` has exactly one position left.
pub open spec fn resolved(g: (nat, Seq<bool>)) -> bool {
    forall|row: int, v: int|
        0 <= row < g.0 && 0 <= v < g.0 ==> #[trigger] count_positions(g, row, v, g.0 as int) == 1
}

/// Each value is still available where the solution has it.
pub open spec fn agrees_with(g: (nat, Seq<bool>), s: Solution) -> bool {
    forall|row: int, col: int|
        0 <= row < g.0 && 0 <= col < g.0 ==> #[trigger] avail(
            g,
            row,
            variant_index(s.cell(row, col)),
            col,
        )
}

/// `a` is `b` with value `v` of `row` placed at `pos`: the other positions of
/// that value and the other values at that position are cleared.
pub open spec fn placed_from(b: (nat, Seq<bool>), a: (nat, Seq<bool>), row: int, v: int, pos: int) -> bool {
    &&& a.0 == b.0
    &&& forall|r: int, w: int, q: int|
        0 <= r < b.0 && 0 <= w < b.0 && 0 <= q < b.0 ==> #[trigger] avail(a, r, w, q) == (avail(
            b,
            r,
            w,
            q,
        ) && !(r == row && ((w == v && q != pos) || (w != v && q == pos))))
}

/// Whether `tile` and `pos` name a cell of a grid of size `n`.
pub open spec fn in_range(n: nat, tile: Tile, pos: int) -> bool {
    &&& tile.row < n
    &&& 0 <= variant_index(tile.variant) < n
    &&& 0 <= pos < n
}

impl BoardState {
    /// The snapshots of the history, as grid views.
    pub open spec fn history_views(&self) -> Seq<(nat, Seq<bool>)> {
        Seq::new(self.history@.len(), |i: int| self.history@[i]@)
    }

    pub open spec fn wf(&self) -> bool {
        &&& self.grid.wf()
        &&& self.history@.len() >= 1
        &&& self.history_index < self.history@.len()
        &&& self.history@[self.history_index as int]@ == self.grid@
        &&& forall|i: int|
            0 <= i < self.history@.len() ==> (#[trigger] self.history@[i]).wf()
                && self.history@[i].n == self.grid.n
    }

    /// A fresh board of size `n`: every candidate available, one history entry.
    pub fn new(n: usize) -> (r: Self)
        requires
            n <= MAX_GRID_SIZE,
        ensures
            r.wf(),
            r.grid.n == n,
            forall|i: int| 0 <= i < r.grid.cells@.len() ==> r.grid.cells@[i],
            r.history_index == 0,
            r.history@.len() == 1,
            r.hints_used == 0,
    {
        let grid = CandidateGrid::new(n);
        let snapshot = grid.duplicate();
        let mut history: Vec<CandidateGrid> = Vec::new();
        history.push(snapshot);
        BoardState { grid, history, history_index: 0, hints_used: 0 }
    }

    /// A board whose current grid is `grid`, with it as the only history entry.
    pub fn from_grid(grid: CandidateGrid) -> (r: Self)
        requires
            grid.wf(),
        ensures
            r.wf(),
            r.grid@ == grid@,
            r.history_index == 0,
            r.history@.len() == 1,
            r.hints_used == 0,
    {
        let snapshot = grid.duplicate();
        let mut history: Vec<CandidateGrid> = Vec::new();
        history.push(snapshot);
        BoardState { grid, history, history_index: 0, hints_used: 0 }
    }

    /// The cursor into the history and the history's length.
    pub fn history_position(&self) -> (r: (usize, usize))
        ensures
            r == (self.history_index, self.history@.len() as usize),
    {
        (self.history_index, self.history.len())
    }

    /// Records the current grid as a new history entry after the cursor,
    /// dropping the entries that redo could have reached.
    fn record(&mut self)
        requires
            old(self).grid.wf(),
            old(self).history@.len() >= 1,
            old(self).history_index < old(self).history@.len(),
            forall|i: int|
                0 <= i < old(self).history@.len() ==> (#[trigger] old(self).history@[i]).wf()
                    && old(self).history@[i].n == old(self).grid.n,
            old(self).history_index < usize::MAX - 1,
        ensures
            final(self).wf(),
            final(self).grid == old(self).grid,
            final(self).hints_used == old(self).hints_used,
            final(self).history_index == old(self).history_index + 1,
            final(self).history_views() == old(self).history_views().subrange(
                0,
                old(self).history_index + 1,
            ).push(old(self).grid@),
    {
        let keep = self.history_index + 1;
        self.history.truncate(keep);
        let snapshot = self.grid.duplicate();
        self.history.push(snapshot);
        self.history_index = keep;
        assert(self.history_views() =~= old(self).history_views().subrange(
            0,
            old(self).history_index + 1,
        ).push(old(self).grid@));
    }

    /// Marks `pos` as impossible for `tile`, recording one history entry.
    /// Refused, with the board unchanged, when the cell is outside the
    /// puzzle, when the candidate is already eliminated, or when it is the
    /// last one left for its tile or for its position. On success returns
    /// the new cursor and history length.
    pub fn eliminate(&mut self, tile: Tile, pos: usize) -> (r: Result<(usize, usize), MoveError>)
        requires
            old(self).wf(),
            old(self).history_index < usize::MAX - 1,
        ensures
            final(self).wf(),
            final(self).hints_used == old(self).hints_used,
            elimination_outcome(*old(self), *final(self), tile, pos as int, r),
    {
        let n = self.grid.n;
        let v = match variant_position(tile.variant) {
            Some(v) => v,
            None => return Err(MoveError::OutOfRange),
        };
        if tile.row >= n || v >= n || pos >= n {
            return Err(MoveError::OutOfRange);
        }
        if !self.grid.is_available(tile.row, v, pos) {
            return Err(MoveError::InvalidMove);
        }
        if self.grid.position_count(tile.row, v) <= 1 || self.grid.value_count(tile.row, pos) <= 1 {
            return Err(MoveError::InvalidMove);
        }
        self.grid.set_flag(tile.row, v, pos, false);
        self.record();
        Ok((self.history_index, self.history.len()))
    }

    /// Places `tile` at `pos`: every other position of the tile and every
    /// other value of its row at `pos` is eliminated. Refused, with the board
    /// unchanged, when the cell is outside the puzzle, when `pos` is no longer
    /// available to the tile, or when the placement would leave some tile or
    /// position without candidates. On success returns the new cursor and
    /// history length.
    pub fn place(&mut self, tile: Tile, pos: usize) -> (r: Result<(usize, usize), MoveError>)
        requires
            old(self).wf(),
            old(self).history_index < usize::MAX - 1,
        ensures
            final(self).wf(),
            final(self).hints_used == old(self).hints_used,
            !in_range(old(self).grid.n as nat, tile, pos as int) ==> r == Err::<(usize, usize), MoveError>(
                MoveError::OutOfRange,
            ) && *final(self) == *old(self),
            in_range(old(self).grid.n as nat, tile, pos as int) && !avail(
                old(self).grid@,
                tile.row as int,
                variant_index(tile.variant),
                pos as int,
            ) ==> r == Err::<(usize, usize), MoveError>(MoveError::InvalidMove) && *final(self) == *old(self),
            r == Err::<(usize, usize), MoveError>(MoveError::InvalidMove) ==> *final(self) == *old(self) && (
            !avail(old(self).grid@, tile.row as int, variant_index(tile.variant), pos as int)
                || forall|g: (nat, Seq<bool>)|
                #[trigger] placed_from(
                    old(self).grid@,
                    g,
                    tile.row as int,
                    variant_index(tile.variant),
                    pos as int,
                ) ==> contradictory(g)),
            r.is_ok() ==> {
                &&& in_range(old(self).grid.n as nat, tile, pos as int)
                &&& placed_from(
                    old(self).grid@,
                    final(self).grid@,
                    tile.row as int,
                    variant_index(tile.variant),
                    pos as int,
                )
                &&& !contradictory(final(self).grid@)
                &&& final(self).history_index == old(self).history_index + 1
                &&& final(self).history_views() == old(self).history_views().subrange(
                    0,
                    old(self).history_index + 1,
                ).push(final(self).grid@)
                &&& r == Ok::<(usize, usize), MoveError>(
                    (final(self).history_index, final(self).history@.len() as usize),
                )
            },
    {
        let n = self.grid.n;
        let v = match variant_position(tile.variant) {
            Some(v) => v,
            None => return Err(MoveError::OutOfRange),
        };
        let row = tile.row;
        if row >= n || v >= n || pos >= n {
            return Err(MoveError::OutOfRange);
        }
        if !self.grid.is_available(row, v, pos) {
            return Err(MoveError::InvalidMove);
        }
        let ghost b = self.grid@;
        let mut next = self.grid.duplicate();
        let mut q: usize = 0;
        while q < n
            invariant
                next.wf(),
                next.n == n,
                b.0 == n,
                row < n,
                v < n,
                pos < n,
                q <= n,
                forall|r: int, w: int, k: int|
                    0 <= r < n && 0 <= w < n && 0 <= k < n ==> #[trigger] avail(next@, r, w, k) == (
                    avail(b, r, w, k) && !(r == row && w == v && k != pos && k < q)),
            decreases n - q,
        {
            if q != pos {
                next.set_flag(row, v, q, false);
            }
            q += 1;
        }
        let mut w: usize = 0;
        while w < n
            invariant
                next.wf(),
                next.n == n,
                b.0 == n,
                row < n,
                v < n,
                pos < n,
                w <= n,
                forall|r: int, u: int, k: int|
                    0 <= r < n && 0 <= u < n && 0 <= k < n ==> #[trigger] avail(next@, r, u, k) == (
                    avail(b, r, u, k) && !(r == row && ((u == v && k != pos) || (u != v && k == pos
                        && u < w)))),
            decreases n - w,
        {
            if w != v {
                next.set_flag(row, w, pos, false);
            }
            w += 1;
        }
        assert(placed_from(b, next@, row as int, v as int, pos as int));
        if next.has_contradiction() {
            proof {
                assert forall|g: (nat, Seq<bool>)| #[trigger] placed_from(b, g, row as int, v as int, pos as int) implies contradictory(g) by {
                    lemma_placed_unique(b, g, next@, row as int, v as int, pos as int);
                }
            }
            return Err(MoveError::InvalidMove);
        }
        self.grid = next;
        self.record();
        Ok((self.history_index, self.history.len()))
    }

    /// Compares the board with `solution` once every tile is resolved:
    /// `Incomplete` while some tile has more than one position left, then
    /// `Correct` with `stats` when every value stands where the solution has
    /// it, else `Incorrect`.
    pub fn check_completion(&self, solution: &Solution, stats: GameStats) -> (r: PuzzleCompletionState)
        requires
            self.wf(),
            solution.wf(),
            self.grid.n == solution.n_rows,
        ensures
            r == if !resolved(self.grid@) {
                PuzzleCompletionState::Incomplete
            } else if agrees_with(self.grid@, *solution) {
                PuzzleCompletionState::Correct(stats)
            } else {
                PuzzleCompletionState::Incorrect
            },
    {
        let n = self.grid.n;
        let mut row: usize = 0;
        while row < n
            invariant
                self.wf(),
                n == self.grid.n,
                row <= n,
                forall|r: int, k: int|
                    0 <= r < row && 0 <= k < n ==> #[trigger] count_positions(self.grid@, r, k, n as int) == 1,
            decreases n - row,
        {
            let mut k: usize = 0;
            while k < n
                invariant
                    self.wf(),
                    n == self.grid.n,
                    row < n,
                    k <= n,
                    forall|r: int, j: int|
                        0 <= r < row && 0 <= j < n ==> #[trigger] count_positions(self.grid@, r, j, n as int) == 1,
                    forall|j: int| 0 <= j < k ==> #[trigger] count_positions(self.grid@, row as int, j, n as int) == 1,
                decreases n - k,
            {
                if self.grid.position_count(row, k) != 1 {
                    return PuzzleCompletionState::Incomplete;
                }
                k += 1;
            }
            row += 1;
        }
        if grid_agrees(&self.grid, solution) {
            PuzzleCompletionState::Correct(stats)
        } else {
            PuzzleCompletionState::Incorrect
        }
    }

    /// The next elimination the clues force on the current board: the first
    /// cell, in order of row, value and position, that a rule rules out,
    /// which is the first elimination the solver applies. It counts as a
    /// hint used; `IncorrectBoard` when the solver finds the board
    /// inconsistent with the clues; `NothingLeft` at a fixpoint. Only the hint
    /// counter changes, and only for a `Next` hint.
    pub fn hint(&mut self, clues: &Vec<Clue>) -> (r: Hint)
        requires
            old(self).wf(),
        ensures
            final(self).wf(),
            final(self).grid == old(self).grid,
            final(self).history == old(self).history,
            final(self).history_index == old(self).history_index,
            final(self).hints_used == if r is Next && old(self).hints_used < u32::MAX {
                (old(self).hints_used + 1) as u32
            } else {
                old(self).hints_used
            },
            r == Hint::IncorrectBoard ==> forall|p: Seq<Seq<int>>|
                !#[trigger] admitted(clues@, old(self).grid@, p),
            r == Hint::NothingLeft ==> fixpoint(clues@, old(self).grid@),
            r matches Hint::Next(d, why) ==> {
                &&& deduction_ok(old(self).grid.n as nat, d)
                &&& deducible(
                    clues@,
                    old(self).grid@,
                    d.row as int,
                    d.variant as int,
                    d.position as int,
                )
                &&& forall|r: int, w: int, q: int|
                    0 <= r < old(self).grid.n && 0 <= w < old(self).grid.n && 0 <= q < old(self).grid.n
                        && #[trigger] deducible(clues@, old(self).grid@, r, w, q) ==> (r == d.row && w
                        == d.variant && q == d.position) || comes_before(d, r, w, q)
                &&& forall|p: Seq<Seq<int>>|
                    #[trigger] admitted(clues@, old(self).grid@, p) ==> p[d.row as int][d.variant as int]
                        != d.position
                &&& match why {
                    Some(i) => i < clues@.len() && clue_eliminates(
                        clues@[i as int],
                        old(self).grid@,
                        d.row as int,
                        d.variant as int,
                        d.position as int,
                    ),
                    None => bijection_eliminates(
                        old(self).grid@,
                        d.row as int,
                        d.variant as int,
                        d.position as int,
                    ),
                }
            },
    {
        let out = solve(clues, &self.grid);
        if out.result == SolveResult::Contradiction {
            proof {
                assert forall|p: Seq<Seq<int>>| !#[trigger] admitted(clues@, self.grid@, p) by {
                    if admitted(clues@, self.grid@, p) {
                        assert(consistent(out.grid@, p));
                        lemma_admitted_not_contradictory(out.grid@, p);
                    }
                }
            }
            return Hint::IncorrectBoard;
        }
        let ds = propagate(clues, &self.grid);
        if ds.len() == 0 {
            return Hint::NothingLeft;
        }
        let d = ds[0];
        proof {
            let n = self.grid.n as int;
            assert forall|r: int, w: int, q: int|
                0 <= r < n && 0 <= w < n && 0 <= q < n && #[trigger] deducible(clues@, self.grid@, r, w, q) implies (r == d.row && w
                == d.variant && q == d.position) || comes_before(d, r, w, q) by {
                let e = Deduction { row: r as usize, variant: w as usize, position: q as usize };
                assert(ds@.contains(e));
                let k = choose|k: int| 0 <= k < ds@.len() && ds@[k] == e;
                if k > 0 {
                    assert(comes_before(ds@[0], ds@[k].row as int, ds@[k].variant as int, ds@[k].position as int));
                }
            }
            assert forall|p: Seq<Seq<int>>| #[trigger] admitted(clues@, self.grid@, p) implies p[d.row as int][d.variant as int] != d.position by {
                lemma_deducible_sound(clues@, self.grid@, p, d.row as int, d.variant as int, d.position as int);
            }
        }
        let mut why: Option<usize> = None;
        let mut i: usize = 0;
        while i < clues.len() && why.is_none()
            invariant
                self.grid.wf(),
                deduction_ok(self.grid.n as nat, d),
                i <= clues@.len(),
                deducible(clues@, self.grid@, d.row as int, d.variant as int, d.position as int),
                why is None ==> forall|j: int| 0 <= j < i ==> !#[trigger] clue_eliminates(
                    clues@[j],
                    self.grid@,
                    d.row as int,
                    d.variant as int,
                    d.position as int,
                ),
                why matches Some(k) ==> k < clues@.len() && clue_eliminates(
                    clues@[k as int],
                    self.grid@,
                    d.row as int,
                    d.variant as int,
                    d.position as int,
                ),
            decreases clues@.len() - i,
        {
            if clues[i].rules_out(&self.grid, d.row, d.variant, d.position) {
                why = Some(i);
            }
            i += 1;
        }
        if self.hints_used < u32::MAX {
            self.hints_used = self.hints_used + 1;
        }
        Hint::Next(d, why)
    }

    /// Moves the cursor back to the latest entry, at or before the current
    /// one, in which every value is still available where `solution` has
    /// it, and restores that snapshot; with no such entry nothing changes.
    /// Returns the cursor and history length.
    pub fn rewind_to_last_good(&mut self, solution: &Solution) -> (r: (usize, usize))
        requires
            old(self).wf(),
            solution.wf(),
            old(self).grid.n == solution.n_rows,
        ensures
            final(self).wf(),
            final(self).hints_used == old(self).hints_used,
            final(self).history_views() == old(self).history_views(),
            r == (final(self).history_index, final(self).history@.len() as usize),
            final(self).history_index <= old(self).history_index,
            forall|j: int|
                final(self).history_index < j <= old(self).history_index ==> !agrees_with(
                    #[trigger] old(self).history_views()[j],
                    *solution,
                ),
            agrees_with(final(self).grid@, *solution) || (final(self).history_index == old(
                self,
            ).history_index && final(self).grid@ == old(self).grid@ && forall|j: int|
                0 <= j <= old(self).history_index ==> !agrees_with(
                    #[trigger] old(self).history_views()[j],
                    *solution,
                )),
    {
        let mut k: usize = self.history_index;
        while k > 0 && !grid_agrees(&self.history[k], solution)
            invariant
                self.wf(),
                solution.wf(),
                self.grid.n == solution.n_rows,
                k <= self.history_index,
                forall|j: int|
                    k < j <= self.history_index ==> !agrees_with(
                        #[trigger] self.history_views()[j],
                        *solution,
                    ),
            decreases k,
        {
            k = k - 1;
        }
        if grid_agrees(&self.history[k], solution) {
            self.history_index = k;
            self.grid = self.history[k].duplicate();
        } else {
            assert(k == 0);
        }
        (self.history_index, self.history.len())
    }

    /// Moves the cursor one entry back and restores that snapshot; with the
    /// cursor at the start nothing changes. Returns the cursor and history length.
    pub fn undo(&mut self) -> (r: (usize, usize))
        requires
            old(self).wf(),
        ensures
            final(self).wf(),
            final(self).hints_used == old(self).hints_used,
            undo_outcome(*old(self), *final(self)),
            r == (final(self).history_index, final(self).history@.len() as usize),
    {
        if self.history_index > 0 {
            self.history_index = self.history_index - 1;
            self.grid = self.history[self.history_index].duplicate();
        }
        (self.history_index, self.history.len())
    }

    /// Moves the cursor one entry forward and restores that snapshot; with the
    /// cursor at the last entry nothing changes. Returns the cursor and history length.
    pub fn redo(&mut self) -> (r: (usize, usize))
        requires
            old(self).wf(),
        ensures
            final(self).wf(),
            final(self).hints_used == old(self).hints_used,
            redo_outcome(*old(self), *final(self)),
            r == (final(self).history_index, final(self).history@.len() as usize),
    {
        if self.history_index < self.history.len() - 1 {
            self.history_index = self.history_index + 1;
            self.grid = self.history[self.history_index].duplicate();
        }
        (self.history_index, self.history.len())
    }
}

/// What `eliminate(tile, pos)` does to a board `b` giving `a`.
pub open spec fn elimination_outcome(
    b: BoardState,
    a: BoardState,
    tile: Tile,
    pos: int,
    r: Result<(usize, usize), MoveError>,
) -> bool {
    let n = b.grid.n as nat;
    let v = variant_index(tile.variant);
    if !in_range(n, tile, pos) {
        r == Err::<(usize, usize), MoveError>(MoveError::OutOfRange) && a == b
    } else if !avail(b.grid@, tile.row as int, v, pos) {
        r == Err::<(usize, usize), MoveError>(MoveError::InvalidMove) && a == b
    } else if count_positions(b.grid@, tile.row as int, v, n as int) <= 1 || count_values(
        b.grid@,
        tile.row as int,
        pos,
        n as int,
    ) <= 1 {
        r == Err::<(usize, usize), MoveError>(MoveError::InvalidMove) && a == b
    } else {
        &&& a.grid.n == b.grid.n
        &&& !avail(a.grid@, tile.row as int, v, pos)
        &&& forall|row: int, w: int, p: int|
            0 <= row < n && 0 <= w < n && 0 <= p < n && !(row == tile.row && w == v && p == pos)
                ==> #[trigger] avail(a.grid@, row, w, p) == avail(b.grid@, row, w, p)
        &&& a.history_index == b.history_index + 1
        &&& a.history_views() == b.history_views().subrange(0, b.history_index + 1).push(a.grid@)
        &&& r == Ok::<(usize, usize), MoveError>((a.history_index, a.history@.len() as usize))
    }
}

/// Whether every value is still available where `solution` has it.
pub fn grid_agrees(g: &CandidateGrid, solution: &Solution) -> (r: bool)
    requires
        g.wf(),
        solution.wf(),
        g.n == solution.n_rows,
    ensures
        r == agrees_with(g@, *solution),
{
    let n = g.n;
    let mut row: usize = 0;
    while row < n
        invariant
            g.wf(),
            solution.wf(),
            n == g.n,
            n == solution.n_rows,
            row <= n,
            forall|r: int, c: int|
                0 <= r < row && 0 <= c < n ==> #[trigger] avail(
                    g@,
                    r,
                    variant_index(solution.cell(r, c)),
                    c,
                ),
        decreases n - row,
    {
        proof {
            lemma_row_is_permutation(*solution, row as int);
        }
        let mut col: usize = 0;
        while col < n
            invariant
                g.wf(),
                solution.wf(),
                n == g.n,
                n == solution.n_rows,
                row < n,
                col <= n,
                forall|c: int|
                    0 <= c < n ==> canonical_variants(n as nat).contains(#[trigger] solution.cell(row as int, c)),
                forall|r: int, c: int|
                    0 <= r < row && 0 <= c < n ==> #[trigger] avail(
                        g@,
                        r,
                        variant_index(solution.cell(r, c)),
                        c,
                    ),
                forall|c: int|
                    0 <= c < col ==> #[trigger] avail(
                        g@,
                        row as int,
                        variant_index(solution.cell(row as int, c)),
                        c,
                    ),
            decreases n - col,
        {
            let c = solution.grid[row][col];
            proof {
                assert(canonical_variants(n as nat).contains(solution.cell(row as int, col as int)));
                let k = choose|k: int| 0 <= k < n && canonical_variants(n as nat)[k] == c;
                assert(variant_index(variant_of(k)) == k);
            }
            let v = match variant_position(c) {
                Some(v) => v,
                None => {
                    return false;
                },
            };
            if !g.is_available(row, v, col) {
                return false;
            }
            col += 1;
        }
        row += 1;
    }
    true
}

/// Grids that agree on every cell have the same counts.
proof fn lemma_counts_agree(g: (nat, Seq<bool>), h: (nat, Seq<bool>), r: int, w: int, k: int)
    requires
        g.0 == h.0,
        forall|x: int, y: int, z: int|
            0 <= x < g.0 && 0 <= y < g.0 && 0 <= z < g.0 ==> #[trigger] avail(g, x, y, z) == avail(
                h,
                x,
                y,
                z,
            ),
        0 <= r < g.0,
        0 <= w < g.0,
        k <= g.0,
    ensures
        count_positions(g, r, w, k) == count_positions(h, r, w, k),
        count_values(g, r, w, k) == count_values(h, r, w, k),
    decreases k,
{
    if k > 0 {
        lemma_counts_agree(g, h, r, w, k - 1);
        assert(avail(g, r, w, k - 1) == avail(h, r, w, k - 1));
        assert(avail(g, r, k - 1, w) == avail(h, r, k - 1, w));
    }
}

/// Of two grids placed from the same grid, both or neither are contradictory.
proof fn lemma_placed_unique(
    b: (nat, Seq<bool>),
    g: (nat, Seq<bool>),
    h: (nat, Seq<bool>),
    row: int,
    v: int,
    pos: int,
)
    requires
        placed_from(b, g, row, v, pos),
        placed_from(b, h, row, v, pos),
        contradictory(h),
    ensures
        contradictory(g),
{
    let n = g.0;
    assert forall|x: int, y: int, z: int| 0 <= x < n && 0 <= y < n && 0 <= z < n implies #[trigger] avail(g, x, y, z) == avail(h, x, y, z) by {
        assert(avail(g, x, y, z) == (avail(b, x, y, z) && !(x == row && ((y == v && z != pos) || (y != v && z == pos)))));
        assert(avail(h, x, y, z) == (avail(b, x, y, z) && !(x == row && ((y == v && z != pos) || (y != v && z == pos)))));
    }
    if exists|r: int, w: int| 0 <= r < n && 0 <= w < n && #[trigger] count_positions(h, r, w, n as int) == 0 {
        let (r, w) = choose|r: int, w: int| 0 <= r < n && 0 <= w < n && #[trigger] count_positions(h, r, w, n as int) == 0;
        lemma_counts_agree(g, h, r, w, n as int);
        assert(count_positions(g, r, w, n as int) == 0);
    } else {
        let (r, q) = choose|r: int, q: int| 0 <= r < n && 0 <= q < n && #[trigger] count_values(h, r, q, n as int) == 0;
        lemma_counts_agree(g, h, r, q, n as int);
        assert(count_values(g, r, q, n as int) == 0);
    }
}

/// What `undo` does to a board `b` giving `a`.
pub open spec fn undo_outcome(b: BoardState, a: BoardState) -> bool {
    &&& a.history_views() == b.history_views()
    &&& a.grid.n == b.grid.n
    &&& if b.history_index > 0 {
        a.history_index == b.history_index - 1 && a.grid@ == b.history_views()[a.history_index as int]
    } else {
        a.history_index == b.history_index && a.grid@ == b.grid@
    }
}

/// What `redo` does to a board `b` giving `a`.
pub open spec fn redo_outcome(b: BoardState, a: BoardState) -> bool {
    &&& a.history_views() == b.history_views()
    &&& a.grid.n == b.grid.n
    &&& if b.history_index + 1 < b.history@.len() {
        a.history_index == b.history_index + 1 && a.grid@ == b.history_views()[a.history_index as int]
    } else {
        a.history_index == b.history_index && a.grid@ == b.grid@
    }
}

/// An elimination that succeeded is undone by `undo`,
/// which restores the grid as it was, and redone by a following `redo`,
/// which restores the grid the elimination left.
pub proof fn lemma_undo_redo_round_trip(
    b0: BoardState,
    b1: BoardState,
    b2: BoardState,
    b3: BoardState,
    tile: Tile,
    pos: int,
    r: Result<(usize, usize), MoveError>,
)
    requires
        b0.wf(),
        b1.wf(),
        b2.wf(),
        elimination_outcome(b0, b1, tile, pos, r),
        r.is_ok(),
        undo_outcome(b1, b2),
        redo_outcome(b2, b3),
    ensures
        b2.grid@ == b0.grid@,
        b3.grid@ == b1.grid@,
{
    assert(b1.history_views()[b0.history_index as int] == b0.history_views()[b0.history_index as int]);
    assert(b1.history_views()[b1.history_index as int] == b1.grid@);
    assert(b1.history_views().len() == b1.history@.len());
    assert(b2.history_views().len() == b2.history@.len());
    assert(b2.history_index + 1 < b2.history@.len());
}

} // verus!
