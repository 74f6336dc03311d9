use vstd::prelude::*;

use crate::tile::MAX_GRID_SIZE;

verus! {

/// Position of the flag for `(row, value, position)` in the flat table.
pub open spec fn cell_index(n: int, row: int, v: int, pos: int) -> int {
    (row * n + v) * n + pos
}

pub proof fn lemma_cell_index(n: int, row: int, v: int, pos: int)
    requires
        0 <= row < n,
        0 <= v < n,
        0 <= pos < n,
    ensures
        0 <= row * n + v < n * n,
        0 <= cell_index(n, row, v, pos) < n * n * n,
        cell_index(n, row, v, pos) / n == row * n + v,
        cell_index(n, row, v, pos) % n == pos,
        (row * n + v) / n == row,
        (row * n + v) % n == v,
{
    assert(0 <= row * n + v < n * n) by (nonlinear_arith)
        requires
            0 <= row < n,
            0 <= v < n,
    ;
    assert(0 <= cell_index(n, row, v, pos) < n * n * n) by (nonlinear_arith)
        requires
            0 <= row * n + v < n * n,
            0 <= pos < n,
            cell_index(n, row, v, pos) == (row * n + v) * n + pos,
    ;
    vstd::arithmetic::div_mod::lemma_fundamental_div_mod_converse(
        cell_index(n, row, v, pos),
        n,
        row * n + v,
        pos,
    );
    vstd::arithmetic::div_mod::lemma_fundamental_div_mod_converse(row * n + v, n, row, v);
}

/// Distinct cells of the table have distinct flags.
proof fn lemma_cell_index_injective(
    n: int,
    row: int,
    v: int,
    pos: int,
    row2: int,
    v2: int,
    pos2: int,
)
    requires
        0 <= row < n,
        0 <= v < n,
        0 <= pos < n,
        0 <= row2 < n,
        0 <= v2 < n,
        0 <= pos2 < n,
        cell_index(n, row, v, pos) == cell_index(n, row2, v2, pos2),
    ensures
        row == row2,
        v == v2,
        pos == pos2,
{
    lemma_cell_index(n, row, v, pos);
    lemma_cell_index(n, row2, v2, pos2);
}

/// Availability of every (tile, position) pair of a puzzle of size `n`:
/// a tile is a row and a value index, both below `n`.
#[derive(Debug, PartialEq, Eq)]
pub struct CandidateGrid {
    pub n: usize,
    pub cells: Vec<bool>,
}

/// Number of positions below `k` still available to value `v` of `row`.
pub open spec fn count_positions(g: (nat, Seq<bool>), row: int, v: int, k: int) -> nat
    decreases k,
{
    if k <= 0 {
        0
    } else {
        count_positions(g, row, v, k - 1) + if g.1[cell_index(g.0 as int, row, v, k - 1)] {
            1nat
        } else {
            0nat
        }
    }
}

/// Number of values below `k` of `row` still available at `pos`.
pub open spec fn count_values(g: (nat, Seq<bool>), row: int, pos: int, k: int) -> nat
    decreases k,
{
    if k <= 0 {
        0
    } else {
        count_values(g, row, pos, k - 1) + if g.1[cell_index(g.0 as int, row, k - 1, pos)] {
            1nat
        } else {
            0nat
        }
    }
}

/// Number of candidates still available in the table.
pub open spec fn live_count(s: Seq<bool>) -> nat
    decreases s.len(),
{
    if s.len() == 0 {
        0
    } else {
        live_count(s.drop_last()) + if s.last() {
            1nat
        } else {
            0nat
        }
    }
}

/// Clearing a flag lowers the number of available candidates by one if it was set.
pub proof fn lemma_live_count_clear(s: Seq<bool>, i: int)
    requires
        0 <= i < s.len(),
    ensures
        live_count(s.update(i, false)) == live_count(s) - if s[i] {
            1int
        } else {
            0int
        },
    decreases s.len(),
{
    let t = s.update(i, false);
    if i == s.len() - 1 {
        assert(t.drop_last() =~= s.drop_last());
    } else {
        assert(t.drop_last() =~= s.drop_last().update(i, false));
        lemma_live_count_clear(s.drop_last(), i);
    }
}

impl View for CandidateGrid {
    type V = (nat, Seq<bool>);

    open spec fn view(&self) -> (nat, Seq<bool>) {
        (self.n as nat, self.cells@)
    }
}

/// Whether `pos` is still possible for value `v` of `row`.
pub open spec fn avail(g: (nat, Seq<bool>), row: int, v: int, pos: int) -> bool {
    g.1[cell_index(g.0 as int, row, v, pos)]
}

/// The table has one flag per (row, value, position).
pub open spec fn grid_wf(g: (nat, Seq<bool>)) -> bool {
    &&& g.0 <= MAX_GRID_SIZE
    &&& g.1.len() == g.0 * g.0 * g.0
}

/// Some tile has no position left, or some position of a row has no value left.
pub open spec fn contradictory(g: (nat, Seq<bool>)) -> bool {
    ||| exists|row: int, v: int|
        0 <= row < g.0 && 0 <= v < g.0 && #[trigger] count_positions(g, row, v, g.0 as int) == 0
    ||| exists|row: int, pos: int|
        0 <= row < g.0 && 0 <= pos < g.0 && #[trigger] count_values(g, row, pos, g.0 as int) == 0
}

/// Every tile has exactly one position left and every position of a row exactly one value.
pub open spec fn solved(g: (nat, Seq<bool>)) -> bool {
    &&& forall|row: int, v: int|
        0 <= row < g.0 && 0 <= v < g.0 ==> #[trigger] count_positions(g, row, v, g.0 as int) == 1
    &&& forall|row: int, pos: int|
        0 <= row < g.0 && 0 <= pos < g.0 ==> #[trigger] count_values(g, row, pos, g.0 as int) == 1
}

/// The tile `(row, k)` has a position left and position `k` of `row` a value left.
pub open spec fn open_tile(g: (nat, Seq<bool>), row: int, k: int) -> bool {
    count_positions(g, row, k, g.0 as int) != 0 && count_values(g, row, k, g.0 as int) != 0
}

/// The tile `(row, k)` has exactly one position left and position `k` of
/// `row` exactly one value left.
pub open spec fn single_tile(g: (nat, Seq<bool>), row: int, k: int) -> bool {
    count_positions(g, row, k, g.0 as int) == 1 && count_values(g, row, k, g.0 as int) == 1
}

impl CandidateGrid {
    pub open spec fn wf(&self) -> bool {
        grid_wf(self@)
    }

    /// A grid of size `n` with every candidate available.
    pub fn new(n: usize) -> (r: Self)
        requires
            n <= MAX_GRID_SIZE,
        ensures
            r.wf(),
            r.n == n,
            forall|i: int| 0 <= i < r.cells@.len() ==> r.cells@[i],
    {
        assert(n * n * n <= 512) by (nonlinear_arith)
            requires
                n <= 8,
        ;
        assert(n * n <= 64) by (nonlinear_arith)
            requires
                n <= 8,
        ;
        let total = n * n * n;
        let mut cells: Vec<bool> = Vec::new();
        let mut i: usize = 0;
        while i < total
            invariant
                i <= total,
                cells@.len() == i,
                forall|j: int| 0 <= j < i ==> cells@[j],
            decreases total - i,
        {
            cells.push(true);
            i += 1;
        }
        CandidateGrid { n, cells }
    }

    fn flag_index(&self, row: usize, v: usize, pos: usize) -> (r: usize)
        requires
            self.wf(),
            row < self.n,
            v < self.n,
            pos < self.n,
        ensures
            r == cell_index(self.n as int, row as int, v as int, pos as int),
            r < self.cells@.len(),
    {
        proof {
            lemma_cell_index(self.n as int, row as int, v as int, pos as int);
            let n = self.n as int;
            assert(n * n * n <= 512) by (nonlinear_arith)
                requires
                    0 <= n <= 8,
            ;
            assert(n * n <= 64) by (nonlinear_arith)
                requires
                    0 <= n <= 8,
            ;
        }
        (row * self.n + v) * self.n + pos
    }

    /// Whether `pos` is still possible for value `v` of `row`.
    pub fn is_available(&self, row: usize, v: usize, pos: usize) -> (r: bool)
        requires
            self.wf(),
            row < self.n,
            v < self.n,
            pos < self.n,
        ensures
            r == avail(self@, row as int, v as int, pos as int),
    {
        self.cells[self.flag_index(row, v, pos)]
    }

    /// Sets the flag of `(row, v, pos)`, leaving every other flag as it was.
    pub fn set_flag(&mut self, row: usize, v: usize, pos: usize, b: bool)
        requires
            old(self).wf(),
            row < old(self).n,
            v < old(self).n,
            pos < old(self).n,
        ensures
            final(self).wf(),
            final(self).n == old(self).n,
            final(self).cells@ == old(self).cells@.update(
                cell_index(old(self).n as int, row as int, v as int, pos as int),
                b,
            ),
            avail(final(self)@, row as int, v as int, pos as int) == b,
            forall|r: int, w: int, p: int|
                0 <= r < old(self).n && 0 <= w < old(self).n && 0 <= p < old(self).n && !(r == row
                    && w == v && p == pos) ==> #[trigger] avail(final(self)@, r, w, p) == avail(
                    old(self)@,
                    r,
                    w,
                    p,
                ),
    {
        let i = self.flag_index(row, v, pos);
        self.cells.set(i, b);
        proof {
            let n = self.n as int;
            assert forall|r: int, w: int, p: int|
                0 <= r < n && 0 <= w < n && 0 <= p < n && !(r == row && w == v && p == pos) implies #[trigger] avail(self@, r, w, p) == avail(old(self)@, r, w, p) by {
                lemma_cell_index(n, r, w, p);
                if cell_index(n, r, w, p) == i {
                    lemma_cell_index_injective(n, r, w, p, row as int, v as int, pos as int);
                }
            }
        }
    }

    /// A copy of this grid.
    pub fn duplicate(&self) -> (r: Self)
        ensures
            r@ == self@,
    {
        let mut cells: Vec<bool> = Vec::new();
        let mut i: usize = 0;
        while i < self.cells.len()
            invariant
                i <= self.cells@.len(),
                cells@ == self.cells@.subrange(0, i as int),
            decreases self.cells@.len() - i,
        {
            cells.push(self.cells[i]);
            i += 1;
            assert(cells@ =~= self.cells@.subrange(0, i as int));
        }
        assert(cells@ =~= self.cells@);
        CandidateGrid { n: self.n, cells }
    }

    /// Number of positions still available to value `v` of `row`.
    pub fn position_count(&self, row: usize, v: usize) -> (r: usize)
        requires
            self.wf(),
            row < self.n,
            v < self.n,
        ensures
            r == count_positions(self@, row as int, v as int, self.n as int),
    {
        let mut c: usize = 0;
        let mut p: usize = 0;
        while p < self.n
            invariant
                self.wf(),
                row < self.n,
                v < self.n,
                p <= self.n,
                c == count_positions(self@, row as int, v as int, p as int),
                c <= p,
            decreases self.n - p,
        {
            if self.is_available(row, v, p) {
                c += 1;
            }
            p += 1;
        }
        c
    }

    /// Number of values of `row` still available at `pos`.
    pub fn value_count(&self, row: usize, pos: usize) -> (r: usize)
        requires
            self.wf(),
            row < self.n,
            pos < self.n,
        ensures
            r == count_values(self@, row as int, pos as int, self.n as int),
    {
        let mut c: usize = 0;
        let mut v: usize = 0;
        while v < self.n
            invariant
                self.wf(),
                row < self.n,
                pos < self.n,
                v <= self.n,
                c == count_values(self@, row as int, pos as int, v as int),
                c <= v,
            decreases self.n - v,
        {
            if self.is_available(row, v, pos) {
                c += 1;
            }
            v += 1;
        }
        c
    }

    /// Whether some tile has no position left or some position no value left.
    pub fn has_contradiction(&self) -> (r: bool)
        requires
            self.wf(),
        ensures
            r == contradictory(self@),
    {
        let mut row: usize = 0;
        while row < self.n
            invariant
                self.wf(),
                row <= self.n,
                forall|r: int, k: int|
                    0 <= r < row && 0 <= k < self.n ==> #[trigger] open_tile(self@, r, k),
            decreases self.n - row,
        {
            let mut k: usize = 0;
            while k < self.n
                invariant
                    self.wf(),
                    row < self.n,
                    k <= self.n,
                    forall|r: int, j: int|
                        0 <= r < row && 0 <= j < self.n ==> #[trigger] open_tile(self@, r, j),
                    forall|j: int|
                        0 <= j < k ==> #[trigger] open_tile(self@, row as int, j),
                decreases self.n - k,
            {
                if self.position_count(row, k) == 0 {
                    return true;
                }
                if self.value_count(row, k) == 0 {
                    return true;
                }
                k += 1;
            }
            row += 1;
        }
        proof {
            assert forall|r: int, k: int| 0 <= r < self.n && 0 <= k < self.n implies #[trigger] count_positions(self@, r, k, self.n as int) != 0 by {
                assert(open_tile(self@, r, k));
            }
            assert forall|r: int, k: int| 0 <= r < self.n && 0 <= k < self.n implies #[trigger] count_values(self@, r, k, self.n as int) != 0 by {
                assert(open_tile(self@, r, k));
            }
        }
        false
    }

    /// Whether every tile has exactly one position left and every position exactly one value.
    pub fn is_solved(&self) -> (r: bool)
        requires
            self.wf(),
        ensures
            r == solved(self@),
    {
        let mut row: usize = 0;
        while row < self.n
            invariant
                self.wf(),
                row <= self.n,
                forall|r: int, k: int|
                    0 <= r < row && 0 <= k < self.n ==> #[trigger] single_tile(self@, r, k),
            decreases self.n - row,
        {
            let mut k: usize = 0;
            while k < self.n
                invariant
                    self.wf(),
                    row < self.n,
                    k <= self.n,
                    forall|r: int, j: int|
                        0 <= r < row && 0 <= j < self.n ==> #[trigger] single_tile(self@, r, j),
                    forall|j: int|
                        0 <= j < k ==> #[trigger] single_tile(self@, row as int, j),
                decreases self.n - k,
            {
                if self.position_count(row, k) != 1 {
                    return false;
                }
                if self.value_count(row, k) != 1 {
                    return false;
                }
                k += 1;
            }
            row += 1;
        }
        proof {
            assert forall|r: int, k: int| 0 <= r < self.n && 0 <= k < self.n implies #[trigger] count_positions(self@, r, k, self.n as int) == 1 by {
                assert(single_tile(self@, r, k));
            }
            assert forall|r: int, k: int| 0 <= r < self.n && 0 <= k < self.n implies #[trigger] count_values(self@, r, k, self.n as int) == 1 by {
                assert(single_tile(self@, r, k));
            }
        }
        true
    }
}

} // verus!
