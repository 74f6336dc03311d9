use vstd::prelude::*;

use crate::clue::{
    bijection_eliminates, bijection_rules_out, clue_eliminates, consistent, holds_in,
    lemma_bijection_elimination_sound, lemma_clue_elimination_sound, occupied, place,
    sole_position, sole_value, some_after, some_before, tile_ok, valid_placement, Clue,
    Deduction,
};
use crate::tile::variant_index;
use crate::grid::{
    avail, cell_index, contradictory, grid_wf, lemma_live_count_clear, live_count, solved,
    lemma_cell_index, CandidateGrid,
};

verus! {

/// How a run of the solver ended.
#[derive(Debug, Clone, Copy, PartialEq, Eq, Structural)]
pub enum SolveResult {
    /// Every tile has exactly one position left and every position one value.
    Solved,
    /// A full pass found nothing new while the grid is not solved.
    Stuck,
    /// Some tile or some position has no candidate left.
    Contradiction,
}

/// The solver's result, the grid it reached and the eliminations it applied, in order.
#[derive(Debug)]
pub struct SolveOutcome {
    pub result: SolveResult,
    pub grid: CandidateGrid,
    pub deductions: Vec<Deduction>,
}

/// Position `pos` is still open to value `v` of `row`, and some clue or the
/// bijection rule rules it out.
pub open spec fn deducible(clues: Seq<Clue>, g: (nat, Seq<bool>), row: int, v: int, pos: int) -> bool {
    &&& avail(g, row, v, pos)
    &&& {
        ||| bijection_eliminates(g, row, v, pos)
        ||| exists|i: int| 0 <= i < clues.len() && #[trigger] clue_eliminates(clues[i], g, row, v, pos)
    }
}

/// No rule finds anything new in `g`.
pub open spec fn fixpoint(clues: Seq<Clue>, g: (nat, Seq<bool>)) -> bool {
    forall|row: int, v: int, pos: int|
        0 <= row < g.0 && 0 <= v < g.0 && 0 <= pos < g.0 ==> !#[trigger] deducible(clues, g, row, v, pos)
}

/// `p` is a placement that satisfies every clue and that `g` still admits.
pub open spec fn admitted(clues: Seq<Clue>, g: (nat, Seq<bool>), p: Seq<Seq<int>>) -> bool {
    &&& valid_placement(g.0, p)
    &&& forall|i: int| 0 <= i < clues.len() ==> #[trigger] holds_in(g.0, clues[i], p)
    &&& consistent(g, p)
}

/// Every candidate available in `b` was available in `a`.
pub open spec fn shrinks(a: (nat, Seq<bool>), b: (nat, Seq<bool>)) -> bool {
    &&& a.0 == b.0
    &&& forall|row: int, v: int, pos: int|
        0 <= row < a.0 && 0 <= v < a.0 && 0 <= pos < a.0 && #[trigger] avail(b, row, v, pos) ==> avail(
            a,
            row,
            v,
            pos,
        )
}

/// The deduction names a cell of a grid of size `n`.
pub open spec fn deduction_ok(n: nat, d: Deduction) -> bool {
    d.row < n && d.variant < n && d.position < n
}

/// Every candidate that a rule rules out is ruled out by no placement that
/// the clues allow and the grid admits.
pub proof fn lemma_deducible_sound(
    clues: Seq<Clue>,
    g: (nat, Seq<bool>),
    p: Seq<Seq<int>>,
    row: int,
    v: int,
    pos: int,
)
    requires
        grid_wf(g),
        admitted(clues, g, p),
        0 <= row < g.0,
        0 <= v < g.0,
        0 <= pos < g.0,
        deducible(clues, g, row, v, pos),
    ensures
        p[row][v] != pos,
{
    if bijection_eliminates(g, row, v, pos) {
        lemma_bijection_elimination_sound(g, p, row, v, pos);
    } else {
        let i = choose|i: int| 0 <= i < clues.len() && #[trigger] clue_eliminates(clues[i], g, row, v, pos);
        assert(holds_in(g.0, clues[i], p));
        lemma_clue_elimination_sound(clues[i], g, p, row, v, pos);
    }
}

/// `ds` is what `propagate` may return for `g`: the cells of the grid that
/// some rule rules out, each of them listed, so that the list is empty
/// exactly at a fixpoint.
pub open spec fn propagation_of(clues: Seq<Clue>, g: (nat, Seq<bool>), ds: Seq<Deduction>) -> bool {
    &&& forall|i: int|
        0 <= i < ds.len() ==> deduction_ok(g.0, #[trigger] ds[i]) && deducible(
            clues,
            g,
            ds[i].row as int,
            ds[i].variant as int,
            ds[i].position as int,
        )
    &&& forall|row: int, v: int, pos: int|
        0 <= row < g.0 && 0 <= v < g.0 && 0 <= pos < g.0 && #[trigger] deducible(clues, g, row, v, pos)
            ==> ds.contains(Deduction { row: row as usize, variant: v as usize, position: pos as usize })
    &&& ds.len() == 0 <==> fixpoint(clues, g)
}

/// Propagation is idempotent: on a grid that propagation has already brought
/// to its fixpoint, propagating again yields no new deduction.
pub proof fn lemma_propagation_idempotent(clues: Seq<Clue>, g: (nat, Seq<bool>), ds: Seq<Deduction>)
    requires
        fixpoint(clues, g),
        propagation_of(clues, g, ds),
    ensures
        ds.len() == 0,
{
}

/// `g` lies below `top`, is a fixpoint of the clues, and still admits the
/// placement `p`, which satisfies every clue.
pub open spec fn stable_below(clues: Seq<Clue>, top: (nat, Seq<bool>), g: (nat, Seq<bool>), p: Seq<Seq<int>>) -> bool {
    &&& grid_wf(g)
    &&& shrinks(top, g)
    &&& fixpoint(clues, g)
    &&& admitted(clues, g, p)
}

/// A position that a tile is the only one to take in a larger grid is its
/// only one in a smaller grid that admits `p` too.
proof fn lemma_sole_position_below(
    big: (nat, Seq<bool>),
    g: (nat, Seq<bool>),
    p: Seq<Seq<int>>,
    row: int,
    w: int,
    pos: int,
)
    requires
        shrinks(big, g),
        valid_placement(g.0, p),
        consistent(g, p),
        0 <= row < g.0,
        0 <= w < g.0,
        sole_position(big, row, w, pos),
    ensures
        sole_position(g, row, w, pos),
{
    assert(avail(g, row, w, p[row][w]));
    assert(avail(big, row, w, p[row][w]));
    assert forall|r: int| 0 <= r < g.0 && r != pos implies !#[trigger] avail(g, row, w, r) by {
        if avail(g, row, w, r) {
            assert(avail(big, row, w, r));
        }
    }
}

/// What any rule rules out in a larger grid, it rules out in a smaller grid
/// that still admits a placement satisfying the clues, if still available there.
pub proof fn lemma_deducible_below(
    clues: Seq<Clue>,
    big: (nat, Seq<bool>),
    g: (nat, Seq<bool>),
    p: Seq<Seq<int>>,
    row: int,
    v: int,
    pos: int,
)
    requires
        shrinks(big, g),
        admitted(clues, g, p),
        0 <= row < g.0,
        0 <= v < g.0,
        0 <= pos < g.0,
        deducible(clues, big, row, v, pos),
        avail(g, row, v, pos),
    ensures
        deducible(clues, g, row, v, pos),
{
    let n = g.0;
    if bijection_eliminates(big, row, v, pos) {
        if exists|w: int| 0 <= w < big.0 && w != v && #[trigger] sole_position(big, row, w, pos) {
            let w = choose|w: int| 0 <= w < big.0 && w != v && #[trigger] sole_position(big, row, w, pos);
            lemma_sole_position_below(big, g, p, row, w, pos);
            assert(bijection_eliminates(g, row, v, pos));
        } else {
            let q = choose|q: int| 0 <= q < big.0 && q != pos && #[trigger] sole_value(big, row, q, v);
            assert(occupied(n, p, row, q));
            let u = choose|u: int| 0 <= u < n && #[trigger] p[row][u] == q;
            assert(avail(g, row, u, p[row][u]));
            assert(avail(big, row, u, q));
            assert forall|x: int| 0 <= x < n && x != v implies !#[trigger] avail(g, row, x, q) by {
                if avail(g, row, x, q) {
                    assert(avail(big, row, x, q));
                }
            }
            assert(sole_value(g, row, q, v));
            assert(bijection_eliminates(g, row, v, pos));
        }
    } else {
        let i = choose|i: int| 0 <= i < clues.len() && #[trigger] clue_eliminates(clues[i], big, row, v, pos);
        let c = clues[i];
        assert(holds_in(n, c, p));
        match c {
            Clue::SamePosition(a, b) => {
                if row == a.row && v == variant_index(a.variant) && !avail(big, b.row as int, variant_index(b.variant), pos) {
                    assert(!avail(g, b.row as int, variant_index(b.variant), pos));
                } else {
                    assert(!avail(g, a.row as int, variant_index(a.variant), pos));
                }
            },
            Clue::DifferentPosition(a, b) => {
                if row == b.row && v == variant_index(b.variant) && sole_position(big, a.row as int, variant_index(a.variant), pos) {
                    lemma_sole_position_below(big, g, p, a.row as int, variant_index(a.variant), pos);
                } else {
                    lemma_sole_position_below(big, g, p, b.row as int, variant_index(b.variant), pos);
                }
            },
            Clue::LeftOf(a, b) => {
                if row == a.row && v == variant_index(a.variant) && !some_after(big, b.row as int, variant_index(b.variant), pos) {
                    assert forall|q: int| pos < q < n implies !#[trigger] avail(g, b.row as int, variant_index(b.variant), q) by {
                        if avail(g, b.row as int, variant_index(b.variant), q) {
                            assert(avail(big, b.row as int, variant_index(b.variant), q));
                        }
                    }
                } else {
                    assert forall|q: int| 0 <= q < pos implies !#[trigger] avail(g, a.row as int, variant_index(a.variant), q) by {
                        if avail(g, a.row as int, variant_index(a.variant), q) {
                            assert(avail(big, a.row as int, variant_index(a.variant), q));
                        }
                    }
                }
            },
            Clue::OneOfPositions(t, x, y) => {},
        }
        assert(clue_eliminates(clues[i], g, row, v, pos));
    }
}

/// Some grid between `top` and `bottom` has a rule that rules out `d`.
pub open spec fn justified(clues: Seq<Clue>, top: (nat, Seq<bool>), bottom: (nat, Seq<bool>), d: Deduction) -> bool {
    exists|h: (nat, Seq<bool>)|
        shrinks(top, h) && shrinks(h, bottom) && #[trigger] deducible(
            clues,
            h,
            d.row as int,
            d.variant as int,
            d.position as int,
        )
}

proof fn lemma_justified_shrinks(
    clues: Seq<Clue>,
    top: (nat, Seq<bool>),
    mid: (nat, Seq<bool>),
    low: (nat, Seq<bool>),
    d: Deduction,
)
    requires
        justified(clues, top, mid, d),
        shrinks(mid, low),
    ensures
        justified(clues, top, low, d),
{
    let h = choose|h: (nat, Seq<bool>)|
        shrinks(top, h) && shrinks(h, mid) && #[trigger] deducible(
            clues,
            h,
            d.row as int,
            d.variant as int,
            d.position as int,
        );
    assert forall|r: int, v: int, p: int|
        0 <= r < h.0 && 0 <= v < h.0 && 0 <= p < h.0 && #[trigger] avail(low, r, v, p) implies avail(h, r, v, p) by {
        assert(avail(mid, r, v, p));
    }
    assert(shrinks(h, low));
}

/// The cell of `d` comes before `(row, v, pos)` in order of row, value and position.
pub open spec fn comes_before(d: Deduction, row: int, v: int, pos: int) -> bool {
    ||| d.row < row
    ||| d.row == row && d.variant < v
    ||| d.row == row && d.variant == v && d.position < pos
}

/// Whether some rule rules out position `pos` for value `v` of `row`.
pub fn is_deducible(clues: &Vec<Clue>, g: &CandidateGrid, row: usize, v: usize, pos: usize) -> (r: bool)
    requires
        g.wf(),
        row < g.n,
        v < g.n,
        pos < g.n,
    ensures
        r == deducible(clues@, g@, row as int, v as int, pos as int),
{
    if !g.is_available(row, v, pos) {
        return false;
    }
    if bijection_rules_out(g, row, v, pos) {
        return true;
    }
    let mut i: usize = 0;
    while i < clues.len()
        invariant
            g.wf(),
            row < g.n,
            v < g.n,
            pos < g.n,
            i <= clues@.len(),
            avail(g@, row as int, v as int, pos as int),
            forall|j: int| 0 <= j < i ==> !#[trigger] clue_eliminates(clues@[j], g@, row as int, v as int, pos as int),
        decreases clues@.len() - i,
    {
        if clues[i].rules_out(g, row, v, pos) {
            assert(clue_eliminates(clues@[i as int], g@, row as int, v as int, pos as int));
            return true;
        }
        i += 1;
    }
    false
}

/// Every candidate of `g` that some clue or the bijection rule rules out,
/// in order of row, value and position. Nothing comes back exactly when `g`
/// is a fixpoint.
pub fn propagate(clues: &Vec<Clue>, g: &CandidateGrid) -> (ds: Vec<Deduction>)
    requires
        g.wf(),
    ensures
        propagation_of(clues@, g@, ds@),
        forall|i: int|
            0 < i < ds@.len() ==> comes_before(
                ds@[0],
                #[trigger] ds@[i].row as int,
                ds@[i].variant as int,
                ds@[i].position as int,
            ),
{
    let n = g.n;
    let mut ds: Vec<Deduction> = Vec::new();
    let mut row: usize = 0;
    while row < n
        invariant
            g.wf(),
            n == g.n,
            row <= n,
            forall|i: int|
                0 <= i < ds@.len() ==> deduction_ok(n as nat, #[trigger] ds@[i]) && deducible(
                    clues@,
                    g@,
                    ds@[i].row as int,
                    ds@[i].variant as int,
                    ds@[i].position as int,
                ),
            forall|r: int, w: int, q: int|
                0 <= r < row && 0 <= w < n && 0 <= q < n && #[trigger] deducible(clues@, g@, r, w, q)
                    ==> ds@.contains(Deduction { row: r as usize, variant: w as usize, position: q as usize }),
            forall|i: int| 0 <= i < ds@.len() ==> comes_before(#[trigger] ds@[i], row as int, 0, 0),
            forall|i: int|
                0 < i < ds@.len() ==> comes_before(
                    ds@[0],
                    #[trigger] ds@[i].row as int,
                    ds@[i].variant as int,
                    ds@[i].position as int,
                ),
        decreases n - row,
    {
        let mut v: usize = 0;
        while v < n
            invariant
                g.wf(),
                n == g.n,
                row < n,
                v <= n,
                forall|i: int|
                    0 <= i < ds@.len() ==> deduction_ok(n as nat, #[trigger] ds@[i]) && deducible(
                        clues@,
                        g@,
                        ds@[i].row as int,
                        ds@[i].variant as int,
                        ds@[i].position as int,
                    ),
                forall|r: int, w: int, q: int|
                    0 <= r < n && 0 <= w < n && 0 <= q < n && (r < row || (r == row && w < v))
                        && #[trigger] deducible(clues@, g@, r, w, q) ==> ds@.contains(
                        Deduction { row: r as usize, variant: w as usize, position: q as usize },
                    ),
                forall|i: int| 0 <= i < ds@.len() ==> comes_before(#[trigger] ds@[i], row as int, v as int, 0),
                forall|i: int|
                    0 < i < ds@.len() ==> comes_before(
                        ds@[0],
                        #[trigger] ds@[i].row as int,
                        ds@[i].variant as int,
                        ds@[i].position as int,
                    ),
            decreases n - v,
        {
            let mut pos: usize = 0;
            while pos < n
                invariant
                    g.wf(),
                    n == g.n,
                    row < n,
                    v < n,
                    pos <= n,
                    forall|i: int|
                        0 <= i < ds@.len() ==> deduction_ok(n as nat, #[trigger] ds@[i]) && deducible(
                            clues@,
                            g@,
                            ds@[i].row as int,
                            ds@[i].variant as int,
                            ds@[i].position as int,
                        ),
                    forall|r: int, w: int, q: int|
                        0 <= r < n && 0 <= w < n && 0 <= q < n && (r < row || (r == row && w < v) || (r
                            == row && w == v && q < pos)) && #[trigger] deducible(clues@, g@, r, w, q)
                            ==> ds@.contains(
                            Deduction { row: r as usize, variant: w as usize, position: q as usize },
                        ),
                    forall|i: int| 0 <= i < ds@.len() ==> comes_before(#[trigger] ds@[i], row as int, v as int, pos as int),
                    forall|i: int|
                        0 < i < ds@.len() ==> comes_before(
                            ds@[0],
                            #[trigger] ds@[i].row as int,
                            ds@[i].variant as int,
                            ds@[i].position as int,
                        ),
                decreases n - pos,
            {
                if is_deducible(clues, g, row, v, pos) {
                    let ghost before = ds@;
                    let d = Deduction { row, variant: v, position: pos };
                    ds.push(d);
                    proof {
                        assert(ds@[before.len() as int] == d);
                        assert(forall|i: int| 0 <= i < before.len() ==> ds@[i] == before[i]);
                        assert forall|r: int, w: int, q: int|
                            0 <= r < n && 0 <= w < n && 0 <= q < n && (r < row || (r == row && w < v)
                                || (r == row && w == v && q <= pos)) && #[trigger] deducible(
                                clues@,
                                g@,
                                r,
                                w,
                                q,
                            ) implies ds@.contains(
                            Deduction { row: r as usize, variant: w as usize, position: q as usize },
                        ) by {
                            let e = Deduction { row: r as usize, variant: w as usize, position: q as usize };
                            if r == row && w == v && q == pos {
                                assert(ds@[before.len() as int] == e);
                            } else {
                                assert(before.contains(e));
                                let k = choose|k: int| 0 <= k < before.len() && before[k] == e;
                                assert(ds@[k] == e);
                            }
                        }
                    }
                }
                pos += 1;
            }
            v += 1;
        }
        row += 1;
    }
    proof {
        if ds.len() > 0 {
            let d = ds@[0];
            assert(deducible(clues@, g@, d.row as int, d.variant as int, d.position as int));
        } else {
            assert forall|r: int, w: int, q: int|
                0 <= r < n && 0 <= w < n && 0 <= q < n implies !#[trigger] deducible(clues@, g@, r, w, q) by {
                if deducible(clues@, g@, r, w, q) {
                    let e = Deduction { row: r as usize, variant: w as usize, position: q as usize };
                    assert(ds@.contains(e));
                }
            }
        }
    }
    ds
}

/// Propagates the clues over `grid` until a fixpoint, a solved grid or a
/// contradiction. The result never loses a placement that satisfies the
/// clues and that `grid` admits; a contradictory `grid` is reported as such
/// at once.
pub fn solve(clues: &Vec<Clue>, grid: &CandidateGrid) -> (out: SolveOutcome)
    requires
        grid.wf(),
    ensures
        out.grid.wf(),
        shrinks(grid@, out.grid@),
        (out.result == SolveResult::Contradiction) == contradictory(out.grid@),
        out.result == SolveResult::Solved ==> solved(out.grid@),
        out.result == SolveResult::Stuck ==> fixpoint(clues@, out.grid@) && !solved(out.grid@),
        contradictory(grid@) ==> out.result == SolveResult::Contradiction && out.grid@ == grid@,
        out.deductions@.len() == 0 ==> out.grid@ == grid@,
        fixpoint(clues@, grid@) ==> out.deductions@.len() == 0,
        forall|p: Seq<Seq<int>>|
            #[trigger] admitted(clues@, grid@, p) ==> consistent(out.grid@, p),
        forall|g: (nat, Seq<bool>), p: Seq<Seq<int>>|
            #[trigger] stable_below(clues@, grid@, g, p) ==> shrinks(out.grid@, g),
        forall|i: int|
            0 <= i < out.deductions@.len() ==> justified(clues@, grid@, out.grid@, #[trigger] out.deductions@[i]),
        forall|i: int|
            0 <= i < out.deductions@.len() ==> deduction_ok(grid.n as nat, #[trigger] out.deductions@[i])
                && avail(
                grid@,
                out.deductions@[i].row as int,
                out.deductions@[i].variant as int,
                out.deductions@[i].position as int,
            ) && !avail(
                out.grid@,
                out.deductions@[i].row as int,
                out.deductions@[i].variant as int,
                out.deductions@[i].position as int,
            ),
{
    let n = grid.n;
    let mut cur = grid.duplicate();
    let mut applied: Vec<Deduction> = Vec::new();
    loop
        invariant
            cur.wf(),
            cur.n == n,
            n == grid.n,
            grid.wf(),
            shrinks(grid@, cur@),
            applied@.len() == 0 ==> cur@ == grid@,
            applied@.len() > 0 ==> !contradictory(grid@),
            applied@.len() > 0 ==> !fixpoint(clues@, grid@),
            forall|p: Seq<Seq<int>>| #[trigger] admitted(clues@, grid@, p) ==> consistent(cur@, p),
            forall|g: (nat, Seq<bool>), p: Seq<Seq<int>>|
                #[trigger] stable_below(clues@, grid@, g, p) ==> shrinks(cur@, g),
            forall|i: int|
                0 <= i < applied@.len() ==> justified(clues@, grid@, cur@, #[trigger] applied@[i]),
            forall|i: int|
                0 <= i < applied@.len() ==> deduction_ok(n as nat, #[trigger] applied@[i]) && avail(
                    grid@,
                    applied@[i].row as int,
                    applied@[i].variant as int,
                    applied@[i].position as int,
                ) && !avail(
                    cur@,
                    applied@[i].row as int,
                    applied@[i].variant as int,
                    applied@[i].position as int,
                ),
        decreases live_count(cur.cells@),
    {
        if cur.has_contradiction() {
            return SolveOutcome { result: SolveResult::Contradiction, grid: cur, deductions: applied };
        }
        if cur.is_solved() {
            return SolveOutcome { result: SolveResult::Solved, grid: cur, deductions: applied };
        }
        let ds = propagate(clues, &cur);
        if ds.len() == 0 {
            return SolveOutcome { result: SolveResult::Stuck, grid: cur, deductions: applied };
        }
        let ghost pass = cur@;
        assert(!contradictory(grid@));
        assert(!fixpoint(clues@, grid@));
        let ghost start_live = live_count(cur.cells@);
        let mut j: usize = 0;
        while j < ds.len()
            invariant
                cur.wf(),
                cur.n == n,
                n == grid.n,
                grid.wf(),
                grid_wf(pass),
                pass.0 == n,
                ds@.len() > 0,
                j <= ds@.len(),
                applied@.len() >= j,
                shrinks(grid@, pass),
                shrinks(pass, cur@),
                j > 0 ==> live_count(cur.cells@) < start_live,
                j == 0 ==> cur@ == pass,
                start_live == live_count(pass.1),
                !contradictory(grid@),
                !fixpoint(clues@, grid@),
                forall|p: Seq<Seq<int>>| #[trigger] admitted(clues@, grid@, p) ==> consistent(pass, p),
                forall|i: int|
                    0 <= i < ds@.len() ==> deduction_ok(n as nat, #[trigger] ds@[i]) && deducible(
                        clues@,
                        pass,
                        ds@[i].row as int,
                        ds@[i].variant as int,
                        ds@[i].position as int,
                    ),
                forall|p: Seq<Seq<int>>| #[trigger] admitted(clues@, pass, p) ==> consistent(cur@, p),
                forall|g: (nat, Seq<bool>), p: Seq<Seq<int>>|
                    #[trigger] stable_below(clues@, grid@, g, p) ==> shrinks(pass, g),
                forall|g: (nat, Seq<bool>), p: Seq<Seq<int>>|
                    #[trigger] stable_below(clues@, grid@, g, p) ==> shrinks(cur@, g),
                forall|i: int|
                    0 <= i < applied@.len() ==> justified(clues@, grid@, cur@, #[trigger] applied@[i]),
                forall|i: int|
                    0 <= i < applied@.len() ==> deduction_ok(n as nat, #[trigger] applied@[i]) && avail(
                        grid@,
                        applied@[i].row as int,
                        applied@[i].variant as int,
                        applied@[i].position as int,
                    ) && !avail(
                        cur@,
                        applied@[i].row as int,
                        applied@[i].variant as int,
                        applied@[i].position as int,
                    ),
            decreases ds@.len() - j,
        {
            let d = ds[j];
            let ghost before = cur@;
            assert(deducible(clues@, pass, d.row as int, d.variant as int, d.position as int));
            proof {
                lemma_cell_index(n as int, d.row as int, d.variant as int, d.position as int);
                lemma_live_count_clear(
                    cur.cells@,
                    cell_index(n as int, d.row as int, d.variant as int, d.position as int),
                );
            }
            cur.set_flag(d.row, d.variant, d.position, false);
            applied.push(d);
            proof {
                assert forall|p: Seq<Seq<int>>| #[trigger] admitted(clues@, pass, p) implies consistent(cur@, p) by {
                    lemma_deducible_sound(clues@, pass, p, d.row as int, d.variant as int, d.position as int);
                    assert forall|row: int, v: int| 0 <= row < n && 0 <= v < n implies #[trigger] avail(cur@, row, v, p[row][v]) by {
                        assert(avail(before, row, v, p[row][v]));
                    }
                }
                assert forall|g: (nat, Seq<bool>), p: Seq<Seq<int>>|
                    #[trigger] stable_below(clues@, grid@, g, p) implies shrinks(cur@, g) by {
                    assert(shrinks(pass, g));
                    if avail(g, d.row as int, d.variant as int, d.position as int) {
                        lemma_deducible_below(clues@, pass, g, p, d.row as int, d.variant as int, d.position as int);
                    }
                    assert forall|row: int, v: int, pos: int|
                        0 <= row < n && 0 <= v < n && 0 <= pos < n && #[trigger] avail(g, row, v, pos) implies avail(cur@, row, v, pos) by {
                        assert(avail(before, row, v, pos));
                    }
                }
                assert forall|row: int, v: int, pos: int|
                    0 <= row < n && 0 <= v < n && 0 <= pos < n && #[trigger] avail(cur@, row, v, pos) implies avail(pass, row, v, pos) by {
                    assert(avail(before, row, v, pos));
                }
                assert forall|row: int, v: int, pos: int|
                    0 <= row < n && 0 <= v < n && 0 <= pos < n && #[trigger] avail(cur@, row, v, pos) implies avail(before, row, v, pos) by {
                }
                assert(shrinks(before, cur@));
                assert(shrinks(pass, cur@));
                assert forall|i: int| 0 <= i < applied@.len() implies justified(clues@, grid@, cur@, #[trigger] applied@[i]) by {
                    if i < applied@.len() - 1 {
                        lemma_justified_shrinks(clues@, grid@, before, cur@, applied@[i]);
                    } else {
                        assert(deducible(clues@, pass, d.row as int, d.variant as int, d.position as int));
                    }
                }
                assert forall|i: int| 0 <= i < applied@.len() implies deduction_ok(n as nat, #[trigger] applied@[i]) && avail(
                        grid@,
                        applied@[i].row as int,
                        applied@[i].variant as int,
                        applied@[i].position as int,
                    ) && !avail(
                        cur@,
                        applied@[i].row as int,
                        applied@[i].variant as int,
                        applied@[i].position as int,
                    ) by {
                    let a = applied@[i];
                    if i < applied@.len() - 1 {
                        assert(!avail(before, a.row as int, a.variant as int, a.position as int));
                    } else {
                        assert(avail(pass, a.row as int, a.variant as int, a.position as int));
                    }
                }
            }
            j += 1;
        }
        proof {
            assert forall|p: Seq<Seq<int>>| #[trigger] admitted(clues@, grid@, p) implies consistent(cur@, p) by {
                assert(admitted(clues@, pass, p));
            }
        }
    }
}

} // verus!
