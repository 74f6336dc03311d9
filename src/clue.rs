use vstd::prelude::*;

use crate::grid::{avail, grid_wf, CandidateGrid};
use crate::placement::{lemma_row_distinct, places_solution};
use crate::solution::Solution;
use crate::tile::{variant_index, variant_of, variant_position, Tile};

verus! {

/// Largest number of horizontal clues a clue set holds.
pub const MAX_HORIZ_CLUES: usize = 48;

/// Largest number of vertical clues a clue set holds.
pub const MAX_VERT_CLUES: usize = 48;

/// How a clue is laid out for display.
#[derive(Debug, Clone, Copy, PartialEq, Eq, Structural)]
pub enum ClueOrientation {
    Horizontal,
    Vertical,
}

/// A predicate over the positions of one or two tiles.
#[derive(Debug, Clone, Copy, PartialEq, Eq, Structural)]
pub enum Clue {
    /// The two tiles occupy the same position.
    SamePosition(Tile, Tile),
    /// The two tiles never share a position.
    DifferentPosition(Tile, Tile),
    /// The first tile stands strictly left of the second.
    LeftOf(Tile, Tile),
    /// The tile occupies one of the two positions.
    OneOfPositions(Tile, usize, usize),
}

/// A clue with its orientation and the display group it belongs to.
#[derive(Debug, Clone, Copy, PartialEq, Eq, Structural)]
pub struct ClueWithGrouping {
    pub clue: Clue,
    pub orientation: ClueOrientation,
    pub group: usize,
}

/// The clues of a puzzle, one sequence per orientation.
#[derive(Debug)]
pub struct ClueSet {
    pub horizontal_clues: Vec<ClueWithGrouping>,
    pub vertical_clues: Vec<ClueWithGrouping>,
}

/// One elimination: the value with index `variant` of `row` cannot stand at `position`.
#[derive(Debug, Clone, Copy, PartialEq, Eq, Structural)]
pub struct Deduction {
    pub row: usize,
    pub variant: usize,
    pub position: usize,
}

/// The clues of a list, without their grouping.
pub open spec fn clue_list(list: Seq<ClueWithGrouping>) -> Seq<Clue> {
    list.map_values(|c: ClueWithGrouping| c.clue)
}

/// The clues of `h` followed by those of `v`.
pub open spec fn flat(h: Seq<ClueWithGrouping>, v: Seq<ClueWithGrouping>) -> Seq<Clue> {
    clue_list(h) + clue_list(v)
}

/// The clues of `h` followed by those of `v`, as one list.
pub fn flat_clues(h: &Vec<ClueWithGrouping>, v: &Vec<ClueWithGrouping>) -> (r: Vec<Clue>)
    ensures
        r@ == flat(h@, v@),
{
    let mut r: Vec<Clue> = Vec::new();
    let mut i: usize = 0;
    while i < h.len()
        invariant
            i <= h@.len(),
            r@ == clue_list(h@.subrange(0, i as int)),
        decreases h@.len() - i,
    {
        r.push(h[i].clue);
        i += 1;
        assert(r@ =~= clue_list(h@.subrange(0, i as int)));
    }
    let mut j: usize = 0;
    while j < v.len()
        invariant
            i == h@.len(),
            j <= v@.len(),
            r@ == clue_list(h@) + clue_list(v@.subrange(0, j as int)),
        decreases v@.len() - j,
    {
        r.push(v[j].clue);
        j += 1;
        assert(r@ =~= clue_list(h@) + clue_list(v@.subrange(0, j as int)));
    }
    assert(h@.subrange(0, i as int) =~= h@);
    assert(v@.subrange(0, j as int) =~= v@);
    r
}

impl ClueSet {
    /// All clues, horizontal ones first, each in its display order.
    pub open spec fn clue_seq(&self) -> Seq<Clue> {
        flat(self.horizontal_clues@, self.vertical_clues@)
    }

    /// All clues as one flat list, horizontal ones first.
    pub fn all_clues(&self) -> (r: Vec<Clue>)
        ensures
            r@ == self.clue_seq(),
    {
        flat_clues(&self.horizontal_clues, &self.vertical_clues)
    }

    /// Total number of clues.
    pub fn len(&self) -> (r: usize)
        requires
            self.horizontal_clues@.len() + self.vertical_clues@.len() <= usize::MAX,
        ensures
            r == self.horizontal_clues@.len() + self.vertical_clues@.len(),
    {
        self.horizontal_clues.len() + self.vertical_clues.len()
    }
}

/// The tile lies inside a puzzle of size `n`.
pub open spec fn tile_ok(n: nat, t: Tile) -> bool {
    t.row < n && 0 <= variant_index(t.variant) < n
}

/// A complete assignment of positions: `p[row][v]` is the position of value
/// `v` of `row`; each row is a bijection between values and positions.
pub open spec fn valid_placement(n: nat, p: Seq<Seq<int>>) -> bool {
    &&& p.len() == n
    &&& forall|row: int| 0 <= row < n ==> (#[trigger] p[row]).len() == n
    &&& forall|row: int, v: int| 0 <= row < n && 0 <= v < n ==> 0 <= #[trigger] p[row][v] < n
    &&& forall|row: int, v: int, w: int|
        0 <= row < n && 0 <= v < n && 0 <= w < n && v != w ==> #[trigger] p[row][v]
            != #[trigger] p[row][w]
    &&& forall|row: int, pos: int|
        0 <= row < n && 0 <= pos < n ==> #[trigger] occupied(n, p, row, pos)
}

/// Some value of `row` stands at `pos` under `p`.
pub open spec fn occupied(n: nat, p: Seq<Seq<int>>, row: int, pos: int) -> bool {
    exists|v: int| 0 <= v < n && #[trigger] p[row][v] == pos
}

/// Position of `t` under `p`.
pub open spec fn place(p: Seq<Seq<int>>, t: Tile) -> int {
    p[t.row as int][variant_index(t.variant)]
}

/// Whether the clue is true of the placement `p` of a puzzle of size `n`.
pub open spec fn holds_in(n: nat, c: Clue, p: Seq<Seq<int>>) -> bool {
    match c {
        Clue::SamePosition(a, b) => tile_ok(n, a) && tile_ok(n, b) && place(p, a) == place(p, b),
        Clue::DifferentPosition(a, b) => tile_ok(n, a) && tile_ok(n, b) && place(p, a) != place(
            p,
            b,
        ),
        Clue::LeftOf(a, b) => tile_ok(n, a) && tile_ok(n, b) && place(p, a) < place(p, b),
        Clue::OneOfPositions(t, x, y) => tile_ok(n, t) && (place(p, t) == x || place(p, t) == y),
    }
}

/// Every tile's position under `p` is still available in `g`.
pub open spec fn consistent(g: (nat, Seq<bool>), p: Seq<Seq<int>>) -> bool {
    forall|row: int, v: int|
        0 <= row < g.0 && 0 <= v < g.0 ==> #[trigger] avail(g, row, v, p[row][v])
}

/// `q` is the only position left to value `v` of `row`.
pub open spec fn sole_position(g: (nat, Seq<bool>), row: int, v: int, q: int) -> bool {
    &&& 0 <= q < g.0
    &&& avail(g, row, v, q)
    &&& forall|r: int| 0 <= r < g.0 && r != q ==> !#[trigger] avail(g, row, v, r)
}

/// `w` is the only value of `row` left at position `pos`.
pub open spec fn sole_value(g: (nat, Seq<bool>), row: int, pos: int, w: int) -> bool {
    &&& 0 <= w < g.0
    &&& avail(g, row, w, pos)
    &&& forall|u: int| 0 <= u < g.0 && u != w ==> !#[trigger] avail(g, row, u, pos)
}

/// Some position after `pos` is left to value `v` of `row`.
pub open spec fn some_after(g: (nat, Seq<bool>), row: int, v: int, pos: int) -> bool {
    exists|q: int| pos < q < g.0 && #[trigger] avail(g, row, v, q)
}

/// Some position before `pos` is left to value `v` of `row`.
pub open spec fn some_before(g: (nat, Seq<bool>), row: int, v: int, pos: int) -> bool {
    exists|q: int| 0 <= q < pos && #[trigger] avail(g, row, v, q)
}

/// The clue, alone, rules out position `pos` for value `v` of `row` in grid `g`.
pub open spec fn clue_eliminates(c: Clue, g: (nat, Seq<bool>), row: int, v: int, pos: int) -> bool {
    let n = g.0;
    match c {
        Clue::SamePosition(a, b) => tile_ok(n, a) && tile_ok(n, b) && ((row == a.row && v
            == variant_index(a.variant) && !avail(g, b.row as int, variant_index(b.variant), pos))
            || (row == b.row && v == variant_index(b.variant) && !avail(
            g,
            a.row as int,
            variant_index(a.variant),
            pos,
        ))),
        Clue::DifferentPosition(a, b) => tile_ok(n, a) && tile_ok(n, b) && ((row == b.row && v
            == variant_index(b.variant) && sole_position(
            g,
            a.row as int,
            variant_index(a.variant),
            pos,
        )) || (row == a.row && v == variant_index(a.variant) && sole_position(
            g,
            b.row as int,
            variant_index(b.variant),
            pos,
        ))),
        Clue::LeftOf(a, b) => tile_ok(n, a) && tile_ok(n, b) && ((row == a.row && v
            == variant_index(a.variant) && !some_after(
            g,
            b.row as int,
            variant_index(b.variant),
            pos,
        )) || (row == b.row && v == variant_index(b.variant) && !some_before(
            g,
            a.row as int,
            variant_index(a.variant),
            pos,
        ))),
        Clue::OneOfPositions(t, x, y) => tile_ok(n, t) && row == t.row && v == variant_index(
            t.variant,
        ) && pos != x && pos != y,
    }
}

/// The rows being bijections rules out position `pos` for value `v` of
/// `row`: another value's only position is `pos`, or `v` is the only value
/// left at another position.
pub open spec fn bijection_eliminates(g: (nat, Seq<bool>), row: int, v: int, pos: int) -> bool {
    ||| exists|w: int| 0 <= w < g.0 && w != v && #[trigger] sole_position(g, row, w, pos)
    ||| exists|q: int| 0 <= q < g.0 && q != pos && #[trigger] sole_value(g, row, q, v)
}

/// The row and value index of `t`, where it lies inside a puzzle of size `n`.
pub fn tile_index(n: usize, t: Tile) -> (r: Option<(usize, usize)>)
    ensures
        r.is_some() <==> tile_ok(n as nat, t),
        r.is_some() ==> r.unwrap() == (t.row, variant_index(t.variant) as usize),
{
    match variant_position(t.variant) {
        Some(v) => {
            if t.row < n && v < n {
                Some((t.row, v))
            } else {
                None
            }
        },
        None => None,
    }
}

/// Whether `q` is the only position left to value `v` of `row`.
pub fn is_sole_position(g: &CandidateGrid, row: usize, v: usize, q: usize) -> (r: bool)
    requires
        g.wf(),
        row < g.n,
        v < g.n,
        q < g.n,
    ensures
        r == sole_position(g@, row as int, v as int, q as int),
{
    if !g.is_available(row, v, q) {
        return false;
    }
    let mut k: usize = 0;
    while k < g.n
        invariant
            g.wf(),
            row < g.n,
            v < g.n,
            q < g.n,
            k <= g.n,
            forall|r: int| 0 <= r < k && r != q ==> !#[trigger] avail(g@, row as int, v as int, r),
        decreases g.n - k,
    {
        if k != q && g.is_available(row, v, k) {
            return false;
        }
        k += 1;
    }
    true
}

/// Whether `w` is the only value of `row` left at position `pos`.
pub fn is_sole_value(g: &CandidateGrid, row: usize, pos: usize, w: usize) -> (r: bool)
    requires
        g.wf(),
        row < g.n,
        pos < g.n,
        w < g.n,
    ensures
        r == sole_value(g@, row as int, pos as int, w as int),
{
    if !g.is_available(row, w, pos) {
        return false;
    }
    let mut k: usize = 0;
    while k < g.n
        invariant
            g.wf(),
            row < g.n,
            pos < g.n,
            w < g.n,
            k <= g.n,
            forall|u: int| 0 <= u < k && u != w ==> !#[trigger] avail(g@, row as int, u, pos as int),
        decreases g.n - k,
    {
        if k != w && g.is_available(row, k, pos) {
            return false;
        }
        k += 1;
    }
    true
}

/// Whether some position after `pos` is left to value `v` of `row`.
fn any_after(g: &CandidateGrid, row: usize, v: usize, pos: usize) -> (r: bool)
    requires
        g.wf(),
        row < g.n,
        v < g.n,
        pos < g.n,
    ensures
        r == some_after(g@, row as int, v as int, pos as int),
{
    let mut q: usize = pos + 1;
    while q < g.n
        invariant
            g.wf(),
            row < g.n,
            v < g.n,
            pos < q <= g.n,
            forall|k: int| pos < k < q ==> !#[trigger] avail(g@, row as int, v as int, k),
        decreases g.n - q,
    {
        if g.is_available(row, v, q) {
            return true;
        }
        q += 1;
    }
    false
}

/// Whether some position before `pos` is left to value `v` of `row`.
fn any_before(g: &CandidateGrid, row: usize, v: usize, pos: usize) -> (r: bool)
    requires
        g.wf(),
        row < g.n,
        v < g.n,
        pos < g.n,
    ensures
        r == some_before(g@, row as int, v as int, pos as int),
{
    let mut q: usize = 0;
    while q < pos
        invariant
            g.wf(),
            row < g.n,
            v < g.n,
            q <= pos < g.n,
            forall|k: int| 0 <= k < q ==> !#[trigger] avail(g@, row as int, v as int, k),
        decreases pos - q,
    {
        if g.is_available(row, v, q) {
            return true;
        }
        q += 1;
    }
    false
}

/// Whether the rows being bijections rule out `pos` for value `v` of `row`.
pub fn bijection_rules_out(g: &CandidateGrid, row: usize, v: usize, pos: usize) -> (r: bool)
    requires
        g.wf(),
        row < g.n,
        v < g.n,
        pos < g.n,
    ensures
        r == bijection_eliminates(g@, row as int, v as int, pos as int),
{
    let mut k: usize = 0;
    while k < g.n
        invariant
            g.wf(),
            row < g.n,
            v < g.n,
            pos < g.n,
            k <= g.n,
            forall|w: int| 0 <= w < k && w != v ==> !#[trigger] sole_position(g@, row as int, w, pos as int),
            forall|q: int| 0 <= q < k && q != pos ==> !#[trigger] sole_value(g@, row as int, q, v as int),
        decreases g.n - k,
    {
        if k != v && is_sole_position(g, row, k, pos) {
            return true;
        }
        if k != pos && is_sole_value(g, row, k, v) {
            return true;
        }
        k += 1;
    }
    false
}

impl Clue {
    /// Whether the clue is true of `solution`, judged by the positions at
    /// which the solution has its tiles.
    pub fn holds(&self, solution: &Solution) -> (r: bool)
        requires
            solution.wf(),
        ensures
            forall|q: Seq<Seq<int>>|
                #[trigger] places_solution(*solution, q) ==> r == holds_in(solution.n_rows as nat, *self, q),
    {
        let n = solution.n_rows;
        match *self {
            Clue::SamePosition(a, b) => match (tile_index(n, a), tile_index(n, b)) {
                (Some(_), Some(_)) => {
                    let pa = position_in(solution, a);
                    let pb = position_in(solution, b);
                    pa == pb
                },
                _ => false,
            },
            Clue::DifferentPosition(a, b) => match (tile_index(n, a), tile_index(n, b)) {
                (Some(_), Some(_)) => {
                    let pa = position_in(solution, a);
                    let pb = position_in(solution, b);
                    pa != pb
                },
                _ => false,
            },
            Clue::LeftOf(a, b) => match (tile_index(n, a), tile_index(n, b)) {
                (Some(_), Some(_)) => {
                    let pa = position_in(solution, a);
                    let pb = position_in(solution, b);
                    pa < pb
                },
                _ => false,
            },
            Clue::OneOfPositions(t, x, y) => match tile_index(n, t) {
                Some(_) => {
                    let pt = position_in(solution, t);
                    pt == x || pt == y
                },
                None => false,
            },
        }
    }

    /// Every candidate of `g` that this clue alone rules out, in order of
    /// row, value and position.
    pub fn propagate(&self, g: &CandidateGrid) -> (ds: Vec<Deduction>)
        requires
            g.wf(),
        ensures
            forall|i: int|
                0 <= i < ds@.len() ==> {
                    let d = #[trigger] ds@[i];
                    &&& d.row < g.n && d.variant < g.n && d.position < g.n
                    &&& avail(g@, d.row as int, d.variant as int, d.position as int)
                    &&& clue_eliminates(*self, g@, d.row as int, d.variant as int, d.position as int)
                },
            forall|row: int, v: int, pos: int|
                0 <= row < g.n && 0 <= v < g.n && 0 <= pos < g.n && avail(g@, row, v, pos)
                    && #[trigger] clue_eliminates(*self, g@, row, v, pos) ==> ds@.contains(
                    Deduction { row: row as usize, variant: v as usize, position: pos as usize },
                ),
    {
        let n = g.n;
        let mut ds: Vec<Deduction> = Vec::new();
        let mut row: usize = 0;
        while row < n
            invariant
                g.wf(),
                n == g.n,
                row <= n,
                forall|i: int|
                    0 <= i < ds@.len() ==> {
                        let d = #[trigger] ds@[i];
                        &&& d.row < n && d.variant < n && d.position < n
                        &&& avail(g@, d.row as int, d.variant as int, d.position as int)
                        &&& clue_eliminates(*self, g@, d.row as int, d.variant as int, d.position as int)
                    },
                forall|r: int, w: int, q: int|
                    0 <= r < row && 0 <= w < n && 0 <= q < n && avail(g@, r, w, q)
                        && #[trigger] clue_eliminates(*self, g@, r, w, q) ==> ds@.contains(
                        Deduction { row: r as usize, variant: w as usize, position: q as usize },
                    ),
            decreases n - row,
        {
            let mut v: usize = 0;
            while v < n
                invariant
                    g.wf(),
                    n == g.n,
                    row < n,
                    v <= n,
                    forall|i: int|
                        0 <= i < ds@.len() ==> {
                            let d = #[trigger] ds@[i];
                            &&& d.row < n && d.variant < n && d.position < n
                            &&& avail(g@, d.row as int, d.variant as int, d.position as int)
                            &&& clue_eliminates(*self, g@, d.row as int, d.variant as int, d.position as int)
                        },
                    forall|r: int, w: int, q: int|
                        0 <= r < n && 0 <= w < n && 0 <= q < n && (r < row || (r == row && w < v))
                            && avail(g@, r, w, q) && #[trigger] clue_eliminates(*self, g@, r, w, q)
                            ==> ds@.contains(
                            Deduction { row: r as usize, variant: w as usize, position: q as usize },
                        ),
                decreases n - v,
            {
                let mut pos: usize = 0;
                while pos < n
                    invariant
                        g.wf(),
                        n == g.n,
                        row < n,
                        v < n,
                        pos <= n,
                        forall|i: int|
                            0 <= i < ds@.len() ==> {
                                let d = #[trigger] ds@[i];
                                &&& d.row < n && d.variant < n && d.position < n
                                &&& avail(g@, d.row as int, d.variant as int, d.position as int)
                                &&& clue_eliminates(*self, g@, d.row as int, d.variant as int, d.position as int)
                            },
                        forall|r: int, w: int, q: int|
                            0 <= r < n && 0 <= w < n && 0 <= q < n && (r < row || (r == row && w < v)
                                || (r == row && w == v && q < pos)) && avail(g@, r, w, q)
                                && #[trigger] clue_eliminates(*self, g@, r, w, q) ==> ds@.contains(
                                Deduction { row: r as usize, variant: w as usize, position: q as usize },
                            ),
                    decreases n - pos,
                {
                    if g.is_available(row, v, pos) && self.rules_out(g, row, v, pos) {
                        let ghost before = ds@;
                        let d = Deduction { row, variant: v, position: pos };
                        ds.push(d);
                        proof {
                            assert(ds@[before.len() as int] == d);
                            assert forall|r: int, w: int, q: int|
                                0 <= r < n && 0 <= w < n && 0 <= q < n && (r < row || (r == row
                                    && w < v) || (r == row && w == v && q <= pos)) && avail(g@, r, w, q)
                                    && #[trigger] clue_eliminates(*self, g@, r, w, q) implies ds@.contains(
                                    Deduction { row: r as usize, variant: w as usize, position: q as usize },
                                ) by {
                                let e = Deduction { row: r as usize, variant: w as usize, position: q as usize };
                                if r == row && w == v && q == pos {
                                    assert(ds@[before.len() as int] == e);
                                } else {
                                    assert(before.contains(e));
                                    let k = choose|k: int| 0 <= k < before.len() && before[k] == e;
                                    assert(ds@[k] == e);
                                }
                            }
                        }
                    }
                    pos += 1;
                }
                v += 1;
            }
            row += 1;
        }
        ds
    }

    /// Whether this clue, alone, rules out position `pos` for value `v` of `row`.
    pub fn rules_out(&self, g: &CandidateGrid, row: usize, v: usize, pos: usize) -> (r: bool)
        requires
            g.wf(),
            row < g.n,
            v < g.n,
            pos < g.n,
        ensures
            r == clue_eliminates(*self, g@, row as int, v as int, pos as int),
    {
        let n = g.n;
        match *self {
            Clue::SamePosition(a, b) => {
                match (tile_index(n, a), tile_index(n, b)) {
                    (Some((ar, av)), Some((br, bv))) => {
                        (row == ar && v == av && !g.is_available(br, bv, pos)) || (row == br && v
                            == bv && !g.is_available(ar, av, pos))
                    },
                    _ => false,
                }
            },
            Clue::DifferentPosition(a, b) => {
                match (tile_index(n, a), tile_index(n, b)) {
                    (Some((ar, av)), Some((br, bv))) => {
                        (row == br && v == bv && is_sole_position(g, ar, av, pos)) || (row == ar
                            && v == av && is_sole_position(g, br, bv, pos))
                    },
                    _ => false,
                }
            },
            Clue::LeftOf(a, b) => {
                match (tile_index(n, a), tile_index(n, b)) {
                    (Some((ar, av)), Some((br, bv))) => {
                        (row == ar && v == av && !any_after(g, br, bv, pos)) || (row == br && v == bv
                            && !any_before(g, ar, av, pos))
                    },
                    _ => false,
                }
            },
            Clue::OneOfPositions(t, x, y) => {
                match tile_index(n, t) {
                    Some((tr, tv)) => row == tr && v == tv && pos != x && pos != y,
                    None => false,
                }
            },
        }
    }
}

/// The position at which `solution` has `t`.
fn position_in(solution: &Solution, t: Tile) -> (r: usize)
    requires
        solution.wf(),
        tile_ok(solution.n_rows as nat, t),
    ensures
        r < solution.n_rows,
        forall|q: Seq<Seq<int>>| #[trigger] places_solution(*solution, q) ==> place(q, t) == r,
{
    let (_, col) = solution.find_tile(t);
    proof {
        assert forall|q: Seq<Seq<int>>| #[trigger] places_solution(*solution, q) implies place(q, t) == col by {
            let row = t.row as int;
            let v = variant_index(t.variant);
            let c = q[row][v];
            assert(solution.cell(row, c) == variant_of(v));
            assert(variant_of(v) == t.variant);
            lemma_row_distinct(*solution, row);
            assert(solution.row_values(row)[c] == solution.cell(row, c));
            assert(solution.row_values(row)[col as int] == solution.cell(row, col as int));
        }
    }
    col
}

/// A sound elimination is never violated by a placement that the clue
/// allows and that the grid still admits.
pub proof fn lemma_clue_elimination_sound(
    c: Clue,
    g: (nat, Seq<bool>),
    p: Seq<Seq<int>>,
    row: int,
    v: int,
    pos: int,
)
    requires
        grid_wf(g),
        valid_placement(g.0, p),
        holds_in(g.0, c, p),
        consistent(g, p),
        0 <= row < g.0,
        0 <= v < g.0,
        0 <= pos < g.0,
        clue_eliminates(c, g, row, v, pos),
    ensures
        p[row][v] != pos,
{
    let n = g.0;
    match c {
        Clue::SamePosition(a, b) => {
            assert(avail(g, a.row as int, variant_index(a.variant), place(p, a)));
            assert(avail(g, b.row as int, variant_index(b.variant), place(p, b)));
        },
        Clue::DifferentPosition(a, b) => {
            assert(avail(g, a.row as int, variant_index(a.variant), place(p, a)));
            assert(avail(g, b.row as int, variant_index(b.variant), place(p, b)));
        },
        Clue::LeftOf(a, b) => {
            assert(avail(g, a.row as int, variant_index(a.variant), place(p, a)));
            assert(avail(g, b.row as int, variant_index(b.variant), place(p, b)));
        },
        Clue::OneOfPositions(t, x, y) => {},
    }
}

/// The bijection rule is sound for every placement the grid still admits.
pub proof fn lemma_bijection_elimination_sound(
    g: (nat, Seq<bool>),
    p: Seq<Seq<int>>,
    row: int,
    v: int,
    pos: int,
)
    requires
        grid_wf(g),
        valid_placement(g.0, p),
        consistent(g, p),
        0 <= row < g.0,
        0 <= v < g.0,
        0 <= pos < g.0,
        bijection_eliminates(g, row, v, pos),
    ensures
        p[row][v] != pos,
{
    let n = g.0;
    if exists|w: int| 0 <= w < g.0 && w != v && #[trigger] sole_position(g, row, w, pos) {
        let w = choose|w: int| 0 <= w < g.0 && w != v && #[trigger] sole_position(g, row, w, pos);
        assert(avail(g, row, w, p[row][w]));
        assert(p[row][v] != p[row][w]);
    } else {
        let q = choose|q: int| 0 <= q < g.0 && q != pos && #[trigger] sole_value(g, row, q, v);
        assert(occupied(n, p, row, q));
        let u = choose|u: int| 0 <= u < n && #[trigger] p[row][u] == q;
        assert(avail(g, row, u, p[row][u]));
    }
}

} // verus!
