use vstd::prelude::*;

use crate::clue::{
    bijection_eliminates, clue_eliminates, flat, flat_clues,
    consistent, holds_in, occupied, place, sole_position, tile_ok, valid_placement, Clue, ClueOrientation, ClueSet,
    ClueWithGrouping, MAX_HORIZ_CLUES, MAX_VERT_CLUES,
};
use crate::grid::{
    avail, cell_index, contradictory, count_positions, count_values, grid_wf, lemma_cell_index,
    solved, CandidateGrid,
};
use crate::placement::{
    full_grid, lemma_admitted_not_contradictory, lemma_count_one, lemma_count_two,
    lemma_value_count_one, lemma_places_solution_unique, lemma_solved_unique, placement_of, placement_view,
    places_solution,
};
use crate::rng::{rng_from_seed, seeded_rng, shuffle_index_outcome, shuffle_indices};
use rand::rngs::StdRng;
use crate::solution::{variant_char, Solution};
use crate::solver::{admitted, deducible, fixpoint, shrinks, solve, stable_below, SolveResult};
use crate::tile::{variant_index, variant_of, Tile, MAX_GRID_SIZE};

verus! {

/// How many fresh random draws the generator makes before giving up.
pub const MAX_GENERATION_ATTEMPTS: usize = 8;

/// Why no clue set came out.
#[derive(Debug, Clone, Copy, PartialEq, Eq, Structural)]
pub enum GenerationError {
    /// No draw reached a solvable clue set within the caps and the attempt bound.
    GenerationExhausted,
}

/// The clues admit exactly the placements that put the solution's values where it has them.
pub open spec fn determines(s: Solution, clues: Seq<Clue>) -> bool {
    forall|q: Seq<Seq<int>>|
        #[trigger] admitted(clues, full_grid(s.n_rows as nat), q) <==> places_solution(s, q)
}

/// Every fixpoint of the clues below the full grid of size `n` that admits
/// a placement satisfying them is solved.
pub open spec fn forces(clues: Seq<Clue>, n: nat) -> bool {
    forall|g: (nat, Seq<bool>), q: Seq<Seq<int>>|
        #[trigger] stable_below(clues, full_grid(n), g, q) ==> solved(g)
}

/// A grid below another has no more candidates per tile or per position.
proof fn lemma_counts_below(big: (nat, Seq<bool>), g: (nat, Seq<bool>), r: int, w: int, k: int)
    requires
        shrinks(big, g),
        0 <= r < g.0,
        0 <= w < g.0,
        k <= g.0,
    ensures
        count_positions(g, r, w, k) <= count_positions(big, r, w, k),
        count_values(g, r, w, k) <= count_values(big, r, w, k),
    decreases k,
{
    if k > 0 {
        lemma_counts_below(big, g, r, w, k - 1);
        if avail(g, r, w, k - 1) {
            assert(avail(big, r, w, k - 1));
        }
        if avail(g, r, k - 1, w) {
            assert(avail(big, r, k - 1, w));
        }
    }
}

/// A solver run from the full grid that ends solved, with every admitting
/// fixpoint below its result, shows that the clues force a solved grid.
pub proof fn lemma_solved_run_forces(clues: Seq<Clue>, n: nat, s: (nat, Seq<bool>))
    requires
        s.0 == n,
        solved(s),
        forall|g: (nat, Seq<bool>), q: Seq<Seq<int>>|
            #[trigger] stable_below(clues, full_grid(n), g, q) ==> shrinks(s, g),
    ensures
        forces(clues, n),
{
    assert forall|g: (nat, Seq<bool>), q: Seq<Seq<int>>| #[trigger] stable_below(clues, full_grid(n), g, q) implies solved(g) by {
        assert(shrinks(s, g));
        assert forall|row: int, v: int| 0 <= row < n && 0 <= v < n implies #[trigger] count_positions(g, row, v, n as int) == 1 by {
            lemma_counts_below(s, g, row, v, n as int);
            assert(count_positions(s, row, v, n as int) == 1);
            assert(avail(g, row, v, q[row][v]));
            lemma_count_one(g, row, v, q[row][v], n as int);
        }
        assert forall|row: int, pos: int| 0 <= row < n && 0 <= pos < n implies #[trigger] count_values(g, row, pos, n as int) == 1 by {
            lemma_counts_below(s, g, row, pos, n as int);
            assert(count_values(s, row, pos, n as int) == 1);
            assert(occupied(n, q, row, pos));
            let w = choose|w: int| 0 <= w < n && #[trigger] q[row][w] == pos;
            assert(avail(g, row, w, q[row][w]));
            lemma_value_count_one(g, row, pos, w, n as int);
        }
    }
}

/// A clue set that the generator produced leads the solver to the source
/// solution: any solver run from a full grid with it ends `Solved`, with
/// each tile's one remaining position the one the solution gives it.
pub proof fn lemma_generated_clues_solve_to_solution(
    s: Solution,
    clues: Seq<Clue>,
    p: Seq<Seq<int>>,
    result: SolveResult,
    g: (nat, Seq<bool>),
)
    requires
        s.wf(),
        determines(s, clues),
        forces(clues, s.n_rows as nat),
        places_solution(s, p),
        grid_wf(g),
        shrinks(full_grid(s.n_rows as nat), g),
        (result == SolveResult::Contradiction) == contradictory(g),
        result == SolveResult::Solved ==> solved(g),
        result == SolveResult::Stuck ==> fixpoint(clues, g) && !solved(g),
        forall|q: Seq<Seq<int>>| #[trigger] admitted(clues, full_grid(s.n_rows as nat), q) ==> consistent(g, q),
    ensures
        result == SolveResult::Solved,
        forall|row: int, v: int|
            0 <= row < s.n_rows && 0 <= v < s.n_rows ==> #[trigger] sole_position(g, row, v, p[row][v]),
{
    let n = s.n_rows as int;
    assert(admitted(clues, full_grid(s.n_rows as nat), p));
    assert(consistent(g, p));
    lemma_admitted_not_contradictory(g, p);
    if result == SolveResult::Stuck {
        assert(admitted(clues, g, p));
        assert(stable_below(clues, full_grid(s.n_rows as nat), g, p));
    }
    assert forall|row: int, v: int| 0 <= row < n && 0 <= v < n implies #[trigger] sole_position(g, row, v, p[row][v]) by {
        assert(avail(g, row, v, p[row][v]));
        assert forall|r: int| 0 <= r < n && r != p[row][v] implies !#[trigger] avail(g, row, v, r) by {
            if avail(g, row, v, r) {
                lemma_count_two(g, row, v, r, p[row][v], n);
            }
        }
    }
}

/// Every clue of the list is true of the placement `p`.
pub open spec fn all_true(n: nat, list: Seq<ClueWithGrouping>, p: Seq<Seq<int>>) -> bool {
    forall|i: int| 0 <= i < list.len() ==> #[trigger] holds_in(n, list[i].clue, p)
}

/// Builds clue sets that make a solution deducible without guessing.
pub struct ClueGenerator;

/// The tile with value index `v` of `row`.
pub open spec fn tile_at(row: int, v: int) -> Tile {
    Tile { row: row as usize, variant: variant_of(v) }
}

/// The two-position clue for tile `(r1, v1)` under `p`: its own position and the next one round.
pub open spec fn one_of_clue(n: nat, p: Seq<Seq<int>>, r1: int, v1: int) -> ClueWithGrouping {
    let pos = p[r1][v1];
    ClueWithGrouping {
        clue: Clue::OneOfPositions(tile_at(r1, v1), pos as usize, if pos + 1 < n { (pos + 1) as usize } else { 0 }),
        orientation: ClueOrientation::Vertical,
        group: (r1 * MAX_GRID_SIZE + r1) as usize,
    }
}

/// The clues for the pair of tiles `(r1, v1)` and `(r2, v2)` under `p`: a
/// same- or different-position clue, then a left-of clue where the positions differ.
pub open spec fn pair_clues(p: Seq<Seq<int>>, r1: int, v1: int, r2: int, v2: int) -> Seq<ClueWithGrouping> {
    let t1 = tile_at(r1, v1);
    let t2 = tile_at(r2, v2);
    let pos1 = p[r1][v1];
    let pos2 = p[r2][v2];
    let group = (r1 * MAX_GRID_SIZE + r2) as usize;
    let first = if pos1 == pos2 {
        ClueWithGrouping { clue: Clue::SamePosition(t1, t2), orientation: ClueOrientation::Vertical, group }
    } else {
        ClueWithGrouping { clue: Clue::DifferentPosition(t1, t2), orientation: ClueOrientation::Vertical, group }
    };
    if pos1 < pos2 {
        seq![first, ClueWithGrouping { clue: Clue::LeftOf(t1, t2), orientation: ClueOrientation::Horizontal, group }]
    } else if pos2 < pos1 {
        seq![first, ClueWithGrouping { clue: Clue::LeftOf(t2, t1), orientation: ClueOrientation::Horizontal, group }]
    } else {
        seq![first]
    }
}

/// Pair clues of `(r1, v1)` with the first `k` values of row `r2`.
pub open spec fn pairs_with_row(p: Seq<Seq<int>>, r1: int, v1: int, r2: int, k: int) -> Seq<ClueWithGrouping>
    decreases k,
{
    if k <= 0 {
        Seq::empty()
    } else {
        pairs_with_row(p, r1, v1, r2, k - 1) + pair_clues(p, r1, v1, r2, k - 1)
    }
}

/// Pair clues of `(r1, v1)` with every value of the `k` rows after `r1`.
pub open spec fn pairs_below(n: nat, p: Seq<Seq<int>>, r1: int, v1: int, k: int) -> Seq<ClueWithGrouping>
    decreases k,
{
    if k <= 0 {
        Seq::empty()
    } else {
        pairs_below(n, p, r1, v1, k - 1) + pairs_with_row(p, r1, v1, r1 + k, n as int)
    }
}

/// The clues that tile `(r1, v1)` starts: its two-position clue, then its
/// pairs with the tiles of every later row.
pub open spec fn tile_clues(n: nat, p: Seq<Seq<int>>, r1: int, v1: int) -> Seq<ClueWithGrouping> {
    seq![one_of_clue(n, p, r1, v1)] + pairs_below(n, p, r1, v1, n - r1 - 1)
}

/// The clues that the first `k` tiles of row `r1` start.
pub open spec fn row_clues(n: nat, p: Seq<Seq<int>>, r1: int, k: int) -> Seq<ClueWithGrouping>
    decreases k,
{
    if k <= 0 {
        Seq::empty()
    } else {
        row_clues(n, p, r1, k - 1) + tile_clues(n, p, r1, k - 1)
    }
}

/// The candidate clues that the first `k` rows start.
pub open spec fn candidate_prefix(n: nat, p: Seq<Seq<int>>, k: int) -> Seq<ClueWithGrouping>
    decreases k,
{
    if k <= 0 {
        Seq::empty()
    } else {
        candidate_prefix(n, p, k - 1) + row_clues(n, p, k - 1, n as int)
    }
}

/// The placement of a well-formed solution.
pub open spec fn solution_placement(s: Solution) -> Seq<Seq<int>> {
    choose|q: Seq<Seq<int>>| places_solution(s, q)
}

/// The clues the generator draws from for `s`.
pub open spec fn candidate_seq(s: Solution) -> Seq<ClueWithGrouping> {
    candidate_prefix(s.n_rows as nat, solution_placement(s), s.n_rows as int)
}

/// Every clue true of the placement `p`: for each tile a two-position clue
/// and, for each pair of tiles in different rows, a same- or
/// different-position clue and, where their positions differ, a left-of clue.
fn candidate_clues(n: usize, p: &Vec<Vec<usize>>) -> (r: Vec<ClueWithGrouping>)
    requires
        n <= MAX_GRID_SIZE,
        p@.len() == n,
        forall|row: int| 0 <= row < n ==> (#[trigger] p@[row])@.len() == n,
        forall|row: int, v: int| 0 <= row < n && 0 <= v < n ==> #[trigger] p@[row]@[v] < n,
    ensures
        all_true(n as nat, r@, placement_view(p@)),
        r@ == candidate_prefix(n as nat, placement_view(p@), n as int),
{
    let ghost pv = placement_view(p@);
    let ghost nn = n as nat;
    let mut r: Vec<ClueWithGrouping> = Vec::new();
    let mut r1: usize = 0;
    while r1 < n
        invariant
            n <= MAX_GRID_SIZE,
            nn == n,
            p@.len() == n,
            forall|row: int| 0 <= row < n ==> (#[trigger] p@[row])@.len() == n,
            forall|row: int, v: int| 0 <= row < n && 0 <= v < n ==> #[trigger] p@[row]@[v] < n,
            pv == placement_view(p@),
            all_true(nn, r@, pv),
            r1 <= n,
            r@ == candidate_prefix(nn, pv, r1 as int),
        decreases n - r1,
    {
        let ghost base_row = r@;
        let mut v1: usize = 0;
        while v1 < n
            invariant
                n <= MAX_GRID_SIZE,
                nn == n,
                r1 < n,
                v1 <= n,
                p@.len() == n,
                forall|row: int| 0 <= row < n ==> (#[trigger] p@[row])@.len() == n,
                forall|row: int, v: int| 0 <= row < n && 0 <= v < n ==> #[trigger] p@[row]@[v] < n,
                pv == placement_view(p@),
                all_true(nn, r@, pv),
                base_row == candidate_prefix(nn, pv, r1 as int),
                r@ == base_row + row_clues(nn, pv, r1 as int, v1 as int),
            decreases n - v1,
        {
            let t1 = Tile::new(r1, variant_char(v1));
            let pos1 = p[r1][v1];
            assert(variant_index(t1.variant) == v1);
            assert(place(pv, t1) == pos1);
            assert(pv[r1 as int][v1 as int] == pos1);
            let other = if pos1 + 1 < n {
                pos1 + 1
            } else {
                0
            };
            let ghost base_tile = r@;
            r.push(
                ClueWithGrouping {
                    clue: Clue::OneOfPositions(t1, pos1, other),
                    orientation: ClueOrientation::Vertical,
                    group: r1 * MAX_GRID_SIZE + r1,
                },
            );
            assert(forall|i: int| 0 <= i < base_tile.len() ==> r@[i] == base_tile[i]);
            assert(r@ =~= base_tile + seq![one_of_clue(nn, pv, r1 as int, v1 as int)] + pairs_below(nn, pv, r1 as int, v1 as int, 0));
            let mut r2: usize = r1 + 1;
            while r2 < n
                invariant
                    n <= MAX_GRID_SIZE,
                    nn == n,
                    r1 < n,
                    v1 < n,
                    r1 < r2 <= n,
                    p@.len() == n,
                    forall|row: int| 0 <= row < n ==> (#[trigger] p@[row])@.len() == n,
                    forall|row: int, v: int| 0 <= row < n && 0 <= v < n ==> #[trigger] p@[row]@[v] < n,
                    pv == placement_view(p@),
                    tile_ok(nn, t1),
                    t1 == tile_at(r1 as int, v1 as int),
                    place(pv, t1) == pos1,
                    pv[r1 as int][v1 as int] == pos1,
                    all_true(nn, r@, pv),
                    r@ == base_tile + seq![one_of_clue(nn, pv, r1 as int, v1 as int)] + pairs_below(nn, pv, r1 as int, v1 as int, r2 - r1 - 1),
                decreases n - r2,
            {
                let ghost base_pairs = r@;
                let mut v2: usize = 0;
                while v2 < n
                    invariant
                        n <= MAX_GRID_SIZE,
                        nn == n,
                        r1 < n,
                        v1 < n,
                        r1 < r2 < n,
                        v2 <= n,
                        p@.len() == n,
                        forall|row: int| 0 <= row < n ==> (#[trigger] p@[row])@.len() == n,
                        forall|row: int, v: int| 0 <= row < n && 0 <= v < n ==> #[trigger] p@[row]@[v] < n,
                        pv == placement_view(p@),
                        tile_ok(nn, t1),
                        t1 == tile_at(r1 as int, v1 as int),
                        place(pv, t1) == pos1,
                        pv[r1 as int][v1 as int] == pos1,
                        all_true(nn, r@, pv),
                        r@ == base_pairs + pairs_with_row(pv, r1 as int, v1 as int, r2 as int, v2 as int),
                    decreases n - v2,
                {
                    let t2 = Tile::new(r2, variant_char(v2));
                    let pos2 = p[r2][v2];
                    assert(variant_index(t2.variant) == v2);
                    assert(place(pv, t2) == pos2);
                    assert(pv[r2 as int][v2 as int] == pos2);
                    let group = r1 * MAX_GRID_SIZE + r2;
                    let ghost b1 = r@;
                    if pos1 == pos2 {
                        r.push(
                            ClueWithGrouping {
                                clue: Clue::SamePosition(t1, t2),
                                orientation: ClueOrientation::Vertical,
                                group,
                            },
                        );
                    } else {
                        r.push(
                            ClueWithGrouping {
                                clue: Clue::DifferentPosition(t1, t2),
                                orientation: ClueOrientation::Vertical,
                                group,
                            },
                        );
                    }
                    assert(forall|i: int| 0 <= i < b1.len() ==> r@[i] == b1[i]);
                    let ghost b2 = r@;
                    if pos1 < pos2 {
                        r.push(
                            ClueWithGrouping {
                                clue: Clue::LeftOf(t1, t2),
                                orientation: ClueOrientation::Horizontal,
                                group,
                            },
                        );
                        assert(forall|i: int| 0 <= i < b2.len() ==> r@[i] == b2[i]);
                    } else if pos2 < pos1 {
                        r.push(
                            ClueWithGrouping {
                                clue: Clue::LeftOf(t2, t1),
                                orientation: ClueOrientation::Horizontal,
                                group,
                            },
                        );
                        assert(forall|i: int| 0 <= i < b2.len() ==> r@[i] == b2[i]);
                    }
                    assert(r@ =~= b1 + pair_clues(pv, r1 as int, v1 as int, r2 as int, v2 as int));
                    v2 += 1;
                    assert(r@ =~= base_pairs + pairs_with_row(pv, r1 as int, v1 as int, r2 as int, v2 as int));
                }
                r2 += 1;
                assert(r@ =~= base_tile + seq![one_of_clue(nn, pv, r1 as int, v1 as int)] + pairs_below(nn, pv, r1 as int, v1 as int, r2 - r1 - 1));
            }
            v1 += 1;
            assert(r@ =~= base_row + row_clues(nn, pv, r1 as int, v1 as int));
        }
        r1 += 1;
        assert(r@ =~= candidate_prefix(nn, pv, r1 as int));
    }
    r
}

/// The indices `0..len` in order.
pub open spec fn index_seq(len: nat) -> Seq<usize> {
    Seq::new(len, |i: int| i as usize)
}

/// The generator's state before draw `k` of a generation seeded with `seed`
/// over `len` candidate clues.
pub open spec fn generation_rng(len: nat, seed: u64, k: nat) -> StdRng
    decreases k,
{
    if k == 0 {
        rng_from_seed(seed)
    } else {
        shuffle_index_outcome(index_seq(len), generation_rng(len, seed, (k - 1) as nat)).1
    }
}

/// The order in which draw `k` takes the candidate clues.
pub open spec fn generation_order(len: nat, seed: u64, k: nat) -> Seq<usize> {
    shuffle_index_outcome(index_seq(len), generation_rng(len, seed, k)).0
}

/// The horizontal and vertical clues taken from `cands` by the first `k`
/// entries of `order`: an entry names a candidate, which is taken while its
/// orientation's cap is not reached.
pub open spec fn greedy_taken(cands: Seq<ClueWithGrouping>, order: Seq<usize>, k: nat) -> (Seq<ClueWithGrouping>, Seq<ClueWithGrouping>)
    decreases k,
{
    if k == 0 {
        (Seq::empty(), Seq::empty())
    } else {
        let prev = greedy_taken(cands, order, (k - 1) as nat);
        let idx = order[k - 1] as int;
        if idx < cands.len() {
            let c = cands[idx];
            if c.orientation == ClueOrientation::Horizontal {
                if prev.0.len() < MAX_HORIZ_CLUES {
                    (prev.0.push(c), prev.1)
                } else {
                    prev
                }
            } else {
                if prev.1.len() < MAX_VERT_CLUES {
                    (prev.0, prev.1.push(c))
                } else {
                    prev
                }
            }
        } else {
            prev
        }
    }
}

/// All clues taken by the first `k` entries of `order`.
pub open spec fn flat_taken(cands: Seq<ClueWithGrouping>, order: Seq<usize>, k: nat) -> Seq<Clue> {
    flat(greedy_taken(cands, order, k).0, greedy_taken(cands, order, k).1)
}

/// Some prefix of `order` takes clues that force a solved grid of size `n`.
pub open spec fn greedy_solves(n: nat, cands: Seq<ClueWithGrouping>, order: Seq<usize>) -> bool {
    exists|j: nat| j <= order.len() && #[trigger] forces(flat_taken(cands, order, j), n)
}

/// Every clue of `a` is among the clues of `b`.
pub open spec fn covered(a: Seq<Clue>, b: Seq<Clue>) -> bool {
    forall|i: int| 0 <= i < a.len() ==> b.contains(#[trigger] a[i])
}

/// Every clue of the sequence is true of `p`.
pub open spec fn all_hold(n: nat, clues: Seq<Clue>, p: Seq<Seq<int>>) -> bool {
    forall|i: int| 0 <= i < clues.len() ==> #[trigger] holds_in(n, clues[i], p)
}

proof fn lemma_fewer_clues(a: Seq<Clue>, b: Seq<Clue>, g: (nat, Seq<bool>), q: Seq<Seq<int>>)
    requires
        covered(a, b),
    ensures
        admitted(b, g, q) ==> admitted(a, g, q),
        fixpoint(b, g) ==> fixpoint(a, g),
{
    if admitted(b, g, q) {
        assert forall|i: int| 0 <= i < a.len() implies #[trigger] holds_in(g.0, a[i], q) by {
            assert(b.contains(a[i]));
            let k = choose|k: int| 0 <= k < b.len() && b[k] == a[i];
            assert(holds_in(g.0, b[k], q));
        }
    }
    if fixpoint(b, g) {
        assert forall|r: int, w: int, x: int| 0 <= r < g.0 && 0 <= w < g.0 && 0 <= x < g.0 implies !#[trigger] deducible(a, g, r, w, x) by {
            if deducible(a, g, r, w, x) {
                if !bijection_eliminates(g, r, w, x) {
                    let i = choose|i: int| 0 <= i < a.len() && #[trigger] clue_eliminates(a[i], g, r, w, x);
                    assert(b.contains(a[i]));
                    let k = choose|k: int| 0 <= k < b.len() && b[k] == a[i];
                    assert(clue_eliminates(b[k], g, r, w, x));
                }
                assert(deducible(b, g, r, w, x));
            }
        }
    }
}

/// Adding clues keeps a set forcing.
pub proof fn lemma_forces_more(a: Seq<Clue>, b: Seq<Clue>, n: nat)
    requires
        covered(a, b),
        forces(a, n),
    ensures
        forces(b, n),
{
    assert forall|g: (nat, Seq<bool>), q: Seq<Seq<int>>| #[trigger] stable_below(b, full_grid(n), g, q) implies solved(g) by {
        lemma_fewer_clues(a, b, g, q);
        assert(stable_below(a, full_grid(n), g, q));
    }
}

/// A solver run from the full grid ends `Solved` exactly when the clues force
/// a solved grid, given a placement that satisfies them.
pub proof fn lemma_run_decides(
    clues: Seq<Clue>,
    n: nat,
    p: Seq<Seq<int>>,
    result: SolveResult,
    g: (nat, Seq<bool>),
)
    requires
        admitted(clues, full_grid(n), p),
        grid_wf(g),
        shrinks(full_grid(n), g),
        (result == SolveResult::Contradiction) == contradictory(g),
        result == SolveResult::Solved ==> solved(g),
        result == SolveResult::Stuck ==> fixpoint(clues, g) && !solved(g),
        forall|q: Seq<Seq<int>>| #[trigger] admitted(clues, full_grid(n), q) ==> consistent(g, q),
        forall|h: (nat, Seq<bool>), q: Seq<Seq<int>>|
            #[trigger] stable_below(clues, full_grid(n), h, q) ==> shrinks(g, h),
    ensures
        (result == SolveResult::Solved) == forces(clues, n),
{
    assert(consistent(g, p));
    lemma_admitted_not_contradictory(g, p);
    if result == SolveResult::Solved {
        lemma_solved_run_forces(clues, n, g);
    } else {
        assert(admitted(clues, g, p));
        assert(stable_below(clues, full_grid(n), g, p));
    }
}

/// A clue set that does not force a solved grid is never solved by the solver
/// from the full grid.
pub proof fn lemma_unforced_set_stays_unsolved(
    clues: Seq<Clue>,
    n: nat,
    p: Seq<Seq<int>>,
    result: SolveResult,
    g: (nat, Seq<bool>),
)
    requires
        !forces(clues, n),
        admitted(clues, full_grid(n), p),
        grid_wf(g),
        shrinks(full_grid(n), g),
        (result == SolveResult::Contradiction) == contradictory(g),
        result == SolveResult::Solved ==> solved(g),
        result == SolveResult::Stuck ==> fixpoint(clues, g) && !solved(g),
        forall|q: Seq<Seq<int>>| #[trigger] admitted(clues, full_grid(n), q) ==> consistent(g, q),
        forall|h: (nat, Seq<bool>), q: Seq<Seq<int>>|
            #[trigger] stable_below(clues, full_grid(n), h, q) ==> shrinks(g, h),
    ensures
        result != SolveResult::Solved,
{
    lemma_run_decides(clues, n, p, result, g);
}

proof fn lemma_remove_covered(s: Seq<Clue>, i: int, j: int)
    requires
        0 <= j < i < s.len(),
    ensures
        covered(s.remove(i).remove(j), s.remove(j)),
{
    let a = s.remove(i).remove(j);
    let b = s.remove(j);
    assert forall|t: int| 0 <= t < a.len() implies b.contains(#[trigger] a[t]) by {
        if t < j {
            assert(a[t] == b[t]);
        } else if t + 1 < i {
            assert(a[t] == b[t]);
        } else {
            assert(a[t] == s[t + 2]);
            assert(b[t + 1] == s[t + 2]);
        }
    }
}

proof fn lemma_flat_remove(h: Seq<ClueWithGrouping>, v: Seq<ClueWithGrouping>, i: int)
    requires
        0 <= i < h.len() + v.len(),
    ensures
        i < h.len() ==> flat(h.remove(i), v) == flat(h, v).remove(i),
        i >= h.len() ==> flat(h, v.remove(i - h.len())) == flat(h, v).remove(i),
{
    if i < h.len() {
        assert(flat(h.remove(i), v) =~= flat(h, v).remove(i));
    } else {
        assert(flat(h, v.remove(i - h.len())) =~= flat(h, v).remove(i));
    }
}

proof fn lemma_flat_push(h: Seq<ClueWithGrouping>, v: Seq<ClueWithGrouping>, c: ClueWithGrouping)
    ensures
        covered(flat(h, v), flat(h.push(c), v)),
        covered(flat(h, v), flat(h, v.push(c))),
        flat(h.push(c), v).contains(c.clue),
        flat(h, v.push(c)).contains(c.clue),
{
    let f = flat(h, v);
    let fh = flat(h.push(c), v);
    let fv = flat(h, v.push(c));
    assert forall|t: int| 0 <= t < f.len() implies fh.contains(#[trigger] f[t]) by {
        if t < h.len() {
            assert(fh[t] == f[t]);
        } else {
            assert(fh[t + 1] == f[t]);
        }
    }
    assert forall|t: int| 0 <= t < f.len() implies fv.contains(#[trigger] f[t]) by {
        assert(fv[t] == f[t]);
    }
    assert(fh[h.len() as int] == c.clue);
    assert(fv[f.len() as int] == c.clue);
}

proof fn lemma_flat_holds(n: nat, h: Seq<ClueWithGrouping>, v: Seq<ClueWithGrouping>, p: Seq<Seq<int>>)
    requires
        all_true(n, h, p),
        all_true(n, v, p),
    ensures
        all_hold(n, flat(h, v), p),
{
    let f = flat(h, v);
    assert forall|i: int| 0 <= i < f.len() implies #[trigger] holds_in(n, f[i], p) by {
        if i < h.len() {
            assert(f[i] == h[i].clue);
            assert(holds_in(n, h[i].clue, p));
        } else {
            assert(f[i] == v[i - h.len()].clue);
            assert(holds_in(n, v[i - h.len()].clue, p));
        }
    }
}

proof fn lemma_full_admits(s: Solution, clues: Seq<Clue>, p: Seq<Seq<int>>)
    requires
        s.wf(),
        places_solution(s, p),
        all_hold(s.n_rows as nat, clues, p),
    ensures
        admitted(clues, full_grid(s.n_rows as nat), p),
{
    let nn = s.n_rows as nat;
    assert forall|row: int, v: int| 0 <= row < nn && 0 <= v < nn implies #[trigger] avail(full_grid(nn), row, v, p[row][v]) by {
        lemma_cell_index(nn as int, row, v, p[row][v]);
    }
}

/// The indices `0..len` in order.
fn index_list(len: usize) -> (r: Vec<usize>)
    ensures
        r@ == index_seq(len as nat),
{
    let mut r: Vec<usize> = Vec::new();
    let mut i: usize = 0;
    while i < len
        invariant
            i <= len,
            r@ == index_seq(i as nat),
        decreases len - i,
    {
        r.push(i);
        i += 1;
        assert(r@ =~= index_seq(i as nat));
    }
    r
}

impl ClueGenerator {
    /// A clue set for `solution`: the clues true of it, drawn in random order
    /// with a generator seeded by the solution's seed and taken one by one
    /// within the caps until they force a solved grid, then thinned until no
    /// clue can be dropped. Up to `MAX_GENERATION_ATTEMPTS` draws are made.
    /// The set admits exactly the solution's placement, forces a solved
    /// grid, and loses that with any one clue dropped; the returned grid is
    /// the solved grid that the solver reached from a full grid with it.
    pub fn generate(solution: &Solution) -> (r: Result<(ClueSet, CandidateGrid), GenerationError>)
        requires
            solution.wf(),
        ensures
            r matches Ok((set, g)) ==> generated_set(*solution, set, g),
            r.is_err() ==> forall|k: nat|
                k < MAX_GENERATION_ATTEMPTS ==> !#[trigger] greedy_solves(
                    solution.n_rows as nat,
                    candidate_seq(*solution),
                    generation_order(candidate_seq(*solution).len(), solution.seed, k),
                ),
    {
        let n = solution.n_rows;
        let p = placement_of(solution);
        let ghost pv = placement_view(p@);
        let candidates = Self::candidates(solution);
        assert(all_true(n as nat, candidates@, pv));
        let ghost len = candidates@.len();
        let mut rng = seeded_rng(solution.seed);
        let mut attempt: usize = 0;
        while attempt < MAX_GENERATION_ATTEMPTS
            invariant
                solution.wf(),
                n == solution.n_rows,
                places_solution(*solution, pv),
                all_true(n as nat, candidates@, pv),
                forall|q: Seq<Seq<int>>| #[trigger] places_solution(*solution, q) ==> all_true(
                    n as nat,
                    candidates@,
                    q,
                ),
                len == candidates@.len(),
                attempt <= MAX_GENERATION_ATTEMPTS,
                rng == generation_rng(len, solution.seed, attempt as nat),
                forall|k: nat|
                    k < attempt ==> !#[trigger] greedy_solves(
                        n as nat,
                        candidates@,
                        generation_order(len, solution.seed, k),
                    ),
            decreases MAX_GENERATION_ATTEMPTS - attempt,
        {
            let mut order = index_list(candidates.len());
            shuffle_indices(&mut order, &mut rng);
            assert(order@ == generation_order(len, solution.seed, attempt as nat));
            match Self::attempt(solution, &candidates, &order) {
                Some(found) => {
                    return Ok(found);
                },
                None => {},
            }
            attempt += 1;
        }
        assert(candidates@.len() == len);
        Err(GenerationError::GenerationExhausted)
    }

    /// Every clue true of `solution` that the generator draws from.
    pub fn candidates(solution: &Solution) -> (r: Vec<ClueWithGrouping>)
        requires
            solution.wf(),
        ensures
            r@ == candidate_seq(*solution),
            forall|q: Seq<Seq<int>>| #[trigger] places_solution(*solution, q) ==> all_true(
                solution.n_rows as nat,
                r@,
                q,
            ),
    {
        let n = solution.n_rows;
        let p = placement_of(solution);
        let ghost pv = placement_view(p@);
        proof {
            assert forall|row: int, v: int| 0 <= row < n && 0 <= v < n implies #[trigger] p@[row]@[v] < n by {
                assert(pv[row][v] == p@[row]@[v] as int);
            }
        }
        let r = candidate_clues(n, &p);
        proof {
            lemma_places_solution_unique(*solution, solution_placement(*solution), pv);
            assert forall|q: Seq<Seq<int>>| #[trigger] places_solution(*solution, q) implies all_true(n as nat, r@, q) by {
                lemma_places_solution_unique(*solution, q, pv);
            }
        }
        r
    }

    /// One draw: the candidates taken in the order `order` gives, within the
    /// caps, until they force a solved grid; then every clue without which
    /// the rest still force it is dropped, one at a time. Nothing comes back
    /// exactly when no prefix of the order forces a solved grid.
    pub fn attempt(
        solution: &Solution,
        candidates: &Vec<ClueWithGrouping>,
        order: &Vec<usize>,
    ) -> (r: Option<(ClueSet, CandidateGrid)>)
        requires
            solution.wf(),
            forall|q: Seq<Seq<int>>| #[trigger] places_solution(*solution, q) ==> all_true(
                solution.n_rows as nat,
                candidates@,
                q,
            ),
        ensures
            r.is_none() <==> !greedy_solves(solution.n_rows as nat, candidates@, order@),
            r matches Some((set, g)) ==> generated_set(*solution, set, g),
    {
        let n = solution.n_rows;
        let p = placement_of(solution);
        let ghost pv = placement_view(p@);
        assert(all_true(n as nat, candidates@, pv));
        let ghost nn = n as nat;
        let ghost fg = full_grid(nn);
        let mut horizontal: Vec<ClueWithGrouping> = Vec::new();
        let mut vertical: Vec<ClueWithGrouping> = Vec::new();
        let full = CandidateGrid::new(n);
        assert(full@ =~= fg);
        let empty = flat_clues(&horizontal, &vertical);
        let first = solve(&empty, &full);
        let mut grid = first.grid;
        proof {
            assert(horizontal@ =~= Seq::<ClueWithGrouping>::empty());
            assert(vertical@ =~= Seq::<ClueWithGrouping>::empty());
            lemma_flat_holds(nn, horizontal@, vertical@, pv);
            lemma_full_admits(*solution, empty@, pv);
            lemma_run_decides(empty@, nn, pv, first.result, grid@);
            assert(greedy_taken(candidates@, order@, 0) == (horizontal@, vertical@));
        }
        let mut reached = first.result == SolveResult::Solved;
        let mut k: usize = 0;
        while k < order.len() && !reached
            invariant
                solution.wf(),
                n == solution.n_rows,
                nn == n,
                fg == full_grid(nn),
                n <= MAX_GRID_SIZE,
                places_solution(*solution, pv),
                all_true(nn, candidates@, pv),
                k <= order@.len(),
                (horizontal@, vertical@) == greedy_taken(candidates@, order@, k as nat),
                all_true(nn, horizontal@, pv),
                all_true(nn, vertical@, pv),
                horizontal@.len() <= MAX_HORIZ_CLUES,
                vertical@.len() <= MAX_VERT_CLUES,
                grid.wf(),
                grid.n == n,
                shrinks(fg, grid@),
                forall|q: Seq<Seq<int>>|
                    #[trigger] admitted(flat(horizontal@, vertical@), fg, q) ==> consistent(grid@, q),
                forall|g: (nat, Seq<bool>), q: Seq<Seq<int>>|
                    #[trigger] stable_below(flat(horizontal@, vertical@), fg, g, q) ==> shrinks(grid@, g),
                reached ==> forces(flat(horizontal@, vertical@), nn),
                !reached ==> forall|j: nat| j <= k ==> !#[trigger] forces(flat_taken(candidates@, order@, j), nn),
            decreases order@.len() - k,
        {
            let idx = order[k];
            let ghost before_h = horizontal@;
            let ghost before_v = vertical@;
            let mut taken = false;
            if idx < candidates.len() {
                let c = candidates[idx];
                assert(holds_in(nn, c.clue, pv));
                match c.orientation {
                    ClueOrientation::Horizontal => {
                        if horizontal.len() < MAX_HORIZ_CLUES {
                            horizontal.push(c);
                            proof {
                                assert(forall|i: int| 0 <= i < before_h.len() ==> horizontal@[i] == before_h[i]);
                                lemma_flat_push(before_h, before_v, c);
                            }
                            taken = true;
                        }
                    },
                    ClueOrientation::Vertical => {
                        if vertical.len() < MAX_VERT_CLUES {
                            vertical.push(c);
                            proof {
                                assert(forall|i: int| 0 <= i < before_v.len() ==> vertical@[i] == before_v[i]);
                                lemma_flat_push(before_h, before_v, c);
                            }
                            taken = true;
                        }
                    },
                }
            }
            k += 1;
            assert((horizontal@, vertical@) == greedy_taken(candidates@, order@, k as nat));
            if taken {
                let ghost old_clues = flat(before_h, before_v);
                let ghost old_grid = grid@;
                let clues = flat_clues(&horizontal, &vertical);
                let out = solve(&clues, &grid);
                grid = out.grid;
                proof {
                    let nc = clues@;
                    assert(covered(old_clues, nc));
                    lemma_flat_holds(nn, horizontal@, vertical@, pv);
                    lemma_full_admits(*solution, nc, pv);
                    assert forall|q: Seq<Seq<int>>| #[trigger] admitted(nc, fg, q) implies consistent(grid@, q) by {
                        lemma_fewer_clues(old_clues, nc, fg, q);
                        assert(consistent(old_grid, q));
                        assert(admitted(nc, old_grid, q));
                    }
                    assert forall|g: (nat, Seq<bool>), q: Seq<Seq<int>>| #[trigger] stable_below(nc, fg, g, q) implies shrinks(grid@, g) by {
                        lemma_fewer_clues(old_clues, nc, g, q);
                        assert(stable_below(old_clues, fg, g, q));
                        assert(stable_below(nc, old_grid, g, q));
                    }
                    assert forall|r: int, w: int, x: int|
                        0 <= r < nn && 0 <= w < nn && 0 <= x < nn && #[trigger] avail(grid@, r, w, x) implies avail(fg, r, w, x) by {
                        assert(avail(old_grid, r, w, x));
                    }
                    lemma_run_decides(nc, nn, pv, out.result, grid@);
                    assert(flat_taken(candidates@, order@, k as nat) == nc);
                }
                if out.result == SolveResult::Solved {
                    reached = true;
                }
            } else {
                assert(horizontal@ == before_h && vertical@ == before_v);
                assert(flat_taken(candidates@, order@, k as nat) == flat_taken(candidates@, order@, (k - 1) as nat));
            }
        }
        if !reached {
            assert(k == order@.len());
            assert forall|j: nat| j <= order@.len() implies !#[trigger] forces(flat_taken(candidates@, order@, j), nn) by {}
            return None;
        }
        assert(forces(flat_taken(candidates@, order@, k as nat), nn));
        assert(greedy_solves(nn, candidates@, order@));
        let mut i: usize = 0;
        while i < horizontal.len() + vertical.len()
            invariant
                solution.wf(),
                n == solution.n_rows,
                nn == n,
                fg == full_grid(nn),
                n <= MAX_GRID_SIZE,
                places_solution(*solution, pv),
                all_true(nn, horizontal@, pv),
                all_true(nn, vertical@, pv),
                horizontal@.len() <= MAX_HORIZ_CLUES,
                vertical@.len() <= MAX_VERT_CLUES,
                forces(flat(horizontal@, vertical@), nn),
                forall|j: int| 0 <= j < i ==> !#[trigger] forces(flat(horizontal@, vertical@).remove(j), nn),
            decreases horizontal@.len() + vertical@.len() - i,
        {
            let ghost h0 = horizontal@;
            let ghost v0 = vertical@;
            let ghost f0 = flat(h0, v0);
            let mut trial = flat_clues(&horizontal, &vertical);
            trial.remove(i);
            let full = CandidateGrid::new(n);
            let out = solve(&trial, &full);
            proof {
                assert(full@ =~= fg);
                lemma_flat_holds(nn, h0, v0, pv);
                assert forall|t: int| 0 <= t < trial@.len() implies #[trigger] holds_in(nn, trial@[t], pv) by {
                    if t < i {
                        assert(trial@[t] == f0[t]);
                    } else {
                        assert(trial@[t] == f0[t + 1]);
                    }
                }
                lemma_full_admits(*solution, trial@, pv);
                lemma_run_decides(trial@, nn, pv, out.result, out.grid@);
            }
            if out.result == SolveResult::Solved {
                proof {
                    lemma_flat_remove(h0, v0, i as int);
                }
                if i < horizontal.len() {
                    horizontal.remove(i);
                } else {
                    vertical.remove(i - horizontal.len());
                }
                proof {
                    let f1 = flat(horizontal@, vertical@);
                    assert(f1 == f0.remove(i as int));
                    assert forall|k2: int| 0 <= k2 < horizontal@.len() implies #[trigger] holds_in(nn, horizontal@[k2].clue, pv) by {
                        if i < h0.len() {
                            if k2 < i { assert(horizontal@[k2] == h0[k2]); } else { assert(horizontal@[k2] == h0[k2 + 1]); }
                        } else {
                            assert(horizontal@[k2] == h0[k2]);
                        }
                    }
                    assert forall|k2: int| 0 <= k2 < vertical@.len() implies #[trigger] holds_in(nn, vertical@[k2].clue, pv) by {
                        if i >= h0.len() {
                            if k2 < i - h0.len() { assert(vertical@[k2] == v0[k2]); } else { assert(vertical@[k2] == v0[k2 + 1]); }
                        } else {
                            assert(vertical@[k2] == v0[k2]);
                        }
                    }
                    assert forall|j: int| 0 <= j < i implies !#[trigger] forces(f1.remove(j), nn) by {
                        lemma_remove_covered(f0, i as int, j);
                        if forces(f1.remove(j), nn) {
                            lemma_forces_more(f1.remove(j), f0.remove(j), nn);
                        }
                    }
                }
            } else {
                i += 1;
            }
        }
        let set = ClueSet { horizontal_clues: horizontal, vertical_clues: vertical };
        let all = set.all_clues();
        let full = CandidateGrid::new(n);
        let out = solve(&all, &full);
        proof {
            assert(full@ =~= fg);
            lemma_flat_holds(nn, set.horizontal_clues@, set.vertical_clues@, pv);
            lemma_full_admits(*solution, all@, pv);
            lemma_run_decides(all@, nn, pv, out.result, out.grid@);
            assert(out.result == SolveResult::Solved);
            assert(consistent(out.grid@, pv));
            assert forall|q: Seq<Seq<int>>| #[trigger] admitted(all@, fg, q) <==> places_solution(*solution, q) by {
                if admitted(all@, fg, q) {
                    assert(consistent(out.grid@, q));
                    lemma_solved_unique(out.grid@, q, pv);
                    assert forall|row: int, v: int| 0 <= row < nn && 0 <= v < nn implies solution.cell(row, #[trigger] q[row][v]) == variant_of(v) by {
                        assert(q[row][v] == pv[row][v]);
                    }
                }
                if places_solution(*solution, q) {
                    lemma_places_solution_unique(*solution, q, pv);
                }
            }
        }
        Some((set, out.grid))
    }
}

/// What a generated clue set and its solved grid satisfy: the caps hold, the
/// set admits exactly the solution's placement, it forces a solved grid and
/// no longer does with any one clue dropped, and the grid is a solved grid
/// below the full one.
pub open spec fn generated_set(s: Solution, set: ClueSet, g: CandidateGrid) -> bool {
    &&& set.horizontal_clues@.len() <= MAX_HORIZ_CLUES
    &&& set.vertical_clues@.len() <= MAX_VERT_CLUES
    &&& g.wf()
    &&& g.n == s.n_rows
    &&& solved(g@)
    &&& shrinks(full_grid(s.n_rows as nat), g@)
    &&& determines(s, set.clue_seq())
    &&& forces(set.clue_seq(), s.n_rows as nat)
    &&& forall|i: int|
        0 <= i < set.clue_seq().len() ==> !#[trigger] forces(set.clue_seq().remove(i), s.n_rows as nat)
}

} // verus!
