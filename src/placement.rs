use vstd::prelude::*;

use crate::clue::{consistent, occupied, valid_placement};
use crate::grid::{avail, count_positions, count_values, contradictory, solved};
use crate::solution::{canonical_variants, lemma_row_is_permutation, Solution};
use crate::tile::{variant_of, Tile};

verus! {

/// The grid of size `n` in which every candidate is available.
pub open spec fn full_grid(n: nat) -> (nat, Seq<bool>) {
    (n, Seq::new(n * n * n, |i: int| true))
}

/// `q` is a valid placement that puts every value where the solution has it.
pub open spec fn places_solution(s: Solution, q: Seq<Seq<int>>) -> bool {
    &&& valid_placement(s.n_rows as nat, q)
    &&& forall|row: int, v: int|
        0 <= row < s.n_rows && 0 <= v < s.n_rows ==> s.cell(row, #[trigger] q[row][v]) == variant_of(v)
}

/// The view of a placement held as nested vectors.
pub open spec fn placement_view(p: Seq<Vec<usize>>) -> Seq<Seq<int>> {
    Seq::new(p.len(), |row: int| Seq::new(p[row]@.len(), |v: int| p[row]@[v] as int))
}

/// Two available positions of one tile make its count at least two.
pub proof fn lemma_count_two(g: (nat, Seq<bool>), row: int, v: int, a: int, b: int, k: int)
    requires
        0 <= a < k,
        0 <= b < k,
        a != b,
        avail(g, row, v, a),
        avail(g, row, v, b),
    ensures
        count_positions(g, row, v, k) >= 2,
    decreases k,
{
    if a == k - 1 {
        lemma_count_one(g, row, v, b, k - 1);
    } else if b == k - 1 {
        lemma_count_one(g, row, v, a, k - 1);
    } else {
        lemma_count_two(g, row, v, a, b, k - 1);
    }
}

/// An available position of a tile makes its count positive.
pub proof fn lemma_count_one(g: (nat, Seq<bool>), row: int, v: int, a: int, k: int)
    requires
        0 <= a < k,
        avail(g, row, v, a),
    ensures
        count_positions(g, row, v, k) >= 1,
    decreases k,
{
    if a < k - 1 {
        lemma_count_one(g, row, v, a, k - 1);
    }
}

/// An available value at a position makes that position's count positive.
pub proof fn lemma_value_count_one(g: (nat, Seq<bool>), row: int, pos: int, w: int, k: int)
    requires
        0 <= w < k,
        avail(g, row, w, pos),
    ensures
        count_values(g, row, pos, k) >= 1,
    decreases k,
{
    if w < k - 1 {
        lemma_value_count_one(g, row, pos, w, k - 1);
    }
}

/// A grid that still admits a valid placement is not contradictory.
pub proof fn lemma_admitted_not_contradictory(g: (nat, Seq<bool>), q: Seq<Seq<int>>)
    requires
        valid_placement(g.0, q),
        consistent(g, q),
    ensures
        !contradictory(g),
{
    let n = g.0;
    assert forall|row: int, v: int| 0 <= row < n && 0 <= v < n implies #[trigger] count_positions(g, row, v, n as int) != 0 by {
        assert(avail(g, row, v, q[row][v]));
        lemma_count_one(g, row, v, q[row][v], n as int);
    }
    assert forall|row: int, pos: int| 0 <= row < n && 0 <= pos < n implies #[trigger] count_values(g, row, pos, n as int) != 0 by {
        assert(occupied(n, q, row, pos));
        let w = choose|w: int| 0 <= w < n && #[trigger] q[row][w] == pos;
        assert(avail(g, row, w, q[row][w]));
        lemma_value_count_one(g, row, pos, w, n as int);
    }
}

/// In a solved grid two admitted placements agree everywhere.
pub proof fn lemma_solved_unique(g: (nat, Seq<bool>), q: Seq<Seq<int>>, p: Seq<Seq<int>>)
    requires
        solved(g),
        valid_placement(g.0, q),
        valid_placement(g.0, p),
        consistent(g, q),
        consistent(g, p),
    ensures
        forall|row: int, v: int| 0 <= row < g.0 && 0 <= v < g.0 ==> #[trigger] q[row][v] == p[row][v],
{
    let n = g.0;
    assert forall|row: int, v: int| 0 <= row < n && 0 <= v < n implies #[trigger] q[row][v] == p[row][v] by {
        assert(avail(g, row, v, q[row][v]));
        assert(avail(g, row, v, p[row][v]));
        assert(count_positions(g, row, v, n as int) == 1);
        if q[row][v] != p[row][v] {
            lemma_count_two(g, row, v, q[row][v], p[row][v], n as int);
        }
    }
}

/// The values of a row of a well-formed solution are pairwise distinct.
pub proof fn lemma_row_distinct(s: Solution, row: int)
    requires
        s.wf(),
        0 <= row < s.n_rows,
    ensures
        s.row_values(row).no_duplicates(),
{
    let vals = s.row_values(row);
    let n = s.n_variants as nat;
    lemma_row_is_permutation(s, row);
    assert forall|x: char| vals.to_multiset().contains(x) implies vals.to_multiset().count(x) == 1 by {
        vstd::seq_lib::to_multiset_contains(vals, x);
        let c = choose|c: int| 0 <= c < vals.len() && vals[c] == x;
        assert(vals[c] == s.cell(row, c));
        assert(canonical_variants(n).contains(s.cell(row, c)));
        let k = choose|k: int| 0 <= k < n && canonical_variants(n)[k] == x;
        assert(vals.to_multiset().count(variant_of(k)) == 1);
    }
    vals.lemma_multiset_has_no_duplicates_conv();
}

/// Two valid placements that both place the solution are equal.
pub proof fn lemma_places_solution_unique(s: Solution, q: Seq<Seq<int>>, p: Seq<Seq<int>>)
    requires
        s.wf(),
        places_solution(s, q),
        places_solution(s, p),
    ensures
        q == p,
{
    let n = s.n_rows as int;
    assert forall|row: int| 0 <= row < n implies #[trigger] q[row] == p[row] by {
        lemma_row_distinct(s, row);
        assert forall|v: int| 0 <= v < n implies #[trigger] q[row][v] == p[row][v] by {
            let a = q[row][v];
            let b = p[row][v];
            assert(s.row_values(row)[a] == s.cell(row, a));
            assert(s.row_values(row)[b] == s.cell(row, b));
        }
        assert(q[row] =~= p[row]);
    }
    assert(q =~= p);
}

/// The placement of a well-formed solution: for each row and value index,
/// the position at which the solution has that value.
pub fn placement_of(s: &Solution) -> (p: Vec<Vec<usize>>)
    requires
        s.wf(),
    ensures
        places_solution(*s, placement_view(p@)),
        p@.len() == s.n_rows,
        forall|row: int| 0 <= row < s.n_rows ==> (#[trigger] p@[row])@.len() == s.n_rows,
{
    let n = s.n_rows;
    let mut p: Vec<Vec<usize>> = Vec::new();
    let mut row: usize = 0;
    while row < n
        invariant
            s.wf(),
            n == s.n_rows,
            row <= n,
            p@.len() == row,
            forall|r: int| 0 <= r < row ==> (#[trigger] p@[r])@.len() == n,
            forall|r: int, v: int|
                0 <= r < row && 0 <= v < n ==> (#[trigger] p@[r]@[v]) < n && s.cell(r, p@[r]@[v] as int)
                    == variant_of(v),
        decreases n - row,
    {
        let mut cols: Vec<usize> = Vec::new();
        let mut v: usize = 0;
        while v < n
            invariant
                s.wf(),
                n == s.n_rows,
                row < n,
                v <= n,
                cols@.len() == v,
                forall|w: int|
                    0 <= w < v ==> (#[trigger] cols@[w]) < n && s.cell(row as int, cols@[w] as int)
                        == variant_of(w),
            decreases n - v,
        {
            let c = crate::solution::variant_char(v);
            let (_, col) = s.find_tile(Tile::new(row, c));
            cols.push(col);
            v += 1;
        }
        p.push(cols);
        row += 1;
    }
    let ghost pv = placement_view(p@);
    proof {
        assert forall|r: int, v: int, w: int|
            0 <= r < n && 0 <= v < n && 0 <= w < n && v != w implies #[trigger] pv[r][v] != #[trigger] pv[r][w] by {
            assert(s.cell(r, pv[r][v]) == variant_of(v));
            assert(s.cell(r, pv[r][w]) == variant_of(w));
            assert((variant_of(v) as u32) as int == 97 + v);
            assert((variant_of(w) as u32) as int == 97 + w);
        }
        assert forall|r: int, pos: int| 0 <= r < n && 0 <= pos < n implies #[trigger] occupied(n as nat, pv, r, pos) by {
            lemma_row_is_permutation(*s, r);
            lemma_row_distinct(*s, r);
            let canon = canonical_variants(n as nat);
            assert(canon.contains(s.cell(r, pos)));
            let k = choose|k: int| 0 <= k < n && canon[k] == s.cell(r, pos);
            let c = pv[r][k];
            assert(s.cell(r, c) == variant_of(k));
            assert(s.row_values(r)[c] == s.cell(r, c));
            assert(s.row_values(r)[pos] == s.cell(r, pos));
            assert(pv[r][k] == pos);
        }
    }
    p
}

} // verus!
