use vstd::prelude::*;

use std::ops::RangeInclusive;

use crate::rng::{os_seed, rng_from_seed, seeded_rng, shuffle_chars, shuffle_outcome};
use crate::tile::{variant_index, variant_of, Difficulty, Tile, MAX_GRID_SIZE};
use rand::rngs::StdRng;

verus! {

broadcast use vstd::utf8::char_u32_cast;

/// The values of a category in their canonical order: 'a', 'b', ... (n of them).
pub open spec fn canonical_variants(n: nat) -> Seq<char> {
    Seq::new(n, |i: int| variant_of(i))
}

/// State of the generator seeded with `seed` once `k` rows of size `n` were shuffled.
pub open spec fn rng_after_rows(n: nat, seed: u64, k: nat) -> StdRng
    decreases k,
{
    if k == 0 {
        rng_from_seed(seed)
    } else {
        shuffle_outcome(canonical_variants(n), rng_after_rows(n, seed, (k - 1) as nat)).1
    }
}

/// Row `k` of the grid generated from `seed`: the canonical values shuffled
/// with the generator as the earlier rows left it.
pub open spec fn generated_row(n: nat, seed: u64, k: nat) -> Seq<char> {
    shuffle_outcome(canonical_variants(n), rng_after_rows(n, seed, k)).0
}

/// Every cell of the generated grid; cells beyond the `n` by `n` corner hold 'a'.
pub open spec fn generated_cell(n: nat, seed: u64, row: int, col: int) -> char {
    if 0 <= row < n && 0 <= col < n {
        generated_row(n, seed, row as nat)[col]
    } else {
        'a'
    }
}

/// Why no solution could be made.
#[derive(Debug, Clone, Copy, PartialEq, Eq, Structural)]
pub enum SeedError {
    /// No seed was given and the operating system's source yielded none.
    SeedUnavailable,
}

/// The hidden assignment: for each category row, the value at each position.
#[derive(Debug)]
pub struct Solution {
    pub variants: Vec<char>,
    pub variants_range: RangeInclusive<char>,
    pub grid: [[char; MAX_GRID_SIZE]; MAX_GRID_SIZE],
    pub n_rows: usize,
    pub n_variants: usize,
    pub difficulty: Difficulty,
    pub seed: u64,
}

impl Default for Solution {
    fn default() -> (r: Self)
        ensures
            r.wf(),
            r.n_rows == 0,
            r.n_variants == 0,
            r.seed == 0,
            r.difficulty == Difficulty::Easy,
            r.variants@.len() == 0,
            r.variants_range@.start == 'a',
            r.variants_range@.end == 'a',
            !r.variants_range@.exhausted,
            forall|row: int, col: int|
                0 <= row < MAX_GRID_SIZE && 0 <= col < MAX_GRID_SIZE ==> #[trigger] r.cell(row, col)
                    == 'a',
    {
        let variants: Vec<char> = Vec::new();
        assert(variants@ =~= canonical_variants(0));
        Solution {
            variants,
            variants_range: RangeInclusive::new('a', 'a'),
            grid: [['a'; MAX_GRID_SIZE]; MAX_GRID_SIZE],
            n_rows: 0,
            n_variants: 0,
            difficulty: Difficulty::default(),
            seed: 0,
        }
    }
}

impl Solution {
    /// The value at `(row, col)`.
    pub open spec fn cell(&self, row: int, col: int) -> char {
        self.grid@[row]@[col]
    }

    /// The values of a row over the puzzle's positions.
    pub open spec fn row_values(&self, row: int) -> Seq<char> {
        self.grid@[row]@.subrange(0, self.n_variants as int)
    }

    /// The solution's shape holds, and each row is a permutation of the values.
    pub open spec fn wf(&self) -> bool {
        &&& self.n_rows == self.n_variants
        &&& self.n_variants <= MAX_GRID_SIZE
        &&& self.variants@ == canonical_variants(self.n_variants as nat)
        &&& self.n_variants > 0 ==> {
            &&& self.variants_range@.start == 'a'
            &&& self.variants_range@.end == variant_of(self.n_variants - 1)
            &&& !self.variants_range@.exhausted
        }
        &&& forall|row: int|
            0 <= row < self.n_rows ==> (#[trigger] self.row_values(row)).to_multiset()
                == canonical_variants(self.n_variants as nat).to_multiset()
    }

    /// This solution is the one generated for `difficulty` from `seed`.
    pub open spec fn generated_by(&self, difficulty: Difficulty, seed: u64) -> bool {
        &&& self.wf()
        &&& self.n_rows == difficulty.spec_n_rows()
        &&& self.difficulty == difficulty
        &&& self.seed == seed
        &&& forall|row: int, col: int|
            0 <= row < MAX_GRID_SIZE && 0 <= col < MAX_GRID_SIZE ==> #[trigger] self.cell(row, col)
                == generated_cell(self.n_rows as nat, seed, row, col)
    }

    /// The inclusive range of value symbols of a category with `n_variants` values.
    pub fn variants_range(n_variants: usize) -> (r: RangeInclusive<char>)
        requires
            1 <= n_variants <= 26,
        ensures
            r@.start == 'a',
            r@.end == variant_of(n_variants - 1),
            !r@.exhausted,
    {
        let last_variant = variant_char(n_variants - 1);
        RangeInclusive::new('a', last_variant)
    }

    /// A solution for `difficulty`, shuffled with a generator seeded by `seed`,
    /// or by a seed drawn from the operating system when `seed` is `None`.
    /// The grid is a function of the difficulty and the retained seed alone.
    /// Fails only when no seed is given and the operating system yields none.
    pub fn new(difficulty: Difficulty, seed: Option<u64>) -> (r: Result<Self, SeedError>)
        ensures
            r matches Ok(s) ==> s.generated_by(difficulty, s.seed),
            seed matches Some(k) ==> r matches Ok(s) && s.seed == k,
            r.is_err() ==> seed.is_none(),
    {
        let seed = match seed {
            Some(s) => s,
            None => match os_seed() {
                Some(s) => s,
                None => return Err(SeedError::SeedUnavailable),
            },
        };
        Ok(Self::from_seed(difficulty, seed))
    }

    /// The solution for `difficulty` generated from `seed`: each row is the
    /// canonical values shuffled, in row order, by a generator seeded with `seed`.
    pub fn from_seed(difficulty: Difficulty, seed: u64) -> (r: Self)
        ensures
            r.generated_by(difficulty, seed),
    {
        let n_rows = difficulty.n_rows();
        let n_variants = n_rows;
        let mut grid = [['a'; MAX_GRID_SIZE]; MAX_GRID_SIZE];
        let mut rng = seeded_rng(seed);
        let variants_range = Self::variants_range(n_variants);
        let variants = canonical_vec(n_variants);
        let ghost n = n_variants as nat;
        let mut row: usize = 0;
        while row < n_rows
            invariant
                n == n_rows,
                n_rows == n_variants,
                1 <= n_rows <= MAX_GRID_SIZE,
                row <= n_rows,
                rng == rng_after_rows(n, seed, row as nat),
                forall|r: int, c: int|
                    0 <= r < MAX_GRID_SIZE && 0 <= c < MAX_GRID_SIZE ==> #[trigger] grid@[r]@[c]
                        == if r < row {
                        generated_cell(n, seed, r, c)
                    } else {
                        'a'
                    },
                forall|r: int|
                    0 <= r < row ==> (#[trigger] grid@[r]@.subrange(0, n as int)).to_multiset()
                        == canonical_variants(n).to_multiset(),
            decreases n_rows - row,
        {
            let mut row_tiles = canonical_vec(n_variants);
            shuffle_chars(&mut row_tiles, &mut rng);
            proof {
                vstd::seq_lib::to_multiset_len(row_tiles@);
                vstd::seq_lib::to_multiset_len(canonical_variants(n));
            }
            let ghost before = grid;
            let mut col: usize = 0;
            while col < n_variants
                invariant
                    n == n_variants,
                    1 <= n_variants <= MAX_GRID_SIZE,
                    row < MAX_GRID_SIZE,
                    col <= n_variants,
                    row_tiles@ == generated_row(n, seed, row as nat),
                    row_tiles@.len() == n,
                    forall|r: int| 0 <= r < MAX_GRID_SIZE && r != row ==> grid@[r] == before@[r],
                    forall|c: int|
                        0 <= c < MAX_GRID_SIZE ==> #[trigger] grid@[row as int]@[c] == if c < col {
                            row_tiles@[c]
                        } else {
                            'a'
                        },
                decreases n_variants - col,
            {
                grid[row][col] = row_tiles[col];
                col += 1;
            }
            assert(grid@[row as int]@.subrange(0, n as int) =~= row_tiles@);
            row += 1;
        }
        Self {
            variants,
            variants_range,
            grid,
            n_rows,
            n_variants,
            difficulty,
            seed,
        }
    }

    /// The tile at `(row, col)`.
    pub fn get(&self, row: usize, col: usize) -> (r: Tile)
        requires
            row < MAX_GRID_SIZE,
            col < MAX_GRID_SIZE,
        ensures
            r == (Tile { row, variant: self.cell(row as int, col as int) }),
    {
        let variant = self.grid[row][col];
        Tile::new(row, variant)
    }

    /// The `(row, position)` at which `tile` stands.
    pub fn find_tile(&self, tile: Tile) -> (r: (usize, usize))
        requires
            self.wf(),
            tile.row < self.n_rows,
            0 <= variant_index(tile.variant) < self.n_variants,
        ensures
            r.0 == tile.row,
            r.1 < self.n_variants,
            self.cell(r.0 as int, r.1 as int) == tile.variant,
    {
        let row = tile.row;
        let variant = tile.variant;
        proof {
            let n = self.n_variants as nat;
            let i = variant_index(variant);
            assert(canonical_variants(n)[i] == variant);
            vstd::seq_lib::to_multiset_contains(canonical_variants(n), variant);
            vstd::seq_lib::to_multiset_contains(self.row_values(row as int), variant);
            assert(self.row_values(row as int).to_multiset() == canonical_variants(n).to_multiset());
        }
        let mut solution_col: usize = 0;
        while solution_col < self.n_variants
            invariant
                self.wf(),
                row == tile.row,
                row < self.n_rows,
                variant == tile.variant,
                solution_col <= self.n_variants,
                self.row_values(row as int).contains(variant),
                forall|c: int| 0 <= c < solution_col ==> self.cell(row as int, c) != variant,
            decreases self.n_variants - solution_col,
        {
            if self.grid[row][solution_col] == variant {
                return (row, solution_col);
            }
            solution_col += 1;
        }
        proof {
            let k = choose|k: int|
                0 <= k < self.n_variants && self.row_values(row as int)[k] == variant;
            assert(self.cell(row as int, k) == variant);
        }
        vstd::pervasive::unreached()
    }

    /// Every tile of the puzzle, row by row, values in canonical order.
    pub fn all_tiles(&self) -> (r: Vec<Tile>)
        requires
            self.wf(),
        ensures
            r@.len() == self.n_rows * self.n_variants,
            forall|row: int, k: int|
                0 <= row < self.n_rows && 0 <= k < self.n_variants ==> #[trigger] r@[row
                    * self.n_variants + k] == (Tile { row: row as usize, variant: variant_of(k) }),
    {
        let n = self.n_variants;
        let mut tiles: Vec<Tile> = Vec::new();
        let mut row: usize = 0;
        while row < self.n_rows
            invariant
                self.wf(),
                n == self.n_variants,
                row <= self.n_rows,
                tiles@.len() == row * n,
                forall|r: int, k: int|
                    0 <= r < row && 0 <= k < n ==> #[trigger] tiles@[r * n + k] == (Tile {
                        row: r as usize,
                        variant: variant_of(k),
                    }),
            decreases self.n_rows - row,
        {
            let mut k: usize = 0;
            while k < n
                invariant
                    self.wf(),
                    n == self.n_variants,
                    row < self.n_rows,
                    k <= n,
                    tiles@.len() == row * n + k,
                    forall|r: int, j: int|
                        0 <= r < row && 0 <= j < n ==> #[trigger] tiles@[r * n + j] == (Tile {
                            row: r as usize,
                            variant: variant_of(j),
                        }),
                    forall|j: int|
                        0 <= j < k ==> #[trigger] tiles@[row * n + j] == (Tile {
                            row: row as usize,
                            variant: variant_of(j),
                        }),
                decreases n - k,
            {
                proof {
                    assert(row * n + k < self.n_rows * n) by (nonlinear_arith)
                        requires row < self.n_rows, k < n;
                }
                let ghost old_tiles = tiles@;
                tiles.push(Tile::new(row, self.variants[k]));
                proof {
                    assert forall|r: int, j: int| 0 <= r < row && 0 <= j < n implies #[trigger] tiles@[r * n + j] == (Tile {
                        row: r as usize,
                        variant: variant_of(j),
                    }) by {
                        lemma_index_below(r, j, row as int, n as int);
                        assert(tiles@[r * n + j] == old_tiles[r * n + j]);
                    }
                }
                k += 1;
            }
            proof {
                assert forall|r: int, j: int| 0 <= r <= row && 0 <= j < n implies #[trigger] tiles@[r * n + j] == (Tile {
                    row: r as usize,
                    variant: variant_of(j),
                }) by {
                    if r < row {
                    } else {
                        assert(tiles@[row * n + j] == tiles@[r * n + j]);
                    }
                }
                assert((row + 1) * n == row * n + n) by (nonlinear_arith);
            }
            row += 1;
        }
        tiles
    }
}

/// Generation is deterministic: two solutions generated for the same
/// difficulty and seed agree in size, seed and every cell of the grid.
pub proof fn lemma_generation_deterministic(difficulty: Difficulty, seed: u64, a: Solution, b: Solution)
    requires
        a.generated_by(difficulty, seed),
        b.generated_by(difficulty, seed),
    ensures
        a.n_rows == b.n_rows,
        a.n_variants == b.n_variants,
        a.seed == b.seed,
        a.variants@ == b.variants@,
        forall|row: int, col: int|
            0 <= row < MAX_GRID_SIZE && 0 <= col < MAX_GRID_SIZE ==> #[trigger] a.cell(row, col)
                == b.cell(row, col),
{
    assert forall|row: int, col: int|
        0 <= row < MAX_GRID_SIZE && 0 <= col < MAX_GRID_SIZE implies #[trigger] a.cell(row, col)
        == b.cell(row, col) by {
        assert(a.cell(row, col) == generated_cell(a.n_rows as nat, seed, row, col));
        assert(b.cell(row, col) == generated_cell(b.n_rows as nat, seed, row, col));
    }
}

/// Each row of a well-formed solution is a permutation of the value range:
/// it has one entry per position, every value occurs in it exactly once, and
/// every entry is one of the values.
pub proof fn lemma_row_is_permutation(s: Solution, row: int)
    requires
        s.wf(),
        0 <= row < s.n_rows,
    ensures
        s.row_values(row).len() == s.n_variants,
        forall|k: int|
            0 <= k < s.n_variants ==> #[trigger] s.row_values(row).to_multiset().count(variant_of(k))
                == 1,
        forall|col: int|
            0 <= col < s.n_variants ==> canonical_variants(s.n_variants as nat).contains(
                #[trigger] s.cell(row, col),
            ),
{
    let n = s.n_variants as nat;
    let canon = canonical_variants(n);
    let vals = s.row_values(row);
    assert(vals.to_multiset() == canon.to_multiset());
    vstd::seq_lib::to_multiset_len(vals);
    vstd::seq_lib::to_multiset_len(canon);
    assert(canon.no_duplicates()) by {
        assert forall|i: int, j: int| 0 <= i < canon.len() && 0 <= j < canon.len() && i != j implies canon[i] != canon[j] by {
            assert((canon[i] as u32) as int == 97 + i);
            assert((canon[j] as u32) as int == 97 + j);
        }
    }
    canon.lemma_multiset_has_no_duplicates();
    assert forall|k: int| 0 <= k < n implies #[trigger] vals.to_multiset().count(variant_of(k)) == 1 by {
        assert(canon[k] == variant_of(k));
        vstd::seq_lib::to_multiset_contains(canon, variant_of(k));
    }
    assert forall|col: int| 0 <= col < n implies canon.contains(#[trigger] s.cell(row, col)) by {
        assert(vals[col] == s.cell(row, col));
        vstd::seq_lib::to_multiset_contains(vals, s.cell(row, col));
        vstd::seq_lib::to_multiset_contains(canon, s.cell(row, col));
    }
}

proof fn lemma_index_below(r: int, j: int, row: int, n: int)
    requires
        0 <= r < row,
        0 <= j < n,
    ensures
        0 <= r * n + j < row * n,
{
    assert(0 <= r * n + j < row * n) by (nonlinear_arith)
        requires
            0 <= r < row,
            0 <= j < n,
    ;
}

/// The symbol of the value with index `i`.
pub(crate) fn variant_char(i: usize) -> (r: char)
    requires
        i < 26,
    ensures
        r == variant_of(i as int),
{
    let code: u8 = 97 + i as u8;
    code as char
}

/// The canonical values of a category with `n` values.
fn canonical_vec(n: usize) -> (r: Vec<char>)
    requires
        n <= 26,
    ensures
        r@ == canonical_variants(n as nat),
{
    let mut v: Vec<char> = Vec::new();
    let mut i: usize = 0;
    while i < n
        invariant
            i <= n <= 26,
            v@ == canonical_variants(i as nat),
        decreases n - i,
    {
        v.push(variant_char(i));
        i += 1;
        assert(v@ =~= canonical_variants(i as nat));
    }
    v
}

} // verus!
