use puzzle_engine::candidate::{Candidate, CandidateState};
use puzzle_engine::solution::Solution;
use puzzle_engine::tile::{Difficulty, Tile, MAX_GRID_SIZE};

fn rows_of(s: &Solution) -> Vec<String> {
    (0..s.n_rows)
        .map(|r| s.grid[r][..s.n_variants].iter().collect::<String>())
        .collect()
}

#[test]
fn candidate_new_is_available() {
    let c = Candidate::new(Tile::new(2, 'c'));
    assert_eq!(c.tile, Tile::new(2, 'c'));
    assert_eq!(c.state, CandidateState::Available);
}

#[test]
fn candidate_from_bool_sets_state() {
    let a = Candidate::from_bool(1, 'b', true);
    let e = Candidate::from_bool(1, 'b', false);
    assert_eq!(a.state, CandidateState::Available);
    assert_eq!(e.state, CandidateState::Eliminated);
    assert_eq!(e.tile, Tile::new(1, 'b'));
}

#[test]
fn variants_range_covers_letters() {
    assert_eq!(Solution::variants_range(4), 'a'..='d');
    assert_eq!(Solution::variants_range(1), 'a'..='a');
    assert_eq!(Solution::variants_range(8), 'a'..='h');
}

#[test]
fn default_solution_is_empty_placeholder() {
    let s = Solution::default();
    assert_eq!(s.n_rows, 0);
    assert_eq!(s.n_variants, 0);
    assert!(s.variants.is_empty());
    assert_eq!(s.variants_range, 'a'..='a');
    assert_eq!(s.seed, 0);
    assert_eq!(s.grid, [['a'; MAX_GRID_SIZE]; MAX_GRID_SIZE]);
}

#[test]
fn generation_is_deterministic() {
    for d in [Difficulty::Easy, Difficulty::Moderate, Difficulty::Hard, Difficulty::Veteran] {
        for seed in [0u64, 1, 42, u64::MAX] {
            let a = Solution::from_seed(d, seed);
            let b = Solution::from_seed(d, seed);
            assert_eq!(a.grid, b.grid);
            assert_eq!(a.seed, seed);
            assert_eq!(a.n_rows, d.n_rows());
        }
    }
}

#[test]
fn new_with_seed_matches_from_seed() {
    let a = Solution::new(Difficulty::Hard, Some(11)).unwrap();
    let b = Solution::from_seed(Difficulty::Hard, 11);
    assert_eq!(a.grid, b.grid);
    assert_eq!(a.seed, 11);
    assert_eq!(a.n_rows, 6);
    assert_eq!(a.variants_range, Solution::variants_range(6));
    assert_eq!(a.variants, ('a'..='f').collect::<Vec<char>>());
}

#[test]
fn different_seeds_give_different_grids() {
    let a = Solution::from_seed(Difficulty::Veteran, 1);
    let b = Solution::from_seed(Difficulty::Veteran, 2);
    assert_ne!(a.grid, b.grid);
}

#[test]
fn generated_rows_are_permutations() {
    for seed in 0u64..20 {
        let s = Solution::from_seed(Difficulty::Hard, seed);
        for row in 0..s.n_rows {
            let mut vals: Vec<char> = s.grid[row][..s.n_variants].to_vec();
            vals.sort();
            assert_eq!(vals, s.variants);
        }
        for row in 0..MAX_GRID_SIZE {
            for col in 0..MAX_GRID_SIZE {
                if row >= s.n_rows || col >= s.n_variants {
                    assert_eq!(s.grid[row][col], 'a');
                }
            }
        }
    }
}

#[test]
fn seed_is_drawn_and_kept_when_absent() {
    let s = Solution::new(Difficulty::Easy, None).unwrap();
    assert_eq!(s.n_rows, 4);
    let again = Solution::from_seed(Difficulty::Easy, s.seed);
    assert_eq!(s.grid, again.grid);
}

#[test]
fn golden_grid_easy_seed_42() {
    let s = Solution::from_seed(Difficulty::Easy, 42);
    assert_eq!(rows_of(&s), vec!["badc", "adbc", "dabc", "cbad"]);
}

#[test]
fn get_and_find_tile_agree() {
    let s = Solution::from_seed(Difficulty::Moderate, 7);
    for row in 0..s.n_rows {
        for col in 0..s.n_variants {
            let t = s.get(row, col);
            assert_eq!(t.row, row);
            assert_eq!(s.find_tile(t), (row, col));
        }
    }
}

#[test]
fn all_tiles_lists_rows_in_order() {
    let s = Solution::from_seed(Difficulty::Easy, 3);
    let tiles = s.all_tiles();
    assert_eq!(tiles.len(), 16);
    assert_eq!(tiles[0], Tile::new(0, 'a'));
    assert_eq!(tiles[5], Tile::new(1, 'b'));
    assert_eq!(tiles[15], Tile::new(3, 'd'));
    assert!(Solution::default().all_tiles().is_empty());
}
