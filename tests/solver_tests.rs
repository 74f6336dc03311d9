use puzzle_engine::clue::{Clue, ClueOrientation, MAX_HORIZ_CLUES, MAX_VERT_CLUES};
use puzzle_engine::generator::ClueGenerator;
use puzzle_engine::grid::CandidateGrid;
use puzzle_engine::solution::Solution;
use puzzle_engine::solver::{propagate, solve, SolveResult};
use puzzle_engine::tile::{Difficulty, Tile};

fn vidx(c: char) -> usize {
    (c as u8 - b'a') as usize
}

#[test]
fn tile_without_positions_is_a_contradiction() {
    let mut g = CandidateGrid::new(4);
    for pos in 0..4 {
        g.set_flag(2, 1, pos, false);
    }
    assert!(g.has_contradiction());
    let before = g.cells.clone();
    let out = solve(&vec![], &g);
    assert_eq!(out.result, SolveResult::Contradiction);
    assert_eq!(out.grid.cells, before);
    assert!(out.deductions.is_empty());
}

#[test]
fn position_without_values_is_a_contradiction() {
    let mut g = CandidateGrid::new(3);
    for v in 0..3 {
        g.set_flag(0, v, 2, false);
    }
    let clues = vec![Clue::OneOfPositions(Tile::new(1, 'a'), 0, 1)];
    assert_eq!(solve(&clues, &g).result, SolveResult::Contradiction);
}

#[test]
fn no_clues_on_full_grid_is_stuck() {
    let g = CandidateGrid::new(4);
    let out = solve(&vec![], &g);
    assert_eq!(out.result, SolveResult::Stuck);
    assert!(out.deductions.is_empty());
    assert!(propagate(&vec![], &g).is_empty());
}

#[test]
fn one_of_positions_eliminates_other_positions() {
    let g = CandidateGrid::new(4);
    let clues = vec![Clue::OneOfPositions(Tile::new(0, 'b'), 1, 3)];
    let ds = propagate(&clues, &g);
    assert_eq!(ds.len(), 2);
    assert_eq!((ds[0].row, ds[0].variant, ds[0].position), (0, 1, 0));
    assert_eq!((ds[1].row, ds[1].variant, ds[1].position), (0, 1, 2));
}

#[test]
fn left_of_rules_out_edges() {
    let g = CandidateGrid::new(3);
    let clues = vec![Clue::LeftOf(Tile::new(0, 'a'), Tile::new(1, 'a'))];
    let ds: Vec<(usize, usize, usize)> =
        propagate(&clues, &g).iter().map(|d| (d.row, d.variant, d.position)).collect();
    assert_eq!(ds, vec![(0, 0, 2), (1, 0, 0)]);
}

#[test]
fn same_position_and_bijection_solve_small_grid() {
    let g = CandidateGrid::new(2);
    let clues = vec![
        Clue::OneOfPositions(Tile::new(0, 'a'), 0, 0),
        Clue::SamePosition(Tile::new(0, 'a'), Tile::new(1, 'b')),
    ];
    let out = solve(&clues, &g);
    assert_eq!(out.result, SolveResult::Solved);
    assert!(out.grid.is_available(0, 0, 0));
    assert!(out.grid.is_available(0, 1, 1));
    assert!(out.grid.is_available(1, 1, 0));
    assert!(out.grid.is_available(1, 0, 1));
    assert!(!out.grid.is_available(1, 0, 0));
}

#[test]
fn different_position_uses_sole_position() {
    let mut g = CandidateGrid::new(3);
    g.set_flag(0, 0, 1, false);
    g.set_flag(0, 0, 2, false);
    let clues = vec![Clue::DifferentPosition(Tile::new(0, 'a'), Tile::new(1, 'c'))];
    let ds: Vec<(usize, usize, usize)> =
        propagate(&clues, &g).iter().map(|d| (d.row, d.variant, d.position)).collect();
    assert!(ds.contains(&(1, 2, 0)));
    assert!(ds.contains(&(0, 1, 0)));
}

#[test]
fn propagation_is_idempotent_at_fixpoint() {
    let s = Solution::from_seed(Difficulty::Easy, 42);
    let (set, _) = ClueGenerator::generate(&s).unwrap();
    let mut clues = set.all_clues();
    clues.truncate(clues.len() / 2);
    let out = solve(&clues, &CandidateGrid::new(4));
    if out.result == SolveResult::Stuck {
        assert!(propagate(&clues, &out.grid).is_empty());
        let again = solve(&clues, &out.grid);
        assert!(again.deductions.is_empty());
        assert_eq!(again.grid.cells, out.grid.cells);
        assert_eq!(again.result, SolveResult::Stuck);
    }
    let stuck = solve(&vec![], &CandidateGrid::new(4));
    assert!(propagate(&vec![], &stuck.grid).is_empty());
}

#[test]
fn generated_clues_solve_to_the_solution() {
    let s = Solution::from_seed(Difficulty::Easy, 42);
    let (set, solved) = ClueGenerator::generate(&s).expect("a clue set");
    assert!(set.horizontal_clues.len() + set.vertical_clues.len() <= MAX_HORIZ_CLUES + MAX_VERT_CLUES);
    assert!(set.horizontal_clues.iter().all(|c| c.orientation == ClueOrientation::Horizontal));
    assert!(set.vertical_clues.iter().all(|c| c.orientation == ClueOrientation::Vertical));
    let out = solve(&set.all_clues(), &CandidateGrid::new(4));
    assert_eq!(out.result, SolveResult::Solved);
    assert_eq!(out.grid.cells, solved.cells);
    for row in 0..4 {
        for col in 0..4 {
            let v = vidx(s.grid[row][col]);
            for pos in 0..4 {
                assert_eq!(out.grid.is_available(row, v, pos), pos == col);
            }
        }
    }
}

#[test]
fn generated_clues_solve_for_every_size() {
    for d in [Difficulty::Moderate, Difficulty::Hard] {
        let s = Solution::from_seed(d, 5);
        let (set, _) = ClueGenerator::generate(&s).expect("a clue set");
        let n = d.n_rows();
        let out = solve(&set.all_clues(), &CandidateGrid::new(n));
        assert_eq!(out.result, SolveResult::Solved);
        for row in 0..n {
            for col in 0..n {
                assert!(out.grid.is_available(row, vidx(s.grid[row][col]), col));
            }
        }
    }
}

#[test]
fn generation_is_repeatable_for_a_seed() {
    let s = Solution::from_seed(Difficulty::Easy, 9);
    let (a, _) = ClueGenerator::generate(&s).unwrap();
    let (b, _) = ClueGenerator::generate(&s).unwrap();
    assert_eq!(a.all_clues(), b.all_clues());
}

#[test]
fn minimized_clue_set_is_irreducible() {
    let s = Solution::from_seed(Difficulty::Easy, 42);
    let (set, _) = ClueGenerator::generate(&s).unwrap();
    let all = set.all_clues();
    for skip in 0..all.len() {
        let fewer: Vec<Clue> =
            all.iter().enumerate().filter(|(i, _)| *i != skip).map(|(_, c)| *c).collect();
        let out = solve(&fewer, &CandidateGrid::new(4));
        assert_ne!(out.result, SolveResult::Solved, "clue {} is redundant", skip);
    }
}

#[test]
fn attempt_with_no_order_gives_nothing() {
    let s = Solution::from_seed(Difficulty::Easy, 42);
    let cands = ClueGenerator::candidates(&s);
    assert!(ClueGenerator::attempt(&s, &cands, &vec![]).is_none());
    let out_of_range: Vec<usize> = vec![cands.len(), cands.len() + 5];
    assert!(ClueGenerator::attempt(&s, &cands, &out_of_range).is_none());
}

#[test]
fn attempt_in_candidate_order_solves() {
    let s = Solution::from_seed(Difficulty::Easy, 42);
    let cands = ClueGenerator::candidates(&s);
    assert!(cands.iter().all(|c| c.clue.holds(&s)));
    let order: Vec<usize> = (0..cands.len()).collect();
    let (set, g) = ClueGenerator::attempt(&s, &cands, &order).expect("a clue set");
    let out = solve(&set.all_clues(), &CandidateGrid::new(4));
    assert_eq!(out.result, SolveResult::Solved);
    assert_eq!(out.grid.cells, g.cells);
}

#[test]
fn candidates_cover_every_tile_and_pair() {
    let s = Solution::from_seed(Difficulty::Easy, 42);
    let cands = ClueGenerator::candidates(&s);
    let one_of = cands.iter().filter(|c| matches!(c.clue, Clue::OneOfPositions(..))).count();
    let same_or_diff = cands
        .iter()
        .filter(|c| matches!(c.clue, Clue::SamePosition(..) | Clue::DifferentPosition(..)))
        .count();
    assert_eq!(one_of, 16);
    assert_eq!(same_or_diff, 6 * 16);
    assert_eq!(cands[0].clue, Clue::OneOfPositions(Tile::new(0, 'a'), 1, 2));
}
