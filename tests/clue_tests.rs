use puzzle_engine::clue::Clue;
use puzzle_engine::generator::ClueGenerator;
use puzzle_engine::grid::CandidateGrid;
use puzzle_engine::solution::Solution;
use puzzle_engine::tile::{Difficulty, Tile};

fn easy_42() -> Solution {
    Solution::from_seed(Difficulty::Easy, 42)
}

#[test]
fn same_and_different_position_hold_by_solution() {
    let s = easy_42();
    let a = Tile::new(0, 'b');
    let b = Tile::new(1, 'a');
    assert!(Clue::SamePosition(a, b).holds(&s));
    assert!(!Clue::DifferentPosition(a, b).holds(&s));
    let c = Tile::new(2, 'c');
    assert!(!Clue::SamePosition(a, c).holds(&s));
    assert!(Clue::DifferentPosition(a, c).holds(&s));
}

#[test]
fn left_of_and_one_of_hold_by_solution() {
    let s = easy_42();
    assert!(Clue::LeftOf(Tile::new(0, 'a'), Tile::new(1, 'c')).holds(&s));
    assert!(!Clue::LeftOf(Tile::new(1, 'c'), Tile::new(0, 'a')).holds(&s));
    assert!(Clue::OneOfPositions(Tile::new(0, 'd'), 2, 0).holds(&s));
    assert!(!Clue::OneOfPositions(Tile::new(0, 'd'), 0, 1).holds(&s));
}

#[test]
fn clues_outside_the_puzzle_do_not_hold() {
    let s = easy_42();
    assert!(!Clue::OneOfPositions(Tile::new(9, 'a'), 0, 1).holds(&s));
    assert!(!Clue::SamePosition(Tile::new(0, 'z'), Tile::new(1, 'a')).holds(&s));
}

#[test]
fn generated_clues_all_hold() {
    let s = easy_42();
    let (set, _) = ClueGenerator::generate(&s).unwrap();
    assert!(set.all_clues().iter().all(|c| c.holds(&s)));
    assert_eq!(set.len(), set.all_clues().len());
}

#[test]
fn single_clue_propagation() {
    let g = CandidateGrid::new(3);
    let ds: Vec<(usize, usize, usize)> = Clue::LeftOf(Tile::new(0, 'a'), Tile::new(1, 'a'))
        .propagate(&g)
        .iter()
        .map(|d| (d.row, d.variant, d.position))
        .collect();
    assert_eq!(ds, vec![(0, 0, 2), (1, 0, 0)]);
    let mut h = CandidateGrid::new(3);
    h.set_flag(1, 2, 1, false);
    let same: Vec<(usize, usize, usize)> = Clue::SamePosition(Tile::new(0, 'a'), Tile::new(1, 'c'))
        .propagate(&h)
        .iter()
        .map(|d| (d.row, d.variant, d.position))
        .collect();
    assert_eq!(same, vec![(0, 0, 1)]);
}
