use puzzle_engine::board::{BoardState, MoveError};
use puzzle_engine::tile::Tile;

#[test]
fn eliminate_then_undo_restores_grid() {
    let mut b = BoardState::new(4);
    let before = b.grid.cells.clone();
    assert_eq!(b.eliminate(Tile::new(1, 'c'), 2), Ok((1, 2)));
    let after = b.grid.cells.clone();
    assert_ne!(before, after);
    assert!(!b.grid.is_available(1, 2, 2));
    assert_eq!(b.undo(), (0, 2));
    assert_eq!(b.grid.cells, before);
    assert_eq!(b.redo(), (1, 2));
    assert_eq!(b.grid.cells, after);
}

#[test]
fn undo_and_redo_at_ends_change_nothing() {
    let mut b = BoardState::new(3);
    let start = b.grid.cells.clone();
    assert_eq!(b.undo(), (0, 1));
    assert_eq!(b.redo(), (0, 1));
    assert_eq!(b.grid.cells, start);
}

#[test]
fn new_move_after_undo_truncates_redo() {
    let mut b = BoardState::new(4);
    b.eliminate(Tile::new(0, 'a'), 0).unwrap();
    b.eliminate(Tile::new(0, 'a'), 1).unwrap();
    assert_eq!(b.history_position(), (2, 3));
    b.undo();
    assert_eq!(b.eliminate(Tile::new(2, 'b'), 3), Ok((2, 3)));
    assert_eq!(b.redo(), (2, 3));
    assert!(b.grid.is_available(0, 0, 1));
    assert!(!b.grid.is_available(2, 1, 3));
}

#[test]
fn eliminating_last_position_of_tile_is_refused() {
    let mut b = BoardState::new(4);
    for pos in 0..3 {
        assert!(b.eliminate(Tile::new(3, 'd'), pos).is_ok());
    }
    let snapshot = b.grid.cells.clone();
    assert_eq!(b.eliminate(Tile::new(3, 'd'), 3), Err(MoveError::InvalidMove));
    assert_eq!(b.grid.cells, snapshot);
    assert_eq!(b.history_position(), (3, 4));
}

#[test]
fn eliminating_last_value_of_position_is_refused() {
    let mut b = BoardState::new(3);
    b.eliminate(Tile::new(0, 'a'), 1).unwrap();
    b.eliminate(Tile::new(0, 'b'), 1).unwrap();
    assert_eq!(b.eliminate(Tile::new(0, 'c'), 1), Err(MoveError::InvalidMove));
}

#[test]
fn eliminating_twice_is_refused() {
    let mut b = BoardState::new(4);
    assert_eq!(b.eliminate(Tile::new(1, 'a'), 0), Ok((1, 2)));
    let snapshot = b.grid.cells.clone();
    assert_eq!(b.eliminate(Tile::new(1, 'a'), 0), Err(MoveError::InvalidMove));
    assert_eq!(b.grid.cells, snapshot);
    assert_eq!(b.history_position(), (1, 2));
    assert_eq!(b.undo(), (0, 2));
    assert!(b.grid.cells.iter().all(|c| *c));
}

#[test]
fn out_of_range_moves_are_refused() {
    let mut b = BoardState::new(4);
    assert_eq!(b.eliminate(Tile::new(4, 'a'), 0), Err(MoveError::OutOfRange));
    assert_eq!(b.eliminate(Tile::new(0, 'e'), 0), Err(MoveError::OutOfRange));
    assert_eq!(b.eliminate(Tile::new(0, 'A'), 0), Err(MoveError::OutOfRange));
    assert_eq!(b.eliminate(Tile::new(0, 'a'), 4), Err(MoveError::OutOfRange));
    assert_eq!(b.history_position(), (0, 1));
}

use puzzle_engine::board::Hint;
use puzzle_engine::clue::Clue;
use puzzle_engine::events::{GameStats, PuzzleCompletionState};
use puzzle_engine::generator::ClueGenerator;
use puzzle_engine::solution::Solution;
use puzzle_engine::tile::Difficulty;

fn stats() -> GameStats {
    GameStats { completion_time_secs: 95, hints_used: 1, grid_size: 4, difficulty: Difficulty::Easy }
}

#[test]
fn place_clears_row_and_column() {
    let mut b = BoardState::new(3);
    assert_eq!(b.place(Tile::new(0, 'b'), 2), Ok((1, 2)));
    for pos in 0..3 {
        assert_eq!(b.grid.is_available(0, 1, pos), pos == 2);
    }
    assert!(!b.grid.is_available(0, 0, 2));
    assert!(!b.grid.is_available(0, 2, 2));
    assert!(b.grid.is_available(0, 0, 0));
    assert!(b.grid.is_available(1, 0, 2));
    b.undo();
    assert!(b.grid.cells.iter().all(|c| *c));
}

#[test]
fn place_on_eliminated_candidate_is_refused() {
    let mut b = BoardState::new(3);
    b.eliminate(Tile::new(2, 'a'), 1).unwrap();
    assert_eq!(b.place(Tile::new(2, 'a'), 1), Err(MoveError::InvalidMove));
    assert_eq!(b.place(Tile::new(3, 'a'), 1), Err(MoveError::OutOfRange));
}

#[test]
fn place_that_empties_a_tile_is_refused() {
    let mut b = BoardState::new(3);
    b.eliminate(Tile::new(0, 'c'), 1).unwrap();
    b.eliminate(Tile::new(0, 'c'), 2).unwrap();
    let snapshot = b.grid.cells.clone();
    assert_eq!(b.place(Tile::new(0, 'a'), 0), Err(MoveError::InvalidMove));
    assert_eq!(b.grid.cells, snapshot);
    assert_eq!(b.history_position(), (2, 3));
}

#[test]
fn completion_follows_the_solution() {
    let s = Solution::from_seed(Difficulty::Easy, 42);
    let mut b = BoardState::new(4);
    assert_eq!(b.check_completion(&s, stats()), PuzzleCompletionState::Incomplete);
    for row in 0..4 {
        for col in 0..4 {
            b.place(Tile::new(row, s.grid[row][col]), col).unwrap();
        }
    }
    assert_eq!(b.check_completion(&s, stats()), PuzzleCompletionState::Correct(stats()));
}

#[test]
fn wrong_resolution_is_incorrect() {
    let s = Solution::from_seed(Difficulty::Easy, 42);
    let mut b = BoardState::new(4);
    for row in 0..4 {
        for col in 0..4 {
            let placed_col = if row == 0 { 3 - col } else { col };
            b.place(Tile::new(row, s.grid[row][col]), placed_col).unwrap();
        }
    }
    assert_eq!(b.check_completion(&s, stats()), PuzzleCompletionState::Incorrect);
}

#[test]
fn hint_gives_a_sound_elimination() {
    let s = Solution::from_seed(Difficulty::Easy, 42);
    let (set, _) = ClueGenerator::generate(&s).unwrap();
    let clues = set.all_clues();
    let mut b = BoardState::new(4);
    match b.hint(&clues) {
        Hint::Next(d, why) => {
            assert!(b.grid.is_available(d.row, d.variant, d.position));
            let at = s.grid[d.row][d.position];
            assert_ne!((at as u8 - b'a') as usize, d.variant);
            if let Some(i) = why {
                assert!(clues[i].rules_out(&b.grid, d.row, d.variant, d.position));
            }
        }
        other => panic!("expected a hint, got {:?}", other),
    }
    assert_eq!(b.hints_used, 1);
}

#[test]
fn hint_reports_incorrect_board() {
    let mut b = BoardState::new(2);
    b.eliminate(Tile::new(0, 'a'), 0).unwrap();
    let clues = vec![Clue::OneOfPositions(Tile::new(0, 'a'), 0, 0)];
    assert_eq!(b.hint(&clues), Hint::IncorrectBoard);
    assert_eq!(b.hints_used, 0);
}

#[test]
fn hint_without_clues_finds_nothing() {
    let mut b = BoardState::new(4);
    assert_eq!(b.hint(&vec![]), Hint::NothingLeft);
    assert_eq!(b.hints_used, 0);
}

#[test]
fn rewind_returns_to_last_board_that_admits_the_solution() {
    let s = Solution::from_seed(Difficulty::Easy, 42);
    let mut b = BoardState::new(4);
    let wrong_pos = (0..4).find(|&p| s.grid[0][p] != 'a').unwrap();
    let right_pos = (0..4).find(|&p| s.grid[0][p] == 'a').unwrap();
    let other_wrong = (0..4).find(|&p| p != wrong_pos && p != right_pos).unwrap();
    b.eliminate(Tile::new(0, 'a'), wrong_pos).unwrap();
    let good = b.grid.cells.clone();
    b.eliminate(Tile::new(0, 'a'), right_pos).unwrap();
    b.eliminate(Tile::new(0, 'a'), other_wrong).unwrap();
    assert_eq!(b.history_position(), (3, 4));
    assert_eq!(b.rewind_to_last_good(&s), (1, 4));
    assert_eq!(b.grid.cells, good);
    assert_eq!(b.rewind_to_last_good(&s), (1, 4));
}
