use puzzle_engine::events::{GameStateEvent, PuzzleCompletionState, TimerState};
use puzzle_engine::solution::Solution;
use puzzle_engine::text::format_duration;
use puzzle_engine::tile::Difficulty;

#[test]
fn grid_string_of_easy_seed_42() {
    let s = Solution::from_seed(Difficulty::Easy, 42);
    let rule = "-".repeat(10);
    let expected = format!(
        "0|B|A|D|C|\n{r}\n1|A|D|B|C|\n{r}\n2|D|A|B|C|\n{r}\n3|C|B|A|D|\n{r}\n",
        r = rule
    );
    assert_eq!(s.to_grid_string(), expected);
    assert_eq!(Solution::default().to_grid_string(), "");
}

#[test]
fn durations_under_an_hour() {
    assert_eq!(format_duration(0), "00:00");
    assert_eq!(format_duration(59), "00:59");
    assert_eq!(format_duration(61), "01:01");
    assert_eq!(format_duration(3599), "59:59");
}

#[test]
fn durations_of_hours() {
    assert_eq!(format_duration(3600), "01:00:00");
    assert_eq!(format_duration(3661), "01:01:01");
    assert_eq!(format_duration(360000), "100:00:00");
}

#[test]
fn events_carry_their_values() {
    let e = GameStateEvent::HistoryChanged { history_index: 2, history_length: 5 };
    match e {
        GameStateEvent::HistoryChanged { history_index, history_length } => {
            assert_eq!((history_index, history_length), (2, 5));
        }
        _ => panic!("wrong event"),
    }
    let t = GameStateEvent::TimerStateChanged(TimerState { elapsed_secs: 3, paused: true });
    assert!(matches!(t, GameStateEvent::TimerStateChanged(TimerState { paused: true, .. })));
    let done = GameStateEvent::PuzzleCompleted(PuzzleCompletionState::Incorrect);
    assert!(matches!(done, GameStateEvent::PuzzleCompleted(PuzzleCompletionState::Incorrect)));
}
