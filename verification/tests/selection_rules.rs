use std::time::Duration;

use thunder_book_game_search::game::alternate::AlternateGameState;
use thunder_book_game_search::games::alternate_maze::AlternateMazeState;
use thunder_book_game_search::search::alternate::mcts::mcts_deadline_action;
use thunder_book_game_search::search::alternate::primitive_montecarlo::{
    montecarlo_pick, primitive_montecarlo_deadline_action,
};
use thunder_book_game_search::search::alternate::thunder::thunder_deadline_action;
use thunder_book_game_search::search::heuristic::simulated_annealing::temperature_at;

fn board(rows: &[&[u8]]) -> Vec<Vec<u8>> {
    rows.iter().map(|r| r.to_vec()).collect()
}

/// Mean ties keep the first maximum; a strictly larger mean wins
/// regardless of position; never-played slots outrank played ones.
#[test]
fn montecarlo_pick_prefers_first_maximum() {
    // Equal means everywhere: the first slot stays.
    assert_eq!(montecarlo_pick(&vec![2, 2, 2], &vec![2, 2, 2]), 0);
    // Equal means through different counts: 1/1 == 2/2.
    assert_eq!(montecarlo_pick(&vec![1, 2], &vec![1, 2]), 0);
    // A strictly larger mean later on wins.
    assert_eq!(montecarlo_pick(&vec![1, 3], &vec![2, 2]), 1);
    // A never-played slot outranks every played one; the first such slot
    // stays.
    assert_eq!(montecarlo_pick(&vec![5, 0, 0], &vec![1, 0, 0]), 1);
}

/// The schedule starts at the start temperature and ends exactly at the
/// end temperature on the last iteration.
#[test]
fn temperature_schedule_hits_both_ends() {
    assert_eq!(temperature_at(1000000, 0, 0, 10), 1000000);
    assert_eq!(temperature_at(1000000, 0, 9, 10), 0);
    assert_eq!(temperature_at(0, 1000000, 9, 10), 1000000);
    assert_eq!(temperature_at(500, 500, 3, 7), 500);
    // A single-iteration run stays at the start temperature.
    assert_eq!(temperature_at(123, 456, 0, 1), 123);
}

/// The deadline only bounds the work: even one that fires at once still
/// yields a legal action from every sampling strategy.
#[test]
fn deadline_strategies_always_answer() {
    let state = AlternateMazeState::new(board(&[&[1, 0, 3], &[4, 5, 6], &[7, 8, 9]]), 4);
    let legal = state.legal_actions();
    let zero = Duration::from_secs(0);
    assert!(legal.contains(&mcts_deadline_action(&state, zero).unwrap()));
    assert!(legal.contains(&thunder_deadline_action(&state, zero).unwrap()));
    assert!(legal.contains(&primitive_montecarlo_deadline_action(&state, zero).unwrap()));
}
