use std::time::Duration;

use thunder_book_game_search::game::alternate::{AlternateGameState, WinningStatus};
use thunder_book_game_search::games::alternate_maze::{Action, AlternateMazeState};
use thunder_book_game_search::search::alternate::alpha_beta::{alpha_beta_action, AlphaBeta};
use thunder_book_game_search::search::alternate::iterative_deepening_alpha_beta::iterative_deepening_action;
use thunder_book_game_search::search::alternate::mcts::mcts_action;
use thunder_book_game_search::search::alternate::mini_max::mini_max_action;
use thunder_book_game_search::search::alternate::primitive_montecarlo::primitive_montecarlo_action;
use thunder_book_game_search::search::alternate::random::random_action;
use thunder_book_game_search::search::alternate::thunder::thunder_action;
use thunder_book_game_search::search::alternate::ChooseAction;
use thunder_book_game_search::TimeKeeper;

fn board(rows: &[&[u8]]) -> Vec<Vec<u8>> {
    rows.iter().map(|r| r.to_vec()).collect()
}

fn sample_boards() -> Vec<Vec<Vec<u8>>> {
    vec![
        board(&[&[1, 0, 3], &[4, 5, 6], &[7, 8, 9]]),
        board(&[&[9, 1, 1], &[2, 0, 2], &[3, 3, 0]]),
        board(&[&[0, 7, 0, 2], &[5, 0, 1, 8], &[2, 2, 2, 2]]),
        board(&[&[4, 4, 4], &[1, 9, 1], &[0, 5, 0]]),
    ]
}

/// Alpha-beta selects the same action as full minimax at every depth:
/// pruning changes the node count, never the chosen action.
#[test]
fn alpha_beta_matches_mini_max() {
    for points in sample_boards() {
        for depth in 1..5u32 {
            let state = AlternateMazeState::new(points.clone(), 4);
            let expected = mini_max_action(&state, depth);
            let time_keeper = TimeKeeper::new(Duration::from_secs(5));
            let got = alpha_beta_action(&state, depth, &time_keeper);
            assert!(expected.is_some());
            assert_eq!(expected, got);
        }
    }
}

/// Iterative deepening with a generous deadline matches the deep
/// alpha-beta answer.
#[test]
fn iterative_deepening_matches_deep_alpha_beta() {
    for points in sample_boards() {
        let state = AlternateMazeState::new(points, 4);
        let time_keeper = TimeKeeper::new(Duration::from_secs(5));
        let deep = alpha_beta_action(&state, 8, &time_keeper).unwrap();
        let got = iterative_deepening_action(&state, Duration::from_millis(100)).unwrap();
        assert_eq!(deep, got);
    }
}

/// A deadline that fires at once is a reported misconfiguration, not an
/// arbitrary action.
#[test]
fn iterative_deepening_zero_deadline_reports_none() {
    let state = AlternateMazeState::new(board(&[&[1, 0, 3], &[4, 5, 6], &[7, 8, 9]]), 4);
    assert_eq!(iterative_deepening_action(&state, Duration::from_secs(0)), None);
}

/// Depth zero admits no choice.
#[test]
fn mini_max_depth_zero_is_none() {
    let state = AlternateMazeState::new(board(&[&[1, 0, 3], &[4, 5, 6], &[7, 8, 9]]), 4);
    assert_eq!(mini_max_action(&state, 0), None);
}

/// The mover sits at (1, 0) of a 3x3 board where only the upper neighbor
/// holds points; every strategy with lookahead must take it.
fn nine_up_state() -> AlternateMazeState {
    // The mover starts at (1, 0), the opponent at (1, 2); (0, 0) holds 9.
    AlternateMazeState::new(board(&[&[9, 0, 0], &[0, 0, 0], &[0, 0, 0]]), 1)
}

#[test]
fn alpha_beta_takes_the_nine() {
    let state = nine_up_state();
    let time_keeper = TimeKeeper::new(Duration::from_secs(5));
    assert_eq!(alpha_beta_action(&state, 1, &time_keeper), Some(Action::Up));
    assert_eq!(alpha_beta_action(&state, 3, &time_keeper), Some(Action::Up));
}

#[test]
fn mcts_takes_the_nine() {
    let state = nine_up_state();
    assert_eq!(mcts_action(&state, 300), Some(Action::Up));
}

#[test]
fn thunder_takes_the_nine() {
    let state = nine_up_state();
    assert_eq!(thunder_action(&state, 300), Some(Action::Up));
}

#[test]
fn primitive_montecarlo_takes_the_nine() {
    let state = nine_up_state();
    assert_eq!(primitive_montecarlo_action(&state, 90), Some(Action::Up));
}

/// The random strategy always returns a legal action.
#[test]
fn random_action_is_legal() {
    let state = AlternateMazeState::new(board(&[&[1, 0, 3], &[4, 5, 6], &[7, 8, 9]]), 4);
    let legal = state.legal_actions();
    for _ in 0..50 {
        let action = random_action(&state).unwrap();
        assert!(legal.contains(&action));
    }
}

/// The strategy objects pick legal actions through the common interface.
#[test]
fn strategy_objects_pick_legal_actions() {
    let state = AlternateMazeState::new(board(&[&[0, 7, 0, 2], &[5, 0, 1, 8], &[2, 2, 2, 2]]), 4);
    let legal = state.legal_actions();
    let alpha_beta = AlphaBeta::new(3, Duration::from_secs(1));
    let action = alpha_beta.choose_action(&state).unwrap();
    assert!(legal.contains(&action));
}

/// Playing a full game through `advance` ends with a consistent outcome.
#[test]
fn full_game_reaches_a_status() {
    let mut state = AlternateMazeState::new(board(&[&[1, 0, 3], &[4, 5, 6], &[7, 8, 9]]), 4);
    let mut turns = 0;
    while state.winning_status().is_none() {
        let action = mini_max_action(&state, 2).unwrap();
        state.advance(action);
        turns += 1;
        assert!(turns <= 4);
    }
    assert_eq!(turns, 4);
    let status = state.winning_status().unwrap();
    assert!(matches!(
        status,
        WinningStatus::Win | WinningStatus::Draw | WinningStatus::Lose
    ));
}

/// On a board with exactly one legal action the random strategy has no
/// choice at all.
#[test]
fn alternate_random_single_action_is_forced() {
    // A 1 x 3 corridor: the mover at (0, 0) can only go right.
    let state = AlternateMazeState::new(board(&[&[0, 0, 0]]), 1);
    let legal = state.legal_actions();
    assert_eq!(legal, vec![Action::Right]);
    for _ in 0..20 {
        assert_eq!(random_action(&state), Some(Action::Right));
    }
}
