use std::time::Duration;

use thunder_book_game_search::game::one_player::OnePlayerGameState;
use thunder_book_game_search::games::one_player_maze::{Action, MazeState};
use thunder_book_game_search::search::one_player::beam::{beam_search_action, Beam};
use thunder_book_game_search::search::one_player::chokudai::chokudai_search_action;
use thunder_book_game_search::search::one_player::greedy::greedy_action;
use thunder_book_game_search::search::one_player::random::random_action;
use thunder_book_game_search::search::one_player::scored_pool::{ScoredPool, Tagged};
use thunder_book_game_search::search::one_player::ChooseAction;

fn board(rows: &[&[u8]]) -> Vec<Vec<u8>> {
    rows.iter().map(|r| r.to_vec()).collect()
}

/// All cumulative scores distinct: the greedy move is Down (7 points).
fn no_tie_state() -> MazeState {
    MazeState::new(board(&[&[1, 2, 3], &[4, 0, 5], &[6, 7, 8]]), 1, 1, 2)
}

#[test]
fn greedy_picks_the_best_neighbor() {
    let state = no_tie_state();
    assert_eq!(greedy_action(&state), Some(Action::Down));
}

/// Greedy ties favor the action seen later in right, left, down, up
/// order.
#[test]
fn greedy_ties_favor_the_later_action() {
    let state = MazeState::new(board(&[&[0, 5, 0], &[5, 0, 5], &[0, 5, 0]]), 1, 1, 2);
    assert_eq!(greedy_action(&state), Some(Action::Up));
}

/// A beam of width one follows the greedy path, so on an instance with
/// no score ties it yields the same action as greedy.
#[test]
fn beam_width_one_matches_greedy() {
    let state = no_tie_state();
    let greedy = greedy_action(&state).unwrap();
    let beam = beam_search_action(&state, 1, Duration::from_millis(200)).unwrap();
    assert_eq!(beam, greedy);
}

/// Every action returned by beam search is legal in the initial state.
#[test]
fn beam_action_is_legal() {
    let state = MazeState::new(board(&[&[1, 2, 3], &[4, 0, 5], &[6, 7, 8]]), 0, 0, 3);
    let legal = state.legal_actions();
    for width in 1..4usize {
        let action = beam_search_action(&state, width, Duration::from_millis(100)).unwrap();
        assert!(legal.contains(&action));
    }
}

/// Every action returned by chokudai search is legal in the initial
/// state, and on the no-tie instance it finds the same answer as greedy.
#[test]
fn chokudai_action_is_legal_and_matches() {
    let state = no_tie_state();
    let legal = state.legal_actions();
    let action = chokudai_search_action(&state, 1, 2, Duration::from_millis(50)).unwrap();
    assert!(legal.contains(&action));
    assert_eq!(action, Action::Down);
}

/// A state with exactly one legal action is answered deterministically,
/// whatever the random source draws.
#[test]
fn random_single_action_is_forced() {
    // A 2 x 1 corridor: from the top cell the only move is Down.
    let state = MazeState::new(board(&[&[0], &[9]]), 0, 0, 1);
    assert_eq!(state.legal_actions(), vec![Action::Down]);
    for _ in 0..20 {
        assert_eq!(random_action(&state), Some(Action::Down));
    }
}

/// The strategy objects pick legal actions through the common interface.
#[test]
fn beam_object_picks_legal_action() {
    let state = MazeState::new(board(&[&[1, 2, 3], &[4, 0, 5], &[6, 7, 8]]), 1, 1, 2);
    let legal = state.legal_actions();
    let beam = Beam::new(2, Duration::from_millis(100));
    let action = beam.choose_action(&state).unwrap();
    assert!(legal.contains(&action));
}

/// The frontier pool pops the first entry holding the maximal score.
#[test]
fn scored_pool_pops_first_maximum() {
    let mut pool: ScoredPool<u32, u8> = ScoredPool::new();
    pool.push(Tagged { score: 3, state: 10, first: Some(1) });
    pool.push(Tagged { score: 7, state: 20, first: Some(2) });
    pool.push(Tagged { score: 7, state: 30, first: Some(3) });
    pool.push(Tagged { score: 5, state: 40, first: Some(4) });
    assert_eq!(pool.len(), 4);
    let top = pool.pop_best().unwrap();
    assert_eq!(top.score, 7);
    assert_eq!(top.state, 20);
    assert_eq!(top.first, Some(2));
    let next = pool.pop_best().unwrap();
    assert_eq!(next.score, 7);
    assert_eq!(next.state, 30);
    assert_eq!(pool.pop_best().unwrap().score, 5);
    assert_eq!(pool.pop_best().unwrap().score, 3);
    assert!(pool.pop_best().is_none());
}

/// Advancing collects and clears the entered cell.
#[test]
fn maze_advance_collects_points() {
    let mut state = MazeState::new(board(&[&[1, 2, 3], &[4, 0, 5], &[6, 7, 8]]), 1, 1, 2);
    assert_eq!(state.evaluate_score(), 0);
    assert!(!state.done());
    state.advance(Action::Down);
    assert_eq!(state.evaluate_score(), 7);
    state.advance(Action::Right);
    assert_eq!(state.evaluate_score(), 15);
    assert!(state.done());
}

/// Cloning a state and advancing the clone never mutates the original.
#[test]
fn duplicate_is_independent() {
    let state = MazeState::new(board(&[&[1, 2, 3], &[4, 0, 5], &[6, 7, 8]]), 1, 1, 2);
    let mut copy = state.duplicate();
    copy.advance(Action::Down);
    copy.advance(Action::Right);
    assert_eq!(copy.evaluate_score(), 15);
    assert_eq!(state.evaluate_score(), 0);
    assert!(!state.done());
    assert_eq!(state.legal_actions().len(), 4);
}
