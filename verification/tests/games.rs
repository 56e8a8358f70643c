use std::time::Duration;

use thunder_book_game_search::game::alternate::{AlternateGameState, WinningStatus};
use thunder_book_game_search::games::alternate_maze::{Action, AlternateMazeState};
use thunder_book_game_search::games::connect_four::ConnectFourState;
use thunder_book_game_search::search::alternate::alpha_beta::alpha_beta_action;
use thunder_book_game_search::search::alternate::mini_max::mini_max_action;
use thunder_book_game_search::TimeKeeper;

fn board(rows: &[&[u8]]) -> Vec<Vec<u8>> {
    rows.iter().map(|r| r.to_vec()).collect()
}

/// Advancing moves the acting character, collects the entered cell, and
/// flips the perspective; the winning status compares the two collected
/// scores from the mover's viewpoint.
#[test]
fn alternate_maze_scores_and_status() {
    let mut state = AlternateMazeState::new(board(&[&[9, 0, 0], &[0, 0, 0], &[0, 0, 0]]), 2);
    assert!(!state.done());
    assert_eq!(state.winning_status(), None);
    assert_eq!(state.score(), 0);

    // First player takes the 9 above; perspective flips.
    state.advance(Action::Up);
    assert_eq!(state.score(), -9);

    // Second player has nothing comparable; the game ends after two
    // turns with the first player ahead, so the mover (first player) won.
    state.advance(Action::Up);
    assert!(state.done());
    assert_eq!(state.winning_status(), Some(WinningStatus::Win));
    assert_eq!(state.score(), 9);
}

/// Clone independence for the alternating game.
#[test]
fn alternate_maze_duplicate_is_independent() {
    let state = AlternateMazeState::new(board(&[&[9, 0, 0], &[0, 0, 0], &[0, 0, 0]]), 2);
    let mut copy = state.duplicate();
    copy.advance(Action::Up);
    assert_eq!(copy.score(), -9);
    assert_eq!(state.score(), 0);
    assert!(state.winning_status().is_none());
}

/// The perspective-relative rate of the alternating maze.
#[test]
fn alternate_maze_score_rate() {
    let mut state = AlternateMazeState::new(board(&[&[9, 0, 0], &[0, 0, 0], &[0, 0, 0]]), 2);
    assert_eq!(state.score_rate(), 0);
    state.advance(Action::Up);
    // The mover has collected nothing of the 9 points seen so far.
    assert_eq!(state.score_rate(), 0);
    state.advance(Action::Up);
    // Now the mover owns all collected points.
    assert_eq!(state.score_rate(), 65536);
}

/// Every column of a fresh board is open.
#[test]
fn connect_four_initial_legal_actions() {
    let state = ConnectFourState::new(6, 7);
    let legal = state.legal_actions();
    assert_eq!(legal.len(), 7);
    for (i, action) in legal.iter().enumerate() {
        assert_eq!(action.column(), i);
    }
    assert!(!state.done());
    assert!(state.first());
}

/// Four own pieces stacked in one column end the game: the player about
/// to move has lost.
#[test]
fn connect_four_vertical_win() {
    let mut state = ConnectFourState::new(6, 7);
    // First player drops in column 0, second in column 1.
    for _ in 0..3 {
        let a = state.legal_actions().into_iter().find(|a| a.column() == 0).unwrap();
        state.advance(a);
        let b = state.legal_actions().into_iter().find(|a| a.column() == 1).unwrap();
        state.advance(b);
    }
    assert!(!state.done());
    let a = state.legal_actions().into_iter().find(|a| a.column() == 0).unwrap();
    state.advance(a);
    assert!(state.done());
    assert_eq!(state.winning_status(), Some(WinningStatus::Lose));
}

/// Four own pieces along the bottom row end the game.
#[test]
fn connect_four_horizontal_win() {
    let mut state = ConnectFourState::new(6, 7);
    // First player fills columns 0..3, second stacks on top of them.
    for c in 0..3usize {
        let a = state.legal_actions().into_iter().find(|a| a.column() == c).unwrap();
        state.advance(a);
        let b = state.legal_actions().into_iter().find(|a| a.column() == c).unwrap();
        state.advance(b);
    }
    let a = state.legal_actions().into_iter().find(|a| a.column() == 3).unwrap();
    state.advance(a);
    assert!(state.done());
    assert_eq!(state.winning_status(), Some(WinningStatus::Lose));
}

/// A filled column disappears from the legal actions.
#[test]
fn connect_four_full_column_is_illegal() {
    let mut state = ConnectFourState::new(2, 2);
    for _ in 0..2 {
        let a = state.legal_actions().into_iter().find(|a| a.column() == 0).unwrap();
        state.advance(a);
    }
    let legal = state.legal_actions();
    assert_eq!(legal.len(), 1);
    assert_eq!(legal[0].column(), 1);
}

/// Minimax and alpha-beta agree on connect four as well: with no
/// heuristic score every line looks alike, so both settle on the first
/// column.
#[test]
fn connect_four_search_agrees() {
    let state = ConnectFourState::new(4, 4);
    for depth in 1..4u32 {
        let expected = mini_max_action(&state, depth);
        let time_keeper = TimeKeeper::new(Duration::from_secs(5));
        let got = alpha_beta_action(&state, depth, &time_keeper);
        assert!(expected.is_some());
        assert_eq!(expected.unwrap().column(), got.unwrap().column());
    }
}
