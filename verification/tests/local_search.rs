use thunder_book_game_search::game::heuristic::HeuristicGameState;
use thunder_book_game_search::games::auto_move_maze::AutoMoveMazeState;
use thunder_book_game_search::search::heuristic::hill_climb::HillClimb;
use thunder_book_game_search::search::heuristic::random::Random;
use thunder_book_game_search::search::heuristic::simulated_annealing::SimulatedAnnealing;
use thunder_book_game_search::search::heuristic::ChooseState;

fn board(rows: &[&[u8]]) -> Vec<Vec<u8>> {
    rows.iter().map(|r| r.to_vec()).collect()
}

/// On a two-cell corridor with equal points every placement rolls out to
/// the same deterministic score: the character walks to the other cell.
#[test]
fn rollout_is_deterministic() {
    let state = AutoMoveMazeState::new(board(&[&[5, 5]]), 1, 1);
    assert_eq!(state.start(), 5);
    let copy = state.duplicate();
    assert_eq!(copy.start(), 5);
    assert_eq!(state.start(), 5);
}

/// The rollout walks greedily: from the corner of this board it takes
/// the 9 first, then the best neighbor of that cell.
#[test]
fn rollout_walks_greedily() {
    // One character; initialize() is random, so probe every placement by
    // rebuilding until each start cell was seen at least once.
    let mut seen_scores = Vec::new();
    for _ in 0..200 {
        let state = AutoMoveMazeState::new(board(&[&[1, 9], &[2, 3]]), 1, 2);
        let score = state.start();
        if !seen_scores.contains(&score) {
            seen_scores.push(score);
        }
    }
    // Every reachable rollout score is one of the four per-cell outcomes.
    for score in seen_scores {
        assert!(score == 12 || score == 5 || score == 10);
    }
}

/// Hill climbing never returns a candidate scoring below its input.
#[test]
fn hill_climb_never_regresses() {
    let state = AutoMoveMazeState::new(board(&[&[1, 9, 2], &[3, 0, 4], &[5, 6, 7]]), 2, 4);
    let initial = state.start();
    let climber = HillClimb::new(50);
    let improved = climber.climb(&state);
    assert!(improved.start() >= initial);
    let through_trait = climber.choose_state(&state);
    assert!(through_trait.start() >= initial);
}

/// Simulated annealing returns the best candidate it ever observed, so
/// it never returns one scoring below its input; with both temperatures
/// at zero it accepts only strict improvements, like hill climbing.
#[test]
fn simulated_annealing_never_regresses() {
    let state = AutoMoveMazeState::new(board(&[&[1, 9, 2], &[3, 0, 4], &[5, 6, 7]]), 2, 4);
    let initial = state.start();
    let warm = SimulatedAnnealing::new(50, 500000, 10000);
    assert!(warm.anneal(&state).start() >= initial);
    let frozen = SimulatedAnnealing::new(50, 0, 0);
    assert!(frozen.anneal(&state).start() >= initial);
}

/// Random restart hands back a fresh candidate that still rolls out.
#[test]
fn random_restart_yields_usable_candidate() {
    let state = AutoMoveMazeState::new(board(&[&[1, 9], &[2, 3]]), 1, 2);
    let restarted = (Random {}).choose_state(&state);
    let score = restarted.start();
    assert!(score == 12 || score == 5 || score == 10);
}
