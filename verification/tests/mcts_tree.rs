use thunder_book_game_search::game::alternate::AlternateGameState;
use thunder_book_game_search::games::alternate_maze::AlternateMazeState;
use thunder_book_game_search::search::alternate::mcts::Node;

fn board(rows: &[&[u8]]) -> Vec<Vec<u8>> {
    rows.iter().map(|r| r.to_vec()).collect()
}

/// After N evaluation passes from the root, the root's total visit count
/// equals N: every pass books exactly one visit on every node it
/// crosses.
#[test]
fn root_visits_equal_passes() {
    let state = AlternateMazeState::new(board(&[&[1, 0, 3], &[4, 5, 6], &[7, 8, 9]]), 4);
    let legal = state.legal_actions();
    let mut root = Node::new(state.duplicate());
    root.expand(&legal);
    assert_eq!(root.visit_count(), 0);
    for n in 1..=50u64 {
        root.evaluate();
        assert_eq!(root.visit_count(), n);
    }
}
