pub mod alternate;
pub mod heuristic;
pub mod one_player;
