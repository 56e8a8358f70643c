pub mod alternate_maze;
pub mod auto_move_maze;
pub mod connect_four;
pub mod one_player_maze;
