pub mod hash_cash_input;
pub mod recover_secret_input;
pub mod nonogram_input;
pub mod monstrous_maze_input;
