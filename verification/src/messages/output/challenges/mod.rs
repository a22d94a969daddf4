pub mod hash_cash_output;
pub mod recover_secret_output;
pub mod nonogram_output;
pub mod monstrous_maze_output;
