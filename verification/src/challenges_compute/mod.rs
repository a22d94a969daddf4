pub mod challenge_hash_cash;
pub mod challenge_recover_secret;
pub mod challenge_nonogram;
pub mod challenge_monstrous_maze;
