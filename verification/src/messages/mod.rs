pub mod input;
pub mod message_challenge;
pub mod message_challenge_result;
pub mod message_challenge_timeout;
pub mod message_end_of_game;
pub mod message_public_leader_board;
pub mod message_round_summary;
pub mod message_subscribe;
pub mod message_subscribe_result;
pub mod message_types;
pub mod message_welcome;
pub mod output;
