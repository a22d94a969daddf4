pub mod challenges;
pub mod message_challenge_timeout;
pub mod message_end_of_game;
pub mod message_public_leader_board;
pub mod message_round_summary;
pub mod message_subscribe_result;
pub mod message_welcome;
pub mod message_challenge;
pub mod messages_input_types;
