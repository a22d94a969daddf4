pub mod challenges;
pub mod message_challenge_result;
pub mod message_subscribe;
pub mod messages_output_types;
