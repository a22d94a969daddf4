pub mod challenges_compute;
pub mod messages;
pub mod text;
pub mod wire;
