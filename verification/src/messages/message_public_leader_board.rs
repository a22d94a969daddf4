use vstd::prelude::*;

verus! {

/// The leader board, wrapped under its message name.
pub struct PublicLeaderBoardMessage {
    public_leader_board: Vec<PublicPlayer>,
}

/// A player as the leader board shows it (without the time used).
pub struct PublicPlayer {
    name: String,
    stream_id: String,
    score: u8,
    steps: u8,
    is_active: bool,
}

} // verus!
