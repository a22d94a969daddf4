use vstd::prelude::*;

verus! {

/// A player as the leader board shows it (the time the player used is not
/// kept here: the client's logic does not read it).
pub struct PublicPlayer {
    pub name: String,
    pub stream_id: String,
    pub score: i8,
    pub steps: u8,
    pub is_active: bool,
}

} // verus!
