use vstd::prelude::*;
use crate::messages::input::message_public_leader_board::PublicPlayer;

verus! {

/// The end of the game, with the final leader board.
pub struct EndOfGame {
    pub leader_board: Vec<PublicPlayer>,
}

} // verus!
