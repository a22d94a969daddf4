use vstd::prelude::*;
use crate::messages::message_public_leader_board::PublicPlayer;

verus! {

/// The end of the game, wrapped under its message name.
pub struct EndOfGameMessage {
    end_of_game: EndOfGame,
}

/// The final leader board.
struct EndOfGame {
    leader_board: Vec<PublicPlayer>,
}

} // verus!
