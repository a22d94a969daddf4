use vstd::prelude::*;
use crate::messages::output::message_challenge_result::ChallengeResult;
use crate::messages::output::message_subscribe::Subscribe;

verus! {

/// The messages the client sends.
pub enum MessageOutputType {
    Hello,
    Subscribe(Subscribe),
    ChallengeResult(ChallengeResult),
}

} // verus!
