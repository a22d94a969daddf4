use vstd::prelude::*;

verus! {

/// A challenge timeout, wrapped under its message name.
pub struct ChallengeTimeoutMessage {
    challenge_timeout: ChallengeTimeout,
}

/// The notice that a challenge was not answered in time.
struct ChallengeTimeout {
    message: String,
}

} // verus!
