use vstd::prelude::*;

verus! {

/// The notice that a challenge was not answered in time.
pub struct ChallengeTimeout {
    pub message: String,
}

} // verus!
