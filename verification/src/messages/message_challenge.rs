use vstd::prelude::*;
use crate::challenges_compute::challenge_hash_cash::Md5HashCash;
use crate::challenges_compute::challenge_nonogram::Nonogram;
use crate::challenges_compute::challenge_recover_secret::RecoverSecret;

verus! {

/// A challenge, wrapped under its message name.
pub struct ChallengeMessage {
    challenge: Challenge,
}

/// A challenge, as the solver that takes it.
enum Challenge {
    Md5(Md5HashCash),
    RecoverySecret(RecoverSecret),
    Nonogram(Nonogram),
}

} // verus!
