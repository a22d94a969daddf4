use vstd::prelude::*;
use crate::messages::output::challenges::hash_cash_output::MD5HashCashOutput;
use crate::messages::output::challenges::nonogram_output::NonogramSolverOutput;
use crate::messages::output::challenges::recover_secret_output::RecoverSecretOutput;

verus! {

/// A challenge result, wrapped under its message name.
pub struct ChallengeResultMessage {
    challenge_result: ChallengeResult,
}

/// The answer to a challenge and the player the next challenge goes to.
struct ChallengeResult {
    answer: ChallengeAnswer,
    next_target: String,
}

/// The answer to one of the challenges.
enum ChallengeAnswer {
    MD5HashCashAnswer(MD5HashCashOutput),
    NonogramAnswer(NonogramSolverOutput),
    RecoverSecretAnswer(RecoverSecretOutput),
}

} // verus!
