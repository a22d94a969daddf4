use vstd::prelude::*;
use crate::challenges_compute::challenge_hash_cash::{Md5HashCash, hash_cash_answer, hash_cash_solvable};
use crate::challenges_compute::challenge_nonogram::{Nonogram, nonogram_answer, nonogram_solvable};
use crate::challenges_compute::challenge_recover_secret::{RecoverSecret, recover_answer, recover_solvable};
use crate::messages::input::challenges::hash_cash_input::Md5HashCashInput;
use crate::messages::input::challenges::nonogram_input::{NonogramSolverInput, clue_rows};
use crate::messages::input::challenges::recover_secret_input::RecoverSecretInput;
use crate::messages::output::message_challenge_result::ChallengeAnswer;

verus! {

/// A challenge sent by the server.
pub enum ChallengeMessage {
    MD5HashCash(Md5HashCashInput),
    RecoverSecret(RecoverSecretInput),
    NonogramSolver(NonogramSolverInput),
}

impl ChallengeMessage {
    /// The challenge can be solved (see each solver's conditions).
    pub open spec fn solvable(&self) -> bool {
        match *self {
            ChallengeMessage::MD5HashCash(input) => hash_cash_solvable(input),
            ChallengeMessage::RecoverSecret(input) => recover_solvable(input),
            ChallengeMessage::NonogramSolver(input) => nonogram_solvable(input),
        }
    }

    /// `answer` is the solver's answer to the challenge, of the same kind.
    pub open spec fn answered_by(&self, answer: ChallengeAnswer) -> bool {
        match *self {
            ChallengeMessage::MD5HashCash(input) => answer matches ChallengeAnswer::MD5HashCash(out)
                && hash_cash_answer(input, out),
            ChallengeMessage::RecoverSecret(input) => answer matches ChallengeAnswer::RecoverSecret(
                out,
            ) && recover_answer(input, out),
            ChallengeMessage::NonogramSolver(input) => answer matches ChallengeAnswer::NonogramSolver(
                out,
            ) && nonogram_answer(input, out),
        }
    }

    /// Solves the challenge with the solver of its kind.
    pub fn match_challenge(&self) -> (answer: ChallengeAnswer)
        requires
            self.solvable(),
        ensures
            self.answered_by(answer),
    {
        match self {
            ChallengeMessage::MD5HashCash(input) => {
                let md5 = Md5HashCash::new(input.clone());
                let answer = md5.solve();
                ChallengeAnswer::MD5HashCash(answer)
            },
            ChallengeMessage::RecoverSecret(input) => {
                let recovery_secret = RecoverSecret::new(input.clone());
                let answer = recovery_secret.solve();
                ChallengeAnswer::RecoverSecret(answer)
            },
            ChallengeMessage::NonogramSolver(input) => {
                let copy = input.clone();
                assert(clue_rows(&copy.cols).len() == copy.cols.len());
                assert(clue_rows(&input.cols).len() == input.cols.len());
                let nonogram = Nonogram::new(copy);
                let answer = nonogram.solve();
                ChallengeAnswer::NonogramSolver(answer)
            },
        }
    }
}

} // verus!
