use vstd::prelude::*;

verus! {

/// The summary of a round: the challenge and the chain of results (the
/// times used are not kept here: the client's logic does not read them).
pub struct RoundSummary {
    pub challenge: String,
    pub chain: Vec<ReportedChallengeResult>,
}

/// The result a player reported in a round.
pub struct ReportedChallengeResult {
    pub name: String,
    pub value: ChallengeResult,
}

/// A reported result: answered (with the next target) or unreachable (on
/// the wire, the first variant is named `Ok`).
pub enum ChallengeResult {
    Answered(ChallengeOk),
    Unreachable,
}

/// An answered challenge and the player it was passed on to.
pub struct ChallengeOk {
    pub next_target: String,
}

} // verus!
