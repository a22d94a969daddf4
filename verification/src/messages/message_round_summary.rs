use vstd::prelude::*;

verus! {

/// A round summary, wrapped under its message name.
pub struct RoundSummaryMessage {
    round_summary: RoundSummary,
}

/// The challenge of the round and the chain of results.
struct RoundSummary {
    challenge: String,
    chain: Vec<ReportedChallengeResult>,
}

/// The result a player reported.
struct ReportedChallengeResult {
    name: String,
    value: ChallengeResult,
}

/// Answered (on the wire `Ok`) or unreachable.
enum ChallengeResult {
    Answered(ChallengeOk),
    Unreachable,
}

/// An answered challenge and the player it went to (without the time used).
struct ChallengeOk {
    next_target: String,
}

} // verus!
