use vstd::prelude::*;
use crate::messages::input::message_challenge::ChallengeMessage;
use crate::messages::input::message_challenge_timeout::ChallengeTimeout;
use crate::messages::input::message_end_of_game::EndOfGame;
use crate::messages::input::message_public_leader_board::PublicPlayer;
use crate::messages::input::message_round_summary::RoundSummary;
use crate::messages::input::message_subscribe_result::SubscribeResult;
use crate::messages::input::message_welcome::Welcome;
use crate::messages::output::message_challenge_result::ChallengeResult;
use crate::messages::output::message_subscribe::Subscribe;
use crate::messages::output::messages_output_types::MessageOutputType;

verus! {

/// The messages the server sends.
pub enum MessageInputType {
    Welcome(Welcome),
    Challenge(ChallengeMessage),
    SubscribeResult(SubscribeResult),
    ChallengeTimeout(ChallengeTimeout),
    PublicLeaderBoard(Vec<PublicPlayer>),
    EndOfGame(EndOfGame),
    RoundSummary(RoundSummary),
}

/// What the client does with a message: send a message, aim the next
/// challenge at a player, leave the game, or nothing.
pub enum MessageInputResult {
    MessageOutputType(MessageOutputType),
    PlayerToKill(String),
    Exit,
    Nothing,
}

/// The name the client plays under.
pub open spec fn client_name() -> Seq<char> {
    "TEMA LA PATATE"@
}

/// Player `q` replaces the current target `p`: `q` is active, and `p` is
/// not, or is the client itself, or has a lower score.
pub open spec fn replaces(players: Seq<PublicPlayer>, p: int, q: int) -> bool {
    players[q].is_active && (!players[p].is_active || players[p].name@ == client_name()
        || players[q].score > players[p].score)
}

/// The target among the first `n` players: from player 0, each later
/// player that replaces the current target becomes the target.
pub open spec fn target_index(players: Seq<PublicPlayer>, n: int) -> int
    decreases n,
{
    if n <= 1 {
        0
    } else {
        let p = target_index(players, n - 1);
        if replaces(players, p, n - 1) {
            n - 1
        } else {
            p
        }
    }
}

/// The target on the whole leader board.
pub open spec fn target(players: Seq<PublicPlayer>) -> int {
    target_index(players, players.len() as int)
}

impl MessageInputType {
    /// The message can be handled: a challenge can be solved, a leader board
    /// has a player.
    pub open spec fn handled(&self) -> bool {
        match *self {
            MessageInputType::Challenge(challenge) => challenge.solvable(),
            MessageInputType::PublicLeaderBoard(players) => players.len() > 0,
            _ => true,
        }
    }

    /// What the client does with the message, aiming the next challenge at
    /// `player_to_kill`: subscribes after a welcome, answers a challenge,
    /// picks a new target from a leader board, leaves at the end of the game.
    pub fn match_type(&self, player_to_kill: String) -> (result: MessageInputResult)
        requires
            self.handled(),
        ensures
            match *self {
                MessageInputType::Welcome(_) => result matches MessageInputResult::MessageOutputType(
                    MessageOutputType::Subscribe(subscribe),
                ) && subscribe.name@ == client_name(),
                MessageInputType::Challenge(challenge) => result matches MessageInputResult::MessageOutputType(
                    MessageOutputType::ChallengeResult(r),
                ) && challenge.answered_by(r.answer) && r.next_target == player_to_kill,
                MessageInputType::PublicLeaderBoard(players) => result matches MessageInputResult::PlayerToKill(
                    name,
                ) && name@ == players@[target(players@)].name@ && (strongest_rule_applies(players@) ==> strongest(
                    players@,
                    target(players@),
                )),
                MessageInputType::EndOfGame(_) => result is Exit,
                _ => result is Nothing,
            },
    {
        let self_name = String::from_str("TEMA LA PATATE");
        match self {
            MessageInputType::Welcome(_) => {
                MessageInputResult::MessageOutputType(
                    MessageOutputType::Subscribe(Subscribe { name: self_name }),
                )
            },
            MessageInputType::Challenge(challenge) => {
                let challenge_answer = challenge.match_challenge();
                let challenge_result = ChallengeResult {
                    answer: challenge_answer,
                    next_target: player_to_kill,
                };
                MessageInputResult::MessageOutputType(
                    MessageOutputType::ChallengeResult(challenge_result),
                )
            },
            MessageInputType::PublicLeaderBoard(players) => {
                let mut player_index: usize = 0;
                let mut i: usize = 1;
                while i < players.len()
                    invariant
                        1 <= i <= players.len(),
                        self_name@ == client_name(),
                        player_index == target_index(players@, i as int),
                        player_index < i,
                    decreases players.len() - i,
                {
                    if players[i].is_active && (!players[player_index].is_active
                        || players[player_index].name == self_name || players[i].score
                        > players[player_index].score) {
                        player_index = i;
                    }
                    i = i + 1;
                }
                proof {
                    if strongest_rule_applies(players@) {
                        lemma_target_strongest(players@);
                    }
                }
                MessageInputResult::PlayerToKill(players[player_index].name.clone())
            },
            MessageInputType::SubscribeResult(_) => MessageInputResult::Nothing,
            MessageInputType::EndOfGame(_) => MessageInputResult::Exit,
            _ => MessageInputResult::Nothing,
        }
    }
}

/// The target is an active player whenever the leader board has one.
pub proof fn lemma_target_active(players: Seq<PublicPlayer>, n: int)
    requires
        1 <= n <= players.len(),
    ensures
        0 <= target_index(players, n) < n,
        (exists|k: int| 0 <= k < n && #[trigger] players[k].is_active) ==> players[target_index(
            players,
            n,
        )].is_active,
    decreases n,
{
    if n > 1 {
        lemma_target_active(players, n - 1);
        let p = target_index(players, n - 1);
        if exists|k: int| 0 <= k < n && #[trigger] players[k].is_active {
            let k = choose|k: int| 0 <= k < n && #[trigger] players[k].is_active;
            if k < n - 1 {
                assert(players[p].is_active);
            }
        }
    }
}


/// The leader board has an active player, and the client is not one of its
/// active players.
pub open spec fn strongest_rule_applies(players: Seq<PublicPlayer>) -> bool {
    &&& exists|k: int| 0 <= k < players.len() && #[trigger] players[k].is_active
    &&& forall|k: int| 0 <= k < players.len() && #[trigger] players[k].is_active ==> players[k].name@ != client_name()
}

/// Player `t` is an active player other than the client, and no active
/// player has a strictly higher score.
pub open spec fn strongest(players: Seq<PublicPlayer>, t: int) -> bool {
    &&& 0 <= t < players.len()
    &&& players[t].is_active
    &&& players[t].name@ != client_name()
    &&& forall|k: int| 0 <= k < players.len() && #[trigger] players[k].is_active ==> players[k].score <= players[t].score
}

proof fn lemma_target_index_strongest(players: Seq<PublicPlayer>, n: int)
    requires
        1 <= n <= players.len(),
        forall|k: int| 0 <= k < players.len() && #[trigger] players[k].is_active ==> players[k].name@ != client_name(),
    ensures
        0 <= target_index(players, n) < n,
        (exists|k: int| 0 <= k < n && #[trigger] players[k].is_active) ==> {
            let t = target_index(players, n);
            &&& players[t].is_active
            &&& forall|k: int| 0 <= k < n && #[trigger] players[k].is_active ==> players[k].score <= players[t].score
        },
    decreases n,
{
    if n > 1 {
        lemma_target_index_strongest(players, n - 1);
        let p = target_index(players, n - 1);
        let q = n - 1;
        if exists|k: int| 0 <= k < n && #[trigger] players[k].is_active {
            if replaces(players, p, q) {
                if !players[p].is_active {
                    assert forall|k: int| 0 <= k < n && #[trigger] players[k].is_active implies players[k].score
                        <= players[q].score by {
                        if k < n - 1 {
                            assert(exists|k2: int| 0 <= k2 < n - 1 && #[trigger] players[k2].is_active);
                        }
                    }
                } else {
                    assert(players[p].name@ != client_name());
                    assert forall|k: int| 0 <= k < n && #[trigger] players[k].is_active implies players[k].score
                        <= players[q].score by {
                        if k < n - 1 {
                            assert(exists|k2: int| 0 <= k2 < n - 1 && #[trigger] players[k2].is_active);
                        }
                    }
                }
            } else {
                if players[q].is_active {
                    assert(players[p].is_active);
                    assert(players[p].name@ != client_name());
                } else {
                    let k = choose|k: int| 0 <= k < n && #[trigger] players[k].is_active;
                    assert(k < n - 1);
                    assert(exists|k2: int| 0 <= k2 < n - 1 && #[trigger] players[k2].is_active);
                }
            }
        }
    }
}

/// When the leader board has an active player and the client is not one of
/// its active players, the chosen target is an active player other than the
/// client, and no active player has a strictly higher score.
pub proof fn lemma_target_strongest(players: Seq<PublicPlayer>)
    requires
        strongest_rule_applies(players),
    ensures
        strongest(players, target(players)),
{
    lemma_target_index_strongest(players, players.len() as int);
}

} // verus!
