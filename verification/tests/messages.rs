use challenge_client::messages::input::challenges::recover_secret_input::RecoverSecretInput;
use challenge_client::messages::input::message_challenge::ChallengeMessage;
use challenge_client::messages::input::message_end_of_game::EndOfGame;
use challenge_client::messages::input::message_public_leader_board::PublicPlayer;
use challenge_client::messages::input::message_subscribe_result::SubscribeResult;
use challenge_client::messages::input::message_welcome::Welcome;
use challenge_client::messages::input::messages_input_types::{MessageInputResult, MessageInputType};
use challenge_client::messages::output::message_challenge_result::ChallengeAnswer;
use challenge_client::messages::output::messages_output_types::MessageOutputType;

fn player(name: &str, score: i8, is_active: bool) -> PublicPlayer {
    PublicPlayer { name: name.to_string(), stream_id: "s".to_string(), score, steps: 0, is_active }
}

fn target_of(players: Vec<PublicPlayer>) -> String {
    match MessageInputType::PublicLeaderBoard(players).match_type("nobody".to_string()) {
        MessageInputResult::PlayerToKill(name) => name,
        _ => panic!("no target"),
    }
}

#[test]
fn welcome_is_answered_by_a_subscription() {
    let result = MessageInputType::Welcome(Welcome { version: 1 }).match_type("x".to_string());
    match result {
        MessageInputResult::MessageOutputType(MessageOutputType::Subscribe(s)) => {
            assert_eq!(s.name, "TEMA LA PATATE")
        }
        _ => panic!("expected a subscription"),
    }
}

#[test]
fn challenge_is_answered_with_the_target() {
    let challenge = ChallengeMessage::RecoverSecret(RecoverSecretInput {
        word_count: 2,
        letters: "rsaraast".to_string(),
        tuple_sizes: vec![2, 2, 2, 2],
    });
    let result = MessageInputType::Challenge(challenge).match_type("bob".to_string());
    match result {
        MessageInputResult::MessageOutputType(MessageOutputType::ChallengeResult(r)) => {
            assert_eq!(r.next_target, "bob");
            match r.answer {
                ChallengeAnswer::RecoverSecret(out) => assert_eq!(out.secret_sentence, "arst"),
                _ => panic!("wrong answer kind"),
            }
        }
        _ => panic!("expected a challenge result"),
    }
}

#[test]
fn leader_board_picks_the_best_active_player() {
    let players = vec![
        player("TEMA LA PATATE", 5, true),
        player("alice", 1, true),
        player("bob", 3, true),
        player("carol", 9, false),
    ];
    assert_eq!(target_of(players), "bob");
}

#[test]
fn leader_board_skips_the_client_itself() {
    let players = vec![player("TEMA LA PATATE", 5, true), player("alice", 1, true)];
    assert_eq!(target_of(players), "alice");
}

#[test]
fn leader_board_keeps_the_first_player_when_no_other_is_active() {
    let players = vec![player("alice", 0, false), player("bob", 7, false)];
    assert_eq!(target_of(players), "alice");
}

#[test]
fn leader_board_moves_away_from_an_inactive_first_player() {
    let players = vec![player("alice", 9, false), player("bob", 1, true), player("carol", 0, true)];
    assert_eq!(target_of(players), "bob");
}

#[test]
fn end_of_game_exits() {
    let result = MessageInputType::EndOfGame(EndOfGame { leader_board: vec![] }).match_type("x".to_string());
    assert!(matches!(result, MessageInputResult::Exit));
}

#[test]
fn subscribe_result_does_nothing() {
    let result = MessageInputType::SubscribeResult(SubscribeResult::Accepted).match_type("x".to_string());
    assert!(matches!(result, MessageInputResult::Nothing));
}
