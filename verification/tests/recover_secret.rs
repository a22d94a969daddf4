use challenge_client::challenges_compute::challenge_recover_secret::RecoverSecret;
use challenge_client::messages::input::challenges::recover_secret_input::RecoverSecretInput;

fn solver(letters: &str, sizes: Vec<usize>) -> RecoverSecret {
    RecoverSecret::new(RecoverSecretInput {
        word_count: sizes.len(),
        letters: letters.to_string(),
        tuple_sizes: sizes,
    })
}

#[test]
fn distinct_letters_keep_first_occurrences() {
    let s = solver("abcbdfacecde", vec![3, 3, 3, 3]);
    assert_eq!(s.create_string_with_all_letters(), "abcdfe");
    let s = solver("aaa", vec![3]);
    assert_eq!(s.create_string_with_all_letters(), "a");
    let s = solver("", vec![]);
    assert_eq!(s.create_string_with_all_letters(), "");
}

#[test]
fn switch_keeps_an_order_already_right() {
    assert_eq!(solver("abcbdfacecde", vec![3, 3, 3, 3]).switch(), "abcdfe");
}

#[test]
fn switch_reorders_letters() {
    assert_eq!(solver("tuptupdrt", vec![3, 3, 3]).switch(), "drtup");
    assert_eq!(solver("rsaraast", vec![2, 2, 2, 2]).switch(), "arst");
    assert_eq!(solver("cbadcb", vec![3, 3]).switch(), "dcba");
}

#[test]
fn switch_respects_every_tuple() {
    let letters = "tuptupdrt";
    let secret = solver(letters, vec![3, 3, 3]).switch();
    let pos = |c: char| secret.find(c).unwrap();
    for tuple in [&letters[0..3], &letters[3..6], &letters[6..9]] {
        let chars: Vec<char> = tuple.chars().collect();
        assert!(pos(chars[0]) <= pos(chars[1]) && pos(chars[1]) <= pos(chars[2]));
    }
}

#[test]
fn solve_gives_the_secret() {
    let out = solver("abcbcdcde", vec![3, 3, 3]).solve();
    assert_eq!(out.secret_sentence, "abcde");
}

#[test]
fn recover_secret_name() {
    assert_eq!(RecoverSecret::name(), "Recover Secret");
}

#[test]
fn non_ascii_letters_are_taken_byte_by_byte() {
    let s = solver("é", vec![]);
    assert_eq!(s.create_string_with_all_letters(), "Ã©");
    assert_eq!(s.switch(), "Ã©");
    assert_eq!(solver("éa", vec![3]).switch(), "Ã©a");
    assert_eq!(solver("éa", vec![3]).solve().secret_sentence, "Ã©a");
}

#[test]
fn switch_checked_refuses_a_swap_that_breaks_a_character() {
    assert_eq!(solver("aéa", vec![2, 2]).switch_checked(), None);
    assert_eq!(solver("éa", vec![3]).switch_checked(), Some("Ã©a".to_string()));
    assert_eq!(solver("tuptupdrt", vec![3, 3, 3]).switch_checked(), Some("drtup".to_string()));
}
