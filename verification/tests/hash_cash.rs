use challenge_client::challenges_compute::challenge_hash_cash::{
    convert_to_binary_from_hex, to_binary, Md5HashCash,
};
use challenge_client::messages::input::challenges::hash_cash_input::Md5HashCashInput;

#[test]
fn md5_of_empty_message() {
    assert_eq!(Md5HashCash::md5(""), "D41D8CD98F00B204E9800998ECF8427E");
}

#[test]
fn md5_of_abc() {
    assert_eq!(Md5HashCash::md5("abc"), "900150983CD24FB0D6963F7D28E17F72");
}

#[test]
fn md5_of_two_blocks() {
    assert_eq!(
        Md5HashCash::md5("The quick brown fox jumps over the lazy dog"),
        "9E107D9D372BB6826BD81D3542A419D6"
    );
}

#[test]
fn md5_of_long_message() {
    let message = "a".repeat(200);
    assert_eq!(Md5HashCash::md5(&message), "887F30B43B2867F4A9ACCCEEE7D16E6C");
}

#[test]
fn digest_is_32_hex_digits() {
    let digest = Md5HashCash::md5("any message at all");
    assert_eq!(digest.len(), 32);
    assert!(digest.chars().all(|c| c.is_ascii_digit() || ('A'..='F').contains(&c)));
}

#[test]
fn pad_message_of_abc() {
    let padded = Md5HashCash::pad_message(b"abc");
    assert_eq!(padded.len(), 64);
    assert_eq!(&padded[0..4], &[b'a', b'b', b'c', 0x80]);
    assert!(padded[4..56].iter().all(|b| *b == 0));
    assert_eq!(&padded[56..64], &[24, 0, 0, 0, 0, 0, 0, 0]);
}

#[test]
fn pad_message_of_56_bytes_takes_two_blocks() {
    let message = [7u8; 56];
    let padded = Md5HashCash::pad_message(&message);
    assert_eq!(padded.len(), 128);
    assert_eq!(padded[56], 0x80);
    assert_eq!(&padded[120..128], &[0xC0, 1, 0, 0, 0, 0, 0, 0]);
}

#[test]
fn pad_message_of_55_bytes_takes_one_block() {
    let message = [1u8; 55];
    let padded = Md5HashCash::pad_message(&message);
    assert_eq!(padded.len(), 64);
    assert_eq!(padded[55], 0x80);
}

#[test]
fn binary_of_hex_digits() {
    assert_eq!(to_binary('0'), "0000");
    assert_eq!(to_binary('7'), "0111");
    assert_eq!(to_binary('A'), "1010");
    assert_eq!(to_binary('F'), "1111");
    assert_eq!(to_binary('g'), "");
    assert_eq!(to_binary('a'), "");
}

#[test]
fn binary_of_hex_string() {
    assert_eq!(convert_to_binary_from_hex("0F"), "00001111");
    assert_eq!(convert_to_binary_from_hex("A5x"), "10100101");
    assert_eq!(convert_to_binary_from_hex(""), "");
}

#[test]
fn found_solution_from_zero() {
    let (seed, hash) = Md5HashCash::found_solution(0, "hello".to_string(), 9);
    assert_eq!(seed, 844);
    assert_eq!(hash, "00441745D9BDF8E5D3C7872AC9DBB2C3");
}

#[test]
fn found_solution_from_later_seed() {
    let (seed, hash) = Md5HashCash::found_solution(1000, "hello".to_string(), 9);
    assert_eq!(seed, 2032);
    assert_eq!(hash, "003371AC080AABD334A14B02A8EC83D9");
}

#[test]
fn found_solution_with_no_complexity_takes_the_first_seed() {
    let (seed, hash) = Md5HashCash::found_solution(0, "x".to_string(), 0);
    assert_eq!(seed, 0);
    assert_eq!(hash, "8D8CEA5B0726EEF1759647C91C6F27EB");
}

#[test]
fn solve_with_non_ascii_message() {
    let solver = Md5HashCash::new(Md5HashCashInput {
        complexity: 5,
        message: "Bonjour à tous".to_string(),
    });
    let out = solver.solve();
    assert_eq!(out.seed, 68);
    assert_eq!(out.hashcode, "050E9666CA50D1DBC4B42E6A1A3045FE");
}

#[test]
fn hash_cash_name() {
    assert_eq!(Md5HashCash::name(), "Md5");
}
