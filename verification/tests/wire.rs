use challenge_client::wire::{frame, frame_length};

#[test]
fn frame_prefixes_the_length() {
    let buf = frame(&b"\"Hello\"".to_vec());
    assert_eq!(buf, b"\0\0\0\x07\"Hello\"".to_vec());
}

#[test]
fn frame_of_nothing() {
    assert_eq!(frame(&Vec::new()), vec![0, 0, 0, 0]);
}

#[test]
fn frame_of_a_long_message() {
    let payload = vec![b'a'; 300];
    let buf = frame(&payload);
    assert_eq!(&buf[..4], &[0, 0, 1, 44]);
    assert_eq!(&buf[4..], &payload[..]);
}

#[test]
fn frame_length_reads_big_endian() {
    assert_eq!(frame_length(&[0, 0, 1, 44]), 300);
    assert_eq!(frame_length(&[0x12, 0x34, 0x56, 0x78]), 0x1234_5678);
    assert_eq!(frame_length(&[0, 0, 0, 0]), 0);
}

#[test]
fn frame_length_is_signed() {
    assert_eq!(frame_length(&[0xff, 0xff, 0xff, 0xff]), -1);
    assert_eq!(frame_length(&[0x80, 0, 0, 0]), i32::MIN);
}

#[test]
fn frame_length_reads_what_frame_wrote() {
    let payload = vec![7u8; 1000];
    let buf = frame(&payload);
    let prefix = [buf[0], buf[1], buf[2], buf[3]];
    assert_eq!(frame_length(&prefix), 1000);
}
