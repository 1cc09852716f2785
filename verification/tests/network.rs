use btclib::network::Message;

#[test]
fn frame_carries_big_endian_length() {
    let mut stream = Vec::new();
    Message::send(b"abc", &mut stream);
    assert_eq!(stream, vec![0, 0, 0, 0, 0, 0, 0, 3, b'a', b'b', b'c']);
    assert_eq!(Message::payload_length(&stream), Some(3));
}

#[test]
fn frame_reads_back_its_payload() {
    let payload: Vec<u8> = (0..300u32).map(|i| (i % 251) as u8).collect();
    let mut stream = vec![9u8];
    Message::send(&payload, &mut stream);
    assert_eq!(&stream[1..9], &[0, 0, 0, 0, 0, 0, 1, 44]);
    assert_eq!(Message::receive(&stream[1..]), Some(payload.clone()));
    stream.extend_from_slice(b"next");
    assert_eq!(Message::receive(&stream[1..]), Some(payload));
}

#[test]
fn empty_payload_frame() {
    let mut stream = Vec::new();
    Message::send(b"", &mut stream);
    assert_eq!(stream, vec![0u8; 8]);
    assert_eq!(Message::receive(&stream), Some(vec![]));
}

#[test]
fn truncated_frames_are_not_read() {
    assert_eq!(Message::receive(&[0, 0, 0]), None);
    assert_eq!(Message::payload_length(&[0, 0, 0]), None);
    assert_eq!(Message::receive(&[0, 0, 0, 0, 0, 0, 0, 2, 1]), None);
    assert_eq!(Message::receive(&[255, 255, 255, 255, 255, 255, 255, 255, 1]), None);
    assert_eq!(Message::payload_length(&[255; 8]), Some(u64::MAX));
}

#[test]
fn messages_hold_their_values() {
    let m = Message::AskDifference(7);
    match m {
        Message::AskDifference(n) => assert_eq!(n, 7),
        _ => panic!("wrong variant"),
    }
    let m = Message::NodeList(vec!["127.0.0.1:9000".to_string()]);
    assert!(matches!(m, Message::NodeList(ref v) if v.len() == 1));
}
