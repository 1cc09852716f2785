use btclib::network::Message;
use btclib::u256::U256;

#[test]
fn frame_roundtrip_on_concrete_payload() {
    let mut stream = Vec::new();
    Message::send(b"hello", &mut stream);
    stream.extend_from_slice(b"tail");
    assert_eq!(Message::receive(&stream), Some(b"hello".to_vec()));
}

#[test]
fn decimal_roundtrip_on_concrete_value() {
    let v = U256::from_limbs([0x1234, 0, 0x5678, 0x9]);
    assert_eq!(U256::from_decimal(&v.to_decimal()), Some(v));
}
