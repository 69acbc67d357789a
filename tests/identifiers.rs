use annual_events::uid::{event_key_bytes, hash_event, hex_encode};

#[test]
fn uid_of_independence_day_2024() {
    let uid = hash_event(2024, "Independence Day".as_bytes());
    assert_eq!(
        String::from_utf8(uid).unwrap(),
        "be5f91344227e06ea10412607c54e92e53919b297876deeee23cd171867e068f"
    );
}

#[test]
fn uid_is_deterministic_and_year_dependent() {
    let a = hash_event(2024, b"Independence Day");
    let b = hash_event(2024, b"Independence Day");
    let c = hash_event(2025, b"Independence Day");
    let d = hash_event(2024, b"Independence day");
    assert_eq!(a, b);
    assert_ne!(a, c);
    assert_ne!(a, d);
    assert_eq!(
        String::from_utf8(c).unwrap(),
        "fea827ed7091958e9e87eb18a70247a9c919089da2a3682ec7332e1c9e88ab71"
    );
}

#[test]
fn uid_of_negative_year() {
    let uid = hash_event(-1, b"X");
    assert_eq!(
        String::from_utf8(uid).unwrap(),
        "53bac0cac12d9c65671551f9e34111417927b9a662df400dcfe1d7e825f3e811"
    );
}

#[test]
fn key_is_big_endian_year_then_summary() {
    assert_eq!(event_key_bytes(2024, b"Ab"), vec![0x00, 0x00, 0x07, 0xE8, b'A', b'b']);
    assert_eq!(event_key_bytes(-2, b""), vec![0xFF, 0xFF, 0xFF, 0xFE]);
}

#[test]
fn hex_is_lowercase_two_digits_per_byte() {
    assert_eq!(hex_encode(&[0x00, 0x0f, 0xa0, 0xff]), b"000fa0ff".to_vec());
    assert_eq!(hex_encode(&[]), Vec::<u8>::new());
}
