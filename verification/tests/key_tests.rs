use mqtt_storage::Key;

#[test]
fn key_next_advances_offset() {
    let k = Key::with_offset(41);
    assert_eq!(k.next(), Key(0, 42));
    assert_eq!(Key::default(), Key(0, 0));
}

#[test]
fn encode_is_fixed_width() {
    let k = Key::with_offset(7);
    let text = k.encode();
    assert_eq!(text, b"0000_000000000007".to_vec());
    let k2 = Key(42, 123456789);
    assert_eq!(k2.encode(), b"0042_000123456789".to_vec());
}

#[test]
fn decode_round_trips() {
    for (generation, offset) in [(0u16, 0u64), (0, 1), (17, 99), (9999, 999_999_999_999)] {
        let k = Key(generation, offset);
        let decoded = Key::decode(&k.encode()).unwrap();
        assert_eq!(decoded, k);
    }
}

#[test]
fn decode_rejects_malformed() {
    assert!(Key::decode(b"").is_err());
    assert!(Key::decode(b"0000_00000000000").is_err()); // one byte short
    assert!(Key::decode(b"0000_0000000000007").is_err()); // one byte long
    assert!(Key::decode(b"0000x000000000007").is_err()); // missing underscore
    assert!(Key::decode(b"00a0_000000000007").is_err()); // non-digit generation
    assert!(Key::decode(b"0000_0000000000a7").is_err()); // non-digit offset
    assert!(Key::decode(b"+000_000000000007").is_err()); // sign is not a digit
}

#[test]
fn encoding_order_matches_key_order() {
    let keys = [
        Key(0, 0),
        Key(0, 1),
        Key(0, 9),
        Key(0, 10),
        Key(0, 999_999_999_999),
        Key(1, 0),
        Key(41, 7),
        Key(9999, 3),
    ];
    for a in keys {
        for b in keys {
            let natural = (a.0, a.1) < (b.0, b.1);
            let lexicographic = a.encode() < b.encode();
            assert_eq!(natural, lexicographic);
        }
    }
}
