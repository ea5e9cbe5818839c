use tobira_api::id::{Id, IdError, Kind};

fn decode_str(s: &str, kind: Kind) -> Result<u64, IdError> {
    Id::from_token(s.to_string()).decode(kind)
}

#[test]
fn encode_exact_tokens() {
    assert_eq!(Id::encode(Kind::Realm, 255).as_str(), "re99423fc5cb3198eb");
    assert_eq!(Id::encode(Kind::Event, 1).as_str(), "ev9e3779b97f4a7c15");
    assert_eq!(Id::encode(Kind::Realm, 0).as_str(), "re0000000000000000");
    assert_eq!(Id::encode(Kind::Event, u64::MAX).as_str(), "ev61c8864680b583eb");
    assert_eq!(Id::encode(Kind::Realm, 0x1234_abcd).as_str(), "re855c796c5dcb63d1");
}

#[test]
fn round_trip_keeps_key() {
    for &key in &[0u64, 1, 15, 16, 42, 0xdead_beef, u64::MAX - 1, u64::MAX] {
        for &kind in &[Kind::Realm, Kind::Event] {
            assert_eq!(Id::encode(kind, key).decode(kind), Ok(key));
        }
    }
}

#[test]
fn other_kind_is_mismatch() {
    for &key in &[0u64, 7, u64::MAX] {
        assert_eq!(Id::encode(Kind::Realm, key).decode(Kind::Event), Err(IdError::KindMismatch));
        assert_eq!(Id::encode(Kind::Event, key).decode(Kind::Realm), Err(IdError::KindMismatch));
    }
}

#[test]
fn malformed_tokens() {
    assert_eq!(decode_str("", Kind::Realm), Err(IdError::Malformed));
    assert_eq!(decode_str("re12", Kind::Realm), Err(IdError::Malformed));
    assert_eq!(decode_str("xx0000000000000001", Kind::Realm), Err(IdError::Malformed));
    assert_eq!(decode_str("re000000000000000g", Kind::Realm), Err(IdError::Malformed));
    assert_eq!(decode_str("re00000000000000FF", Kind::Realm), Err(IdError::Malformed));
    assert_eq!(decode_str("re00000000000000001", Kind::Realm), Err(IdError::Malformed));
    assert_eq!(decode_str("xx000000000000000g", Kind::Event), Err(IdError::Malformed));
}

#[test]
fn decode_client_token() {
    assert_eq!(decode_str("re99423fc5cb3198eb", Kind::Realm), Ok(255));
    assert_eq!(decode_str("evf519f86ee2385b72", Kind::Event), Ok(42));
    assert_eq!(decode_str("evf519f86ee2385b72", Kind::Realm), Err(IdError::KindMismatch));
    assert_eq!(decode_str("re0000000000000000", Kind::Realm), Ok(0));
}

#[test]
fn consecutive_keys_give_unrelated_tokens() {
    let a = Id::encode(Kind::Realm, 1000);
    let b = Id::encode(Kind::Realm, 1001);
    let differing = a.as_str().chars().zip(b.as_str().chars()).filter(|(x, y)| x != y).count();
    assert!(differing > 4);
}
