use qeli::crypto::exchange::{Keypair, PublicKey, StaticKeypair};
use qeli::crypto::reality::{
    open_session_id, open_session_id_at, parse_short_id, seal_session_id, seal_session_id_at,
    short_id_from_hex, SHORT_ID_LEN,
};

#[test]
fn round_trip_with_matching_keys() {
    let reality = StaticKeypair::generate();
    let eph = Keypair::generate();
    let id = short_id_from_hex("0123456789abcdef");
    let sid = seal_session_id(&reality.public, &eph, &id);
    let got = open_session_id(&reality, eph.public(), &sid, 120).unwrap();
    assert_eq!(got, id);
}

#[test]
fn wrong_reality_key_rejected() {
    let reality = StaticKeypair::generate();
    let other = StaticKeypair::generate();
    let eph = Keypair::generate();
    let sid = seal_session_id(&reality.public, &eph, &short_id_from_hex("aabbccdd"));
    assert!(open_session_id(&other, eph.public(), &sid, 120).is_none());
}

#[test]
fn tampered_session_id_rejected() {
    let reality = StaticKeypair::generate();
    let eph = Keypair::generate();
    let mut sid = seal_session_id(&reality.public, &eph, &short_id_from_hex("aabbccdd"));
    sid[3] ^= 0xff;
    assert!(open_session_id(&reality, eph.public(), &sid, 120).is_none());
}

#[test]
fn stale_timestamp_rejected() {
    let reality = StaticKeypair::generate();
    let eph = Keypair::generate();
    let id = short_id_from_hex("aabbccdd");
    let sid = seal_session_id(&reality.public, &eph, &id);
    assert!(open_session_id(&reality, eph.public(), &sid, u64::MAX).is_some());
}

#[test]
fn low_order_ephemeral_key_share_rejected() {
    let reality = StaticKeypair::generate();
    let zero_pub = PublicKey::from_bytes(&[0u8; 32]);
    assert!(open_session_id(&reality, &zero_pub, &[0u8; 32], 120).is_none());
}

#[test]
fn short_id_hex_parsing() {
    assert_eq!(short_id_from_hex("0102030405060708"), [1, 2, 3, 4, 5, 6, 7, 8]);
    assert_eq!(short_id_from_hex(" a1b2 "), [0xa1, 0xb2, 0, 0, 0, 0, 0, 0]);
}

#[test]
fn parse_short_id_matches_lenient_on_valid_input() {
    for s in ["0102030405060708", "a1b2", " a1b2 ", "aa:bb:cc:dd", "de-ad-be-ef", "abc", "f"] {
        if let Some(strict) = parse_short_id(s) {
            assert_eq!(strict, short_id_from_hex(s), "mismatch for {s:?}");
        }
    }
    assert_eq!(parse_short_id("a1b2"), Some(short_id_from_hex("a1b2")));
}

#[test]
fn parse_short_id_rejects_unusable_values() {
    assert_eq!(parse_short_id("zzzz"), None, "non-hex must not become zeros");
    assert_eq!(parse_short_id("hello"), None);
    assert_eq!(parse_short_id(""), None);
    assert_eq!(parse_short_id("   "), None);
    assert_eq!(parse_short_id("0000000000000000"), None, "all-zero is a wildcard");
    assert_eq!(parse_short_id("00"), None);
    assert_eq!(
        parse_short_id("0102030405060708aa"),
        None,
        "more than 16 hex digits must not be silently truncated"
    );
    assert_eq!(parse_short_id("f"), None);
    assert_eq!(short_id_from_hex("zzzz"), [0u8; SHORT_ID_LEN]);
}

#[test]
fn lenient_parse_ignores_digits_past_sixteen_and_an_odd_tail() {
    assert_eq!(short_id_from_hex("abc"), [0xab, 0, 0, 0, 0, 0, 0, 0]);
    assert_eq!(short_id_from_hex("0102030405060708aa"), [1, 2, 3, 4, 5, 6, 7, 8]);
    assert_eq!(short_id_from_hex("AA:bb"), [0xaa, 0xbb, 0, 0, 0, 0, 0, 0]);
    assert_eq!(parse_short_id("AA:BB"), Some([0xaa, 0xbb, 0, 0, 0, 0, 0, 0]));
    assert_eq!(parse_short_id("aa_bb"), None);
}

#[test]
fn the_clock_window_is_checked_against_the_sealed_time() {
    let reality = StaticKeypair::generate();
    let eph = Keypair::generate();
    let id = short_id_from_hex("0123456789abcdef");
    let sid = seal_session_id_at(&reality.public, &eph, &id, 1_000_000);
    assert_eq!(open_session_id_at(&reality, eph.public(), &sid, 120, 1_000_120), Some(id));
    assert_eq!(open_session_id_at(&reality, eph.public(), &sid, 120, 999_880), Some(id));
    assert_eq!(open_session_id_at(&reality, eph.public(), &sid, 120, 1_000_121), None);
    assert_eq!(open_session_id_at(&reality, eph.public(), &sid, 120, 999_879), None);
    assert_eq!(open_session_id_at(&reality, eph.public(), &sid, 0, 1_000_000), Some(id));
}

#[test]
fn sealing_is_deterministic_for_a_fixed_time() {
    let reality = StaticKeypair::generate();
    let eph = Keypair::generate();
    let id = short_id_from_hex("0123456789abcdef");
    let a = seal_session_id_at(&reality.public, &eph, &id, 42);
    let b = seal_session_id_at(&reality.public, &eph, &id, 42);
    let c = seal_session_id_at(&reality.public, &eph, &id, 43);
    assert_eq!(a, b);
    assert_ne!(a, c);
    assert_ne!(&a[..8], &id[..]);
}
