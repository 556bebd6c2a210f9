use hkdf::Hkdf;
use sha2::Sha256;
use qeli::crypto::exchange::{
    compute_auth_proof, key_exchange_dh, key_exchange_keypair, Keypair, PublicKey, StaticKeypair,
};

#[test]
fn derive_shared_checked_rejects_low_order_point() {
    let kp = Keypair::generate();
    let zero_pub = PublicKey([0u8; 32]);
    assert!(
        kp.derive_shared_checked(&zero_pub).is_none(),
        "low-order/identity peer key must be rejected"
    );
}

#[test]
fn derive_shared_checked_accepts_normal_exchange() {
    let a = Keypair::generate();
    let b = Keypair::generate();
    let sa = a.derive_shared_checked(b.public()).expect("normal exchange ok");
    let sb = b.derive_shared_checked(a.public()).expect("normal exchange ok");
    assert_eq!(sa.0, sb.0, "both sides agree on the shared secret");
}

#[test]
fn static_and_ephemeral_pairs_agree() {
    let s = StaticKeypair::generate();
    let e = Keypair::generate();
    let from_static = s.derive_shared(e.public());
    let from_eph = e.derive_shared(&s.public);
    assert_eq!(from_static.0, from_eph.0);
    assert_eq!(s.derive_shared_checked(&PublicKey::from_bytes(&[0u8; 32])).map(|x| x.0), None);
}

#[test]
fn secrets_round_trip_through_their_bytes() {
    let a = Keypair::generate();
    let b = Keypair::from_secret_bytes(&a.secret_bytes());
    assert_eq!(a.public().0, b.public().0);
    let s = StaticKeypair::generate();
    let t = StaticKeypair::from_private_bytes(s.private_bytes());
    assert_eq!(s.public.0, t.public.0);
}

#[test]
fn rfc7748_public_key_vector() {
    // RFC 7748 §6.1: Alice's private key and public key.
    let sk: [u8; 32] = [
        0x77, 0x07, 0x6d, 0x0a, 0x73, 0x18, 0xa5, 0x7d, 0x3c, 0x16, 0xc1, 0x72, 0x51, 0xb2, 0x66,
        0x45, 0xdf, 0x4c, 0x2f, 0x87, 0xeb, 0xc0, 0x99, 0x2a, 0xb1, 0x77, 0xfb, 0xa5, 0x1d, 0xb9,
        0x2c, 0x2a,
    ];
    let pk: [u8; 32] = [
        0x85, 0x20, 0xf0, 0x09, 0x89, 0x30, 0xa7, 0x54, 0x74, 0x8b, 0x7d, 0xdc, 0xb4, 0x3e, 0xf7,
        0x5a, 0x0d, 0xbf, 0x3a, 0x0d, 0x26, 0x38, 0x1a, 0xf4, 0xeb, 0xa4, 0xa9, 0x8e, 0xaa, 0x9b,
        0x4e, 0x6a,
    ];
    let kp = StaticKeypair::from_private_bytes(sk);
    assert_eq!(kp.public.0, pk);
    assert_eq!(*kp.public.as_bytes(), pk);
}

#[test]
fn auth_proof_is_hkdf_of_the_two_secrets_and_the_transcript() {
    let st = [1u8; 32];
    let ep = [2u8; 32];
    let th = [3u8; 32];
    let proof = compute_auth_proof(&st, &ep, &th);
    let hk = Hkdf::<Sha256>::new(Some(&st), &ep);
    let mut info = b"vpn-server-auth-proof-v2".to_vec();
    info.extend_from_slice(&th);
    let mut expected = [0u8; 32];
    hk.expand(&info, &mut expected).unwrap();
    assert_eq!(proof, expected);
    // Any change of the transcript changes the proof.
    assert_ne!(compute_auth_proof(&st, &ep, &[4u8; 32]), proof);
    assert_ne!(compute_auth_proof(&ep, &st, &th), proof);
}

#[test]
fn raw_keypair_bytes_are_secret_then_public() {
    let raw = key_exchange_keypair();
    let mut secret = [0u8; 32];
    secret.copy_from_slice(&raw[..32]);
    let kp = Keypair::from_secret_bytes(&secret);
    assert_eq!(&raw[32..], kp.public().as_bytes());
    assert_ne!(&raw[..32], &raw[32..]);
}

#[test]
fn raw_dh_agrees_between_the_two_sides() {
    let a = key_exchange_keypair();
    let b = key_exchange_keypair();
    let ab = key_exchange_dh(&a[..32], &b[32..]).expect("normal exchange");
    let ba = key_exchange_dh(&b[..32], &a[32..]).expect("normal exchange");
    assert_eq!(ab, ba);
}

#[test]
fn raw_dh_refuses_bad_lengths_and_low_order_keys() {
    let a = key_exchange_keypair();
    assert_eq!(key_exchange_dh(&a[..31], &a[32..]), None);
    assert_eq!(key_exchange_dh(&a[..32], &a[32..63]), None);
    assert_eq!(key_exchange_dh(&a[..32], &[0u8; 32]), None);
}

#[test]
fn a_static_pair_reports_its_public_key() {
    let s = StaticKeypair::generate();
    assert_eq!(s.public().as_bytes(), s.public.as_bytes());
    let again = StaticKeypair::from_private_bytes(s.private_bytes());
    assert_eq!(again.public().as_bytes(), s.public().as_bytes());
}

#[test]
fn the_all_zero_peer_key_is_refused_by_both_pairs() {
    let zero = PublicKey([0u8; 32]);
    assert!(StaticKeypair::generate().derive_shared_checked(&zero).is_none());
    assert_eq!(Keypair::generate().derive_shared(&zero).0, [0u8; 32]);
}
