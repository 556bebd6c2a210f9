//! The cryptographic primitives this library takes from outside crates: X25519
//! (`x25519-dalek`), constant-time comparison (`subtle`), HKDF-SHA256 (`hkdf`, `sha2`) and
//! ChaCha20-Poly1305 (`chacha20poly1305`). Each is a trusted wrapper: its contract is
//! believed, not proved. The results are named, not described: what a curve multiplication,
//! a key derivation or a cipher computes is the outside crate's business.

use chacha20poly1305::aead::Aead;
use chacha20poly1305::{ChaCha20Poly1305, Key, KeyInit, Nonce};
use hkdf::Hkdf;
use sha2::Sha256;
use subtle::ConstantTimeEq;
use crate::crypto::exchange::zero32;
use vstd::prelude::*;
use x25519_dalek::{PublicKey as XPublic, StaticSecret};

verus! {

/// The X25519 public key (`x25519-dalek`'s `PublicKey::from(&StaticSecret)`) of a 32-byte
/// secret scalar.
pub uninterp spec fn x25519_public_key(secret: Seq<u8>) -> Seq<u8>;

/// The X25519 shared secret (`StaticSecret::diffie_hellman`) of a 32-byte secret scalar and
/// a 32-byte peer public key.
pub uninterp spec fn x25519_shared(secret: Seq<u8>, peer: Seq<u8>) -> Seq<u8>;

/// HKDF-SHA256 (`Hkdf::<Sha256>::new(salt, ikm)` then `expand(info)`) producing `len` bytes.
pub uninterp spec fn hkdf_sha256(salt: Option<Seq<u8>>, ikm: Seq<u8>, info: Seq<u8>, len: nat) -> Seq<
    u8,
>;

/// ChaCha20-Poly1305 encryption (ciphertext followed by the 16-byte tag, no associated data).
pub uninterp spec fn chacha20poly1305_seal(key: Seq<u8>, nonce: Seq<u8>, plaintext: Seq<u8>) -> Seq<
    u8,
>;

/// ChaCha20-Poly1305 decryption (no associated data): the plaintext, or `None` when the tag
/// does not verify.
pub uninterp spec fn chacha20poly1305_open(key: Seq<u8>, nonce: Seq<u8>, ciphertext: Seq<u8>) -> Option<
    Seq<u8>,
>;

/// The bytes of an optional buffer.
pub open spec fn opt_vec_bytes(o: Option<Vec<u8>>) -> Option<Seq<u8>> {
    match o {
        Some(v) => Some(v@),
        None => None,
    }
}

/// The bytes of an optional salt.
pub open spec fn opt_slice_bytes(o: Option<&[u8]>) -> Option<Seq<u8>> {
    match o {
        Some(v) => Some(v@),
        None => None,
    }
}

/// Calls `StaticSecret::random()` (the OS random generator) and returns its bytes. Nothing
/// is claimed about them: they are chance.
#[verifier::external_body]
pub(crate) fn random_secret() -> [u8; 32] {
    StaticSecret::random().to_bytes()
}

/// Calls `PublicKey::from(&StaticSecret::from(secret))`. Claimed: the result is
/// [`x25519_public_key`] of the secret.
#[verifier::external_body]
pub(crate) fn x25519_public(secret: &[u8; 32]) -> (public: [u8; 32])
    ensures
        public@ == x25519_public_key(secret@),
{
    XPublic::from(&StaticSecret::from(*secret)).to_bytes()
}

/// Calls `StaticSecret::from(secret).diffie_hellman(&PublicKey::from(peer))`. Claimed: the
/// result is [`x25519_shared`] of the two; the Diffie-Hellman agreement the crate documents:
/// when `peer` is the public key of some secret `other`, the holder of `other` computes the
/// same value from this secret's public key; and the all-zero peer key (u-coordinate 0, which
/// the Montgomery ladder of `mul_clamped` maps to 0) gives the all-zero result.
#[verifier::external_body]
pub(crate) fn x25519_dh(secret: &[u8; 32], peer: &[u8; 32]) -> (shared: [u8; 32])
    ensures
        shared@ == x25519_shared(secret@, peer@),
        forall|other: Seq<u8>|
            other.len() == 32 && peer@ == #[trigger] x25519_public_key(other) ==> shared@
                == x25519_shared(other, x25519_public_key(secret@)),
        peer@ == zero32() ==> shared@ == zero32(),
{
    StaticSecret::from(*secret).diffie_hellman(&XPublic::from(*peer)).to_bytes()
}

/// Calls `subtle`'s `ConstantTimeEq::ct_eq` on two byte slices. Claimed: true exactly when
/// they are equal (the crate returns false on a length mismatch).
#[verifier::external_body]
pub(crate) fn ct_eq_bytes(a: &[u8], b: &[u8]) -> (eq: bool)
    ensures
        eq == (a@ == b@),
{
    a.ct_eq(b).into()
}

/// Calls `Hkdf::<Sha256>::new(salt, ikm)` and `expand(info)` into `len` bytes. Claimed: the
/// bytes are [`hkdf_sha256`] of the inputs, and there are `len` of them. The crate refuses
/// more than 255 SHA-256 blocks, which `requires` leaves out.
#[verifier::external_body]
pub(crate) fn hkdf_sha256_expand(salt: Option<&[u8]>, ikm: &[u8], info: &[u8], len: usize) -> (okm:
    Vec<u8>)
    requires
        len <= 255 * 32,
    ensures
        okm@ == hkdf_sha256(opt_slice_bytes(salt), ikm@, info@, len as nat),
        okm@.len() == len,
{
    let mut okm = vec![0u8; len];
    Hkdf::<Sha256>::new(salt, ikm).expand(info, &mut okm).expect("HKDF output length");
    okm
}

/// Calls `ChaCha20Poly1305::new(key).encrypt(nonce, plaintext)`. Claimed: the result is
/// [`chacha20poly1305_seal`] of the inputs and is 16 bytes (the tag) longer than the
/// plaintext. The crate refuses a plaintext of 2^32 blocks or more, which `requires` leaves
/// out.
#[verifier::external_body]
pub(crate) fn aead_seal(key: &[u8; 32], nonce: &[u8; 12], plaintext: &[u8]) -> (ct: Vec<u8>)
    requires
        plaintext@.len() <= 0xffff_ffff,
    ensures
        ct@ == chacha20poly1305_seal(key@, nonce@, plaintext@),
        ct@.len() == plaintext@.len() + 16,
{
    let cipher = ChaCha20Poly1305::new(Key::from_slice(key));
    cipher.encrypt(Nonce::from_slice(nonce), plaintext).expect("plaintext within the AEAD limit")
}

/// Calls `ChaCha20Poly1305::new(key).decrypt(nonce, ciphertext)`. Claimed: the result is
/// [`chacha20poly1305_open`] of the inputs; a plaintext is 16 bytes (the tag) shorter than
/// the ciphertext; and what [`aead_seal`] produced under the same key and nonce opens to the
/// plaintext it sealed (the AEAD's documented correctness).
#[verifier::external_body]
pub(crate) fn aead_open(key: &[u8; 32], nonce: &[u8; 12], ciphertext: &[u8]) -> (pt: Option<
    Vec<u8>,
>)
    ensures
        opt_vec_bytes(pt) == chacha20poly1305_open(key@, nonce@, ciphertext@),
        pt matches Some(p) ==> p@.len() + 16 == ciphertext@.len(),
        forall|m: Seq<u8>|
            m.len() <= 0xffff_ffff && ciphertext@ == #[trigger] chacha20poly1305_seal(
                key@,
                nonce@,
                m,
            ) ==> opt_vec_bytes(pt) == Some(m),
{
    let cipher = ChaCha20Poly1305::new(Key::from_slice(key));
    cipher.decrypt(Nonce::from_slice(nonce), ciphertext).ok()
}

} // verus!
