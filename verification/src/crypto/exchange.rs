//! X25519 key pairs (ephemeral and static), the contributory-behaviour check, and the
//! HKDF-SHA256 server-authentication proof.

use crate::crypto::primitives::{
    ct_eq_bytes, hkdf_sha256, hkdf_sha256_expand, random_secret, x25519_dh, x25519_public,
    x25519_public_key, x25519_shared,
};
use vstd::prelude::*;
use vstd::string::StringSliceAdditionalSpecFns;

verus! {

/// The 32 zero bytes: the X25519 result of a low-order or identity peer key (RFC 7748 §6.1).
pub open spec fn zero32() -> Seq<u8> {
    Seq::new(32, |i: int| 0u8)
}

/// Constant-time test for a degenerate all-zero X25519 shared secret. Such a result means
/// the peer supplied a low-order / identity public key and the "shared" secret is
/// attacker-known: the handshake must abort.
fn is_all_zero(bytes: &[u8; 32]) -> (zero: bool)
    ensures
        zero == (bytes@ == zero32()),
{
    let zeros = [0u8; 32];
    let r = ct_eq_bytes(bytes.as_slice(), zeros.as_slice());
    assert(zeros@ =~= zero32());
    r
}

/// An X25519 public key.
pub struct PublicKey(pub [u8; 32]);

/// An X25519 shared secret.
pub struct SharedSecret(pub [u8; 32]);

impl Clone for PublicKey {
    fn clone(&self) -> (k: Self)
        ensures
            k.0@ == self.0@,
    {
        PublicKey(self.0)
    }
}

impl PublicKey {
    /// The key with these bytes.
    pub fn from_bytes(bytes: &[u8; 32]) -> (k: Self)
        ensures
            k.0@ == bytes@,
    {
        PublicKey(*bytes)
    }

    /// The key's bytes.
    pub fn as_bytes(&self) -> (b: &[u8; 32])
        ensures
            b@ == self.0@,
    {
        &self.0
    }
}

impl SharedSecret {
    /// The secret's bytes.
    pub fn as_bytes(&self) -> (b: &[u8; 32])
        ensures
            b@ == self.0@,
    {
        &self.0
    }
}

/// An ephemeral key pair: a secret scalar and its public key. The public key always belongs
/// to the secret.
pub struct Keypair {
    secret: [u8; 32],
    public: PublicKey,
}

impl Keypair {
    #[verifier::type_invariant]
    spec fn public_matches_secret(self) -> bool {
        self.public.0@ == x25519_public_key(self.secret@)
    }

    /// The secret scalar's bytes.
    pub closed spec fn secret_spec(self) -> Seq<u8> {
        self.secret@
    }

    /// The public key's bytes.
    pub closed spec fn public_spec(self) -> Seq<u8> {
        self.public.0@
    }

    /// A fresh key pair from the OS random generator.
    pub fn generate() -> (kp: Self)
        ensures
            kp.public_spec() == x25519_public_key(kp.secret_spec()),
            kp.secret_spec().len() == 32,
    {
        Self::from_secret_bytes(&random_secret())
    }

    /// The public key.
    pub fn public(&self) -> (p: &PublicKey)
        ensures
            p.0@ == self.public_spec(),
            self.public_spec() == x25519_public_key(self.secret_spec()),
            self.secret_spec().len() == 32,
    {
        proof {
            use_type_invariant(self);
        }
        &self.public
    }

    /// X25519(secret, peer). When the peer key belongs to some secret, its holder derives the
    /// same value from this pair's public key.
    pub fn derive_shared(&self, peer_public: &PublicKey) -> (ss: SharedSecret)
        ensures
            ss.0@ == x25519_shared(self.secret_spec(), peer_public.0@),
            forall|other: Seq<u8>|
                other.len() == 32 && peer_public.0@ == #[trigger] x25519_public_key(other)
                    ==> ss.0@ == x25519_shared(other, self.public_spec()),
            peer_public.0@ == zero32() ==> ss.0@ == zero32(),
    {
        proof {
            use_type_invariant(self);
        }
        SharedSecret(x25519_dh(&self.secret, &peer_public.0))
    }

    /// The raw secret scalar (for a client that carries an opaque key object while the
    /// arithmetic stays in this crate).
    pub fn secret_bytes(&self) -> (b: [u8; 32])
        ensures
            b@ == self.secret_spec(),
    {
        self.secret
    }

    /// Rebuild a key pair from [`Keypair::secret_bytes`]; the scalar is clamped at use time,
    /// so a round-tripped secret behaves exactly as the key it came from.
    pub fn from_secret_bytes(bytes: &[u8; 32]) -> (kp: Self)
        ensures
            kp.secret_spec() == bytes@,
            kp.public_spec() == x25519_public_key(bytes@),
    {
        let public = PublicKey(x25519_public(bytes));
        Keypair { secret: *bytes, public }
    }

    /// Like [`Keypair::derive_shared`] but `None` for a degenerate all-zero shared secret,
    /// the result of a peer sending a low-order/identity public key.
    pub fn derive_shared_checked(&self, peer_public: &PublicKey) -> (ss: Option<SharedSecret>)
        ensures
            match ss {
                Some(s) => s.0@ == x25519_shared(self.secret_spec(), peer_public.0@) && s.0@
                    != zero32(),
                None => x25519_shared(self.secret_spec(), peer_public.0@) == zero32(),
            },
            forall|other: Seq<u8>|
                other.len() == 32 && peer_public.0@ == #[trigger] x25519_public_key(other)
                    ==> match ss {
                    Some(s) => s.0@ == x25519_shared(other, self.public_spec()),
                    None => x25519_shared(other, self.public_spec()) == zero32(),
                },
            peer_public.0@ == zero32() ==> ss is None,
    {
        let ss = self.derive_shared(peer_public);
        if is_all_zero(&ss.0) {
            None
        } else {
            Some(ss)
        }
    }
}

/// A long-lived identity key pair, for server authentication.
pub struct StaticKeypair {
    secret: [u8; 32],
    pub public: PublicKey,
}

impl StaticKeypair {
    /// The secret scalar's bytes.
    pub closed spec fn secret_spec(self) -> Seq<u8> {
        self.secret@
    }

    /// The public key's bytes.
    pub closed spec fn public_spec(self) -> Seq<u8> {
        self.public.0@
    }

    /// The public key belongs to the secret.
    pub closed spec fn wf(self) -> bool {
        self.public.0@ == x25519_public_key(self.secret@)
    }

    /// A new random static key pair.
    pub fn generate() -> (kp: Self)
        ensures
            kp.wf(),
            kp.public_spec() == x25519_public_key(kp.secret_spec()),
    {
        Self::from_private_bytes(random_secret())
    }

    /// Restore from 32 raw private-key bytes (loaded from disk).
    pub fn from_private_bytes(bytes: [u8; 32]) -> (kp: Self)
        ensures
            kp.secret_spec() == bytes@,
            kp.public_spec() == x25519_public_key(bytes@),
            kp.wf(),
    {
        let public = PublicKey(x25519_public(&bytes));
        StaticKeypair { secret: bytes, public }
    }

    /// The public key.
    pub fn public(&self) -> (p: &PublicKey)
        ensures
            p.0@ == self.public_spec(),
    {
        &self.public
    }

    /// Export the raw private-key bytes for persistence.
    pub fn private_bytes(&self) -> (b: [u8; 32])
        ensures
            b@ == self.secret_spec(),
    {
        self.secret
    }

    /// X25519(static_private, peer_ephemeral_public). When the peer key belongs to some
    /// secret, its holder derives the same value from this pair's public key.
    pub fn derive_shared(&self, peer: &PublicKey) -> (ss: SharedSecret)
        ensures
            ss.0@ == x25519_shared(self.secret_spec(), peer.0@),
            self.wf() ==> forall|other: Seq<u8>|
                other.len() == 32 && peer.0@ == #[trigger] x25519_public_key(other) ==> ss.0@
                    == x25519_shared(other, self.public_spec()),
            peer.0@ == zero32() ==> ss.0@ == zero32(),
    {
        SharedSecret(x25519_dh(&self.secret, &peer.0))
    }

    /// Like [`StaticKeypair::derive_shared`] but `None` for a degenerate all-zero shared
    /// secret.
    pub fn derive_shared_checked(&self, peer: &PublicKey) -> (ss: Option<SharedSecret>)
        ensures
            match ss {
                Some(s) => s.0@ == x25519_shared(self.secret_spec(), peer.0@) && s.0@ != zero32(),
                None => x25519_shared(self.secret_spec(), peer.0@) == zero32(),
            },
            self.wf() ==> forall|other: Seq<u8>|
                other.len() == 32 && peer.0@ == #[trigger] x25519_public_key(other) ==> match ss {
                    Some(s) => s.0@ == x25519_shared(other, self.public_spec()),
                    None => x25519_shared(other, self.public_spec()) == zero32(),
                },
            peer.0@ == zero32() ==> ss is None,
    {
        let ss = self.derive_shared(peer);
        if is_all_zero(&ss.0) {
            None
        } else {
            Some(ss)
        }
    }
}

/// The HKDF `info` prefix of the server-authentication proof.
pub const AUTH_PROOF_LABEL: &'static str = "vpn-server-auth-proof-v2";

/// proof = HKDF-Expand(HKDF-Extract(salt = static_shared, ikm = ephemeral_shared),
/// info = "vpn-server-auth-proof-v2" ‖ transcript_hash, len = 32).
pub open spec fn auth_proof_spec(
    static_shared: Seq<u8>,
    ephemeral_shared: Seq<u8>,
    transcript_hash: Seq<u8>,
) -> Seq<u8> {
    hkdf_sha256(
        Some(static_shared),
        ephemeral_shared,
        AUTH_PROOF_LABEL.spec_bytes() + transcript_hash,
        32,
    )
}

/// A fresh X25519 key pair as raw bytes, `secret(32) ‖ public(32)`: the key exchange handed
/// to a client that keeps its keys as byte arrays.
pub fn key_exchange_keypair() -> (out: [u8; 64])
    ensures
        out@.subrange(32, 64) == x25519_public_key(out@.subrange(0, 32)),
{
    let kp = Keypair::generate();
    let secret = kp.secret_bytes();
    let public = kp.public();
    let mut out = [0u8; 64];
    let mut i: usize = 0;
    while i < 32
        invariant
            i <= 32,
            forall|j: int| 0 <= j < i ==> #[trigger] out@[j] == secret@[j],
            forall|j: int| 32 <= j < 32 + i ==> #[trigger] out@[j] == public.0@[j - 32],
        decreases 32 - i,
    {
        out[i] = secret[i];
        out[i + 32] = public.0[i];
        i = i + 1;
    }
    assert(out@.subrange(0, 32) =~= secret@);
    assert(out@.subrange(32, 64) =~= public.0@);
    out
}

/// The X25519 shared secret of a secret and a peer public key given as raw bytes: `None`
/// when either is not 32 bytes long, or when the result is the degenerate all-zero value of
/// a low-order/identity peer key.
pub fn key_exchange_dh(secret: &[u8], peer: &[u8]) -> (shared: Option<[u8; 32]>)
    ensures
        match shared {
            Some(s) => {
                &&& secret@.len() == 32
                &&& peer@.len() == 32
                &&& s@ == x25519_shared(secret@, peer@)
                &&& s@ != zero32()
            },
            None => secret@.len() != 32 || peer@.len() != 32 || x25519_shared(secret@, peer@)
                == zero32(),
        },
{
    if secret.len() != 32 || peer.len() != 32 {
        return None;
    }
    let sb = to_array32(secret);
    let pb = to_array32(peer);
    assert(sb@ =~= secret@);
    assert(pb@ =~= peer@);
    let kp = Keypair::from_secret_bytes(&sb);
    match kp.derive_shared_checked(&PublicKey::from_bytes(&pb)) {
        Some(ss) => Some(ss.0),
        None => None,
    }
}

/// Copy a 32-byte buffer into an array.
pub(crate) fn to_array32(v: &[u8]) -> (a: [u8; 32])
    requires
        v@.len() >= 32,
    ensures
        a@ == v@.subrange(0, 32),
{
    let mut a = [0u8; 32];
    let mut i: usize = 0;
    while i < 32
        invariant
            i <= 32,
            v@.len() >= 32,
            forall|j: int| 0 <= j < i ==> a@[j] == v@[j],
        decreases 32 - i,
    {
        a[i] = v[i];
        i = i + 1;
    }
    assert(a@ =~= v@.subrange(0, 32));
    a
}

/// HKDF-SHA256 proof that the holder of the static key produced this session, bound to the
/// handshake transcript.
pub fn compute_auth_proof(
    static_shared: &[u8; 32],
    ephemeral_shared: &[u8; 32],
    transcript_hash: &[u8; 32],
) -> (proof: [u8; 32])
    ensures
        proof@ == auth_proof_spec(static_shared@, ephemeral_shared@, transcript_hash@),
{
    let label = AUTH_PROOF_LABEL.as_bytes();
    let mut info: Vec<u8> = Vec::with_capacity(24 + 32);
    let mut i: usize = 0;
    while i < label.len()
        invariant
            i <= label@.len(),
            info@ == label@.subrange(0, i as int),
        decreases label@.len() - i,
    {
        info.push(label[i]);
        i = i + 1;
    }
    let mut j: usize = 0;
    while j < 32
        invariant
            j <= 32,
            info@ == label@ + transcript_hash@.subrange(0, j as int),
        decreases 32 - j,
    {
        info.push(transcript_hash[j]);
        j = j + 1;
    }
    assert(label@.subrange(0, label@.len() as int) == label@);
    assert(transcript_hash@.subrange(0, 32) == transcript_hash@);
    let okm = hkdf_sha256_expand(
        Some(static_shared.as_slice()),
        ephemeral_shared.as_slice(),
        info.as_slice(),
        32,
    );
    let proof = to_array32(okm.as_slice());
    assert(okm@.subrange(0, 32) =~= okm@);
    proof
}

} // verus!
