//! REALITY-style authenticator carried in the TLS `legacy_session_id`.
//!
//! The client embeds a 32-byte token in the ClientHello's session_id: ChaCha20-Poly1305 of
//! `short_id ‖ unix_time` (8 + 8 bytes, + 16-byte tag = 32) under a key and nonce derived by
//! HKDF from `X25519(client_ephemeral, server_reality_pub)`. The server re-derives them from
//! `X25519(reality_priv, client_eph_pub)`, decrypts, and accepts the client iff the AEAD
//! verifies and the timestamp is fresh.

use crate::crypto::exchange::{to_array32, zero32, Keypair, PublicKey, StaticKeypair};
use crate::crypto::primitives::{
    aead_open, aead_seal, chacha20poly1305_open, chacha20poly1305_seal, hkdf_sha256,
    hkdf_sha256_expand, opt_vec_bytes, x25519_public_key, x25519_shared,
};
use vstd::bytes::{
    lemma_auto_spec_u64_to_from_le_bytes, spec_u64_from_le_bytes, spec_u64_to_le_bytes,
    u64_from_le_bytes, u64_to_le_bytes,
};
use vstd::prelude::*;
use vstd::string::StringSliceAdditionalSpecFns;

verus! {

/// Bytes of a short_id.
pub const SHORT_ID_LEN: usize = 8;

/// short_id(8) + unix_time u64(8).
pub const PT_LEN: usize = 16;

/// HKDF `info` of the session-id key derivation.
pub const SID_INFO: &'static str = "qeli-reality-sid-v1";

/// The 44 bytes of HKDF output a shared secret yields: key (32) then nonce (12).
pub open spec fn sid_okm(shared: Seq<u8>) -> Seq<u8> {
    hkdf_sha256(None, shared, SID_INFO.spec_bytes(), 44)
}

/// The AEAD key derived from a shared secret.
pub open spec fn sid_key(shared: Seq<u8>) -> Seq<u8> {
    sid_okm(shared).subrange(0, 32)
}

/// The AEAD nonce derived from a shared secret.
pub open spec fn sid_nonce(shared: Seq<u8>) -> Seq<u8> {
    sid_okm(shared).subrange(32, 44)
}

/// The session_id sealing `short_id` and the timestamp `ts` under a shared secret.
pub open spec fn sealed_sid(shared: Seq<u8>, short_id: Seq<u8>, ts: u64) -> Seq<u8> {
    chacha20poly1305_seal(sid_key(shared), sid_nonce(shared), short_id + spec_u64_to_le_bytes(ts))
}

/// |a - b|.
pub open spec fn abs_diff(a: u64, b: u64) -> int {
    if a >= b {
        a - b
    } else {
        b - a
    }
}

/// What the server recovers from a session_id at time `now`: the short_id, when the shared
/// secret is not the degenerate all-zero one, the AEAD verifies, the plaintext is
/// short_id ‖ timestamp, and the timestamp is within `window` seconds of `now`.
pub open spec fn opened_sid(shared: Seq<u8>, session_id: Seq<u8>, window: u64, now: u64) -> Option<
    Seq<u8>,
> {
    if shared == zero32() {
        None
    } else {
        match chacha20poly1305_open(sid_key(shared), sid_nonce(shared), session_id) {
            Some(pt) => if pt.len() == PT_LEN && abs_diff(
                now,
                spec_u64_from_le_bytes(pt.subrange(8, 16)),
            ) <= window {
                Some(pt.subrange(0, 8))
            } else {
                None
            },
            None => None,
        }
    }
}

/// The optional bytes of an optional short_id.
pub open spec fn opt_id(o: Option<[u8; SHORT_ID_LEN]>) -> Option<Seq<u8>> {
    match o {
        Some(a) => Some(a@),
        None => None,
    }
}

/// Reads the system clock as seconds since the Unix epoch (0 if the clock is before it).
/// The value is the time: nothing is claimed about it.
#[verifier::external_body]
fn now_unix() -> u64 {
    std::time::SystemTime::now().duration_since(std::time::UNIX_EPOCH).map(|d| d.as_secs()).unwrap_or(
        0,
    )
}

/// Derive the single-use AEAD key and nonce from the X25519 shared secret.
fn derive_key_nonce(shared: &[u8; 32]) -> (kn: ([u8; 32], [u8; 12]))
    ensures
        kn.0@ == sid_key(shared@),
        kn.1@ == sid_nonce(shared@),
{
    let okm = hkdf_sha256_expand(None, shared.as_slice(), SID_INFO.as_bytes(), 44);
    let key = to_array32(okm.as_slice());
    let mut nonce = [0u8; 12];
    let mut i: usize = 0;
    while i < 12
        invariant
            i <= 12,
            okm@.len() == 44,
            forall|j: int| 0 <= j < i ==> nonce@[j] == okm@[32 + j],
        decreases 12 - i,
    {
        nonce[i] = okm[32 + i];
        i = i + 1;
    }
    assert(nonce@ =~= okm@.subrange(32, 44));
    (key, nonce)
}

/// Client side, at time `now`: seal `{short_id, now}` into a 32-byte session_id using the
/// ephemeral that is also sent as the ClientHello key_share. The ephemeral must be single-use:
/// the AEAD key and nonce are derived deterministically from it.
pub fn seal_session_id_at(
    reality_pub: &PublicKey,
    ephemeral: &Keypair,
    short_id: &[u8; SHORT_ID_LEN],
    now: u64,
) -> (sid: [u8; 32])
    ensures
        sid@ == sealed_sid(x25519_shared(ephemeral.secret_spec(), reality_pub.0@), short_id@, now),
{
    let shared = ephemeral.derive_shared(reality_pub);
    let (key, nonce) = derive_key_nonce(shared.as_bytes());
    let ts = u64_to_le_bytes(now);
    let mut pt: Vec<u8> = Vec::with_capacity(PT_LEN);
    let mut i: usize = 0;
    while i < SHORT_ID_LEN
        invariant
            i <= SHORT_ID_LEN,
            pt@ == short_id@.subrange(0, i as int),
        decreases SHORT_ID_LEN - i,
    {
        pt.push(short_id[i]);
        i = i + 1;
    }
    let mut j: usize = 0;
    while j < 8
        invariant
            j <= 8,
            ts@.len() == 8,
            pt@ == short_id@ + ts@.subrange(0, j as int),
        decreases 8 - j,
    {
        pt.push(ts[j]);
        j = j + 1;
    }
    assert(short_id@.subrange(0, 8) == short_id@);
    assert(ts@.subrange(0, 8) == ts@);
    let ct = aead_seal(&key, &nonce, pt.as_slice());
    let sid = to_array32(ct.as_slice());
    assert(ct@.subrange(0, 32) =~= ct@);
    sid
}

/// Client side: seal `{short_id, now}` into a 32-byte session_id, reading the clock.
pub fn seal_session_id(
    reality_pub: &PublicKey,
    ephemeral: &Keypair,
    short_id: &[u8; SHORT_ID_LEN],
) -> (sid: [u8; 32])
    ensures
        exists|t: u64|
            sid@ == sealed_sid(
                x25519_shared(ephemeral.secret_spec(), reality_pub.0@),
                short_id@,
                t,
            ),
{
    let sid = seal_session_id_at(reality_pub, ephemeral, short_id, now_unix());
    sid
}

/// Server side, at time `now`: open the session_id with the profile's REALITY key and the
/// client's ephemeral pub (from the key_share). Returns the short_id iff the shared secret is
/// contributory, the AEAD verifies and the timestamp is within `±window_secs` of `now`.
///
/// In particular a token the holder of the ephemeral sealed for this server's public key
/// (with a contributory shared secret, at a time within the window) opens to exactly the
/// short_id it sealed.
pub fn open_session_id_at(
    reality_priv: &StaticKeypair,
    eph_pub: &PublicKey,
    session_id: &[u8; 32],
    window_secs: u64,
    now: u64,
) -> (res: Option<[u8; SHORT_ID_LEN]>)
    ensures
        opt_id(res) == opened_sid(
            x25519_shared(reality_priv.secret_spec(), eph_pub.0@),
            session_id@,
            window_secs,
            now,
        ),
        forall|eph_secret: Seq<u8>, short_id: Seq<u8>, ts: u64|
            #![trigger sealed_sid(x25519_shared(eph_secret, reality_priv.public_spec()), short_id, ts), x25519_public_key(eph_secret)]
            reality_priv.wf() && eph_secret.len() == 32 && eph_pub.0@ == x25519_public_key(
                eph_secret,
            ) && short_id.len() == SHORT_ID_LEN && session_id@ == sealed_sid(
                x25519_shared(eph_secret, reality_priv.public_spec()),
                short_id,
                ts,
            ) && x25519_shared(eph_secret, reality_priv.public_spec()) != zero32() && abs_diff(
                now,
                ts,
            ) <= window_secs ==> opt_id(res) == Some(short_id),
{
    let shared = match reality_priv.derive_shared_checked(eph_pub) {
        Some(ss) => ss,
        None => return None,
    };
    let ghost s = shared.0@;
    let (key, nonce) = derive_key_nonce(shared.as_bytes());
    let opened = aead_open(&key, &nonce, session_id.as_slice());
    proof {
        lemma_auto_spec_u64_to_from_le_bytes();
        assert forall|eph_secret: Seq<u8>, short_id: Seq<u8>, ts: u64|
            reality_priv.wf() && eph_secret.len() == 32 && eph_pub.0@ == #[trigger] x25519_public_key(
                eph_secret,
            ) && short_id.len() == SHORT_ID_LEN && session_id@ == #[trigger] sealed_sid(
                x25519_shared(eph_secret, reality_priv.public_spec()),
                short_id,
                ts,
            ) implies opt_vec_bytes(opened) == Some(short_id + spec_u64_to_le_bytes(ts)) by {
            assert(s == x25519_shared(eph_secret, reality_priv.public_spec()));
            let m = short_id + spec_u64_to_le_bytes(ts);
            assert(m.len() == 16);
            assert(session_id@ == chacha20poly1305_seal(key@, nonce@, m));
        }
    }
    let pt = match opened {
        Some(p) => p,
        None => return None,
    };
    if pt.len() != PT_LEN {
        return None;
    }
    let ts = u64_from_le_bytes(&pt.as_slice()[8..16]);
    let skew = if now >= ts {
        now - ts
    } else {
        ts - now
    };
    if skew > window_secs {
        proof {
            assert forall|eph_secret: Seq<u8>, short_id: Seq<u8>, ts2: u64|
                reality_priv.wf() && eph_secret.len() == 32 && eph_pub.0@
                    == #[trigger] x25519_public_key(eph_secret) && short_id.len() == SHORT_ID_LEN
                    && session_id@ == #[trigger] sealed_sid(
                    x25519_shared(eph_secret, reality_priv.public_spec()),
                    short_id,
                    ts2,
                ) implies abs_diff(now, ts2) > window_secs by {
                assert(pt@ == short_id + spec_u64_to_le_bytes(ts2));
                assert(pt@.subrange(8, 16) =~= spec_u64_to_le_bytes(ts2));
                assert(ts == ts2);
            }
        }
        return None;
    }
    let mut id = [0u8; SHORT_ID_LEN];
    let mut i: usize = 0;
    while i < SHORT_ID_LEN
        invariant
            i <= SHORT_ID_LEN,
            pt@.len() == PT_LEN,
            forall|j: int| 0 <= j < i ==> id@[j] == pt@[j],
        decreases SHORT_ID_LEN - i,
    {
        id[i] = pt[i];
        i = i + 1;
    }
    assert(id@ =~= pt@.subrange(0, 8));
    proof {
        assert forall|eph_secret: Seq<u8>, short_id: Seq<u8>, ts2: u64|
            reality_priv.wf() && eph_secret.len() == 32 && eph_pub.0@ == #[trigger] x25519_public_key(
                eph_secret,
            ) && short_id.len() == SHORT_ID_LEN && session_id@ == #[trigger] sealed_sid(
                x25519_shared(eph_secret, reality_priv.public_spec()),
                short_id,
                ts2,
            ) implies id@ == short_id by {
            assert(pt@ == short_id + spec_u64_to_le_bytes(ts2));
            assert(pt@.subrange(0, 8) =~= short_id);
        }
    }
    Some(id)
}

/// Server side: open the session_id against the system clock.
pub fn open_session_id(
    reality_priv: &StaticKeypair,
    eph_pub: &PublicKey,
    session_id: &[u8; 32],
    window_secs: u64,
) -> (res: Option<[u8; SHORT_ID_LEN]>)
    ensures
        exists|now: u64|
            opt_id(res) == opened_sid(
                x25519_shared(reality_priv.secret_spec(), eph_pub.0@),
                session_id@,
                window_secs,
                now,
            ),
{
    open_session_id_at(reality_priv, eph_pub, session_id, window_secs, now_unix())
}

/// An ASCII hexadecimal digit.
pub open spec fn is_hex_digit(b: u8) -> bool {
    (0x30 <= b <= 0x39) || (0x41 <= b <= 0x46) || (0x61 <= b <= 0x66)
}

/// The value of a hexadecimal digit.
pub open spec fn hex_value(b: u8) -> int {
    if b <= 0x39 {
        b - 0x30
    } else if b <= 0x46 {
        b - 0x41 + 10
    } else {
        b - 0x61 + 10
    }
}

/// The hexadecimal digits among `b`, in order; everything else is dropped.
pub open spec fn hex_digits(b: Seq<u8>) -> Seq<u8>
    decreases b.len(),
{
    if b.len() == 0 {
        seq![]
    } else if is_hex_digit(b.last()) {
        hex_digits(b.drop_last()).push(b.last())
    } else {
        hex_digits(b.drop_last())
    }
}

/// `b` without the separators `:`, `-` and space.
pub open spec fn strip_separators(b: Seq<u8>) -> Seq<u8>
    decreases b.len(),
{
    if b.len() == 0 {
        seq![]
    } else if b.last() == 0x3A || b.last() == 0x2D || b.last() == 0x20 {
        strip_separators(b.drop_last())
    } else {
        strip_separators(b.drop_last()).push(b.last())
    }
}

/// The 8 bytes the digit pairs `hex` spells, zero-padded; a trailing odd digit and digits
/// past the sixteenth are ignored.
pub open spec fn short_id_bytes(hex: Seq<u8>) -> Seq<u8> {
    Seq::new(
        SHORT_ID_LEN as nat,
        |k: int|
            if 2 * k + 1 < hex.len() {
                (hex_value(hex[2 * k]) * 16 + hex_value(hex[2 * k + 1])) as u8
            } else {
                0u8
            },
    )
}

/// The lenient parse of a short_id text: its hex digits, paired into bytes.
pub open spec fn short_id_from_hex_spec(s: Seq<u8>) -> Seq<u8> {
    short_id_bytes(hex_digits(s))
}

/// The strict parse: the lenient value, but only for non-empty text of at most 16 hex digits
/// (after `:`/`-`/space are stripped) that does not parse to all zeros.
pub open spec fn parse_short_id_spec(s: Seq<u8>) -> Option<Seq<u8>> {
    let stripped = strip_separators(s);
    if stripped.len() == 0 || stripped.len() > 2 * SHORT_ID_LEN || !(forall|i: int|
        0 <= i < stripped.len() ==> #[trigger] is_hex_digit(stripped[i])) {
        None
    } else if short_id_from_hex_spec(s) == Seq::new(SHORT_ID_LEN as nat, |i: int| 0u8) {
        None
    } else {
        Some(short_id_from_hex_spec(s))
    }
}

proof fn lemma_all_hex_kept(s: Seq<u8>)
    requires
        forall|i: int| 0 <= i < s.len() ==> #[trigger] is_hex_digit(s[i]),
    ensures
        strip_separators(s) == s,
        hex_digits(s) == s,
    decreases s.len(),
{
    if s.len() > 0 {
        let p = s.drop_last();
        assert forall|i: int| 0 <= i < p.len() implies #[trigger] is_hex_digit(p[i]) by {
            assert(p[i] == s[i]);
        }
        lemma_all_hex_kept(p);
        assert(is_hex_digit(s[s.len() - 1]));
        assert(p.push(s.last()) =~= s);
    }
}

/// Sixteen hex digits that do not spell all zeros are a valid short_id, read as the eight
/// bytes their digit pairs spell, high digit first.
pub proof fn full_short_id_is_accepted(s: Seq<u8>)
    requires
        s.len() == 2 * SHORT_ID_LEN,
        forall|i: int| 0 <= i < s.len() ==> #[trigger] is_hex_digit(s[i]),
        exists|k: int|
            0 <= k < SHORT_ID_LEN && #[trigger] (hex_value(s[2 * k]) * 16 + hex_value(s[2 * k + 1]))
                != 0,
    ensures
        parse_short_id_spec(s) matches Some(id) && id.len() == SHORT_ID_LEN && forall|k: int|
            0 <= k < SHORT_ID_LEN ==> #[trigger] id[k] == hex_value(s[2 * k]) * 16 + hex_value(
                s[2 * k + 1],
            ),
{
    lemma_all_hex_kept(s);
    let v = short_id_from_hex_spec(s);
    assert forall|k: int| 0 <= k < SHORT_ID_LEN implies #[trigger] v[k] == hex_value(s[2 * k]) * 16
        + hex_value(s[2 * k + 1]) by {
        let hi = hex_value(s[2 * k]);
        let lo = hex_value(s[2 * k + 1]);
        assert(is_hex_digit(s[2 * k]) && is_hex_digit(s[2 * k + 1]));
        assert(0 <= hi < 16 && 0 <= lo < 16);
        assert(0 <= hi * 16 + lo < 256) by (nonlinear_arith)
            requires
                0 <= hi < 16,
                0 <= lo < 16,
        ;
    }
    let k0 = choose|k: int|
        0 <= k < SHORT_ID_LEN && #[trigger] (hex_value(s[2 * k]) * 16 + hex_value(s[2 * k + 1]))
            != 0;
    assert(v[k0] != 0);
    assert(v != Seq::new(SHORT_ID_LEN as nat, |i: int| 0u8)) by {
        assert(Seq::new(SHORT_ID_LEN as nat, |i: int| 0u8)[k0] == 0);
    }
}

/// More than sixteen hex digits are never taken for a short_id, so no value is silently cut
/// short.
pub proof fn overlong_short_id_is_refused(s: Seq<u8>)
    requires
        s.len() > 2 * SHORT_ID_LEN,
        forall|i: int| 0 <= i < s.len() ==> #[trigger] is_hex_digit(s[i]),
    ensures
        parse_short_id_spec(s) is None,
{
    lemma_all_hex_kept(s);
}

fn is_hex_digit_exec(b: u8) -> (r: bool)
    ensures
        r == is_hex_digit(b),
{
    (0x30 <= b && b <= 0x39) || (0x41 <= b && b <= 0x46) || (0x61 <= b && b <= 0x66)
}

fn hex_value_exec(b: u8) -> (v: u8)
    requires
        is_hex_digit(b),
    ensures
        v == hex_value(b),
        v < 16,
{
    if b <= 0x39 {
        b - 0x30
    } else if b <= 0x46 {
        b - 0x41 + 10
    } else {
        b - 0x61 + 10
    }
}

/// The hex digits of the text's bytes.
fn collect_hex_digits(b: &[u8]) -> (hex: Vec<u8>)
    ensures
        hex@ == hex_digits(b@),
        forall|i: int| 0 <= i < hex@.len() ==> #[trigger] is_hex_digit(hex@[i]),
{
    let mut hex: Vec<u8> = Vec::new();
    let mut i: usize = 0;
    while i < b.len()
        invariant
            i <= b@.len(),
            hex@ == hex_digits(b@.subrange(0, i as int)),
            forall|j: int| 0 <= j < hex@.len() ==> #[trigger] is_hex_digit(hex@[j]),
        decreases b@.len() - i,
    {
        assert(b@.subrange(0, i + 1).drop_last() == b@.subrange(0, i as int));
        if is_hex_digit_exec(b[i]) {
            hex.push(b[i]);
        }
        i = i + 1;
    }
    assert(b@.subrange(0, b@.len() as int) == b@);
    hex
}

/// Parse a hex short_id into 8 bytes (zero-padded; extra hex ignored). LENIENT: non-hex
/// characters are dropped, so garbage collapses to all zeros. Use [`parse_short_id`]
/// anywhere the input has not already been validated.
pub fn short_id_from_hex(s: &str) -> (out: [u8; SHORT_ID_LEN])
    ensures
        out@ == short_id_from_hex_spec(s.spec_bytes()),
{
    let hex = collect_hex_digits(s.as_bytes());
    let mut out = [0u8; SHORT_ID_LEN];
    let mut i: usize = 0;
    while i / 2 < SHORT_ID_LEN && i + 1 < hex.len()
        invariant
            i % 2 == 0,
            i / 2 <= SHORT_ID_LEN,
            i <= hex@.len(),
            forall|j: int| 0 <= j < hex@.len() ==> #[trigger] is_hex_digit(hex@[j]),
            forall|k: int|
                0 <= k < SHORT_ID_LEN ==> #[trigger] out@[k] == (if k < i / 2 {
                    (hex_value(hex@[2 * k]) * 16 + hex_value(hex@[2 * k + 1])) as u8
                } else {
                    0u8
                }),
        decreases hex@.len() - i,
    {
        let hi = hex_value_exec(hex[i]);
        let lo = hex_value_exec(hex[i + 1]);
        let byte = (hi << 4) | lo;
        assert(byte == hi * 16 + lo) by (bit_vector)
            requires
                hi < 16,
                lo < 16,
                byte == (hi << 4) | lo,
        ;
        out[i / 2] = byte;
        i = i + 2;
    }
    assert(out@ =~= short_id_bytes(hex@));
    out
}

/// Strict short_id parse: `None` unless `s` is valid, usable hex. Identical to
/// [`short_id_from_hex`] on every input it accepts; rejected are a non-hex character (after
/// `:`/`-`/space are stripped), an empty value, more than 16 hex digits, and a value that
/// parses to all zeros (the wildcard the lenient parse makes of garbage).
pub fn parse_short_id(s: &str) -> (res: Option<[u8; SHORT_ID_LEN]>)
    ensures
        opt_id(res) == parse_short_id_spec(s.spec_bytes()),
        res matches Some(id) ==> id@ == short_id_from_hex_spec(s.spec_bytes()),
{
    let b = s.as_bytes();
    let mut stripped: Vec<u8> = Vec::new();
    let mut i: usize = 0;
    while i < b.len()
        invariant
            i <= b@.len(),
            stripped@ == strip_separators(b@.subrange(0, i as int)),
        decreases b@.len() - i,
    {
        assert(b@.subrange(0, i + 1).drop_last() == b@.subrange(0, i as int));
        let c = b[i];
        if !(c == 0x3A || c == 0x2D || c == 0x20) {
            stripped.push(c);
        }
        i = i + 1;
    }
    assert(b@.subrange(0, b@.len() as int) == b@);
    if stripped.len() == 0 || stripped.len() > 2 * SHORT_ID_LEN {
        return None;
    }
    let mut j: usize = 0;
    while j < stripped.len()
        invariant
            j <= stripped@.len(),
            stripped@ == strip_separators(s.spec_bytes()),
            forall|k: int| 0 <= k < j ==> #[trigger] is_hex_digit(stripped@[k]),
        decreases stripped@.len() - j,
    {
        if !is_hex_digit_exec(stripped[j]) {
            assert(!is_hex_digit(stripped@[j as int]));
            return None;
        }
        j = j + 1;
    }
    let out = short_id_from_hex(s);
    let mut all_zero = true;
    let mut k: usize = 0;
    while k < SHORT_ID_LEN
        invariant
            k <= SHORT_ID_LEN,
            all_zero == (forall|m: int| 0 <= m < k ==> out@[m] == 0),
        decreases SHORT_ID_LEN - k,
    {
        if out[k] != 0 {
            all_zero = false;
        }
        k = k + 1;
    }
    if all_zero {
        assert(out@ =~= Seq::new(SHORT_ID_LEN as nat, |i: int| 0u8));
        return None;
    }
    proof {
        if out@ == Seq::new(SHORT_ID_LEN as nat, |i: int| 0u8) {
            assert(forall|m: int| 0 <= m < SHORT_ID_LEN ==> out@[m] == 0);
        }
    }
    Some(out)
}

} // verus!
