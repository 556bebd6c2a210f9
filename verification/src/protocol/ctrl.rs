//! In-tunnel control frames: small typed messages that travel as ordinary AEAD records
//! alongside the IP packets, for state neither side can express in the handshake.
//!
//! Wire: `[0xC1][0x9B][type(1)][len(1)][body(len)]`. The magic's first byte has high nibble
//! `0xC`, which is neither 4 nor 6, so a control frame can never be mistaken for an IPv4 or
//! IPv6 packet. `len` makes the frame skippable, so a peer can ignore a type it does not know.

use crate::text::{all_ascii, ascii_text, lemma_ascii_utf8, utf8_str};
use vstd::prelude::*;
use vstd::string::StringSliceAdditionalSpecFns;
use vstd::utf8::*;

verus! {

/// Frame magic. `0xC1 >> 4 == 0xC`, so it collides with neither IP version.
pub const CTRL_MAGIC: [u8; 2] = [0xC1, 0x9B];

/// magic(2) + type(1) + len(1).
pub const CTRL_HDR_LEN: usize = 4;

/// Client→server: the tunnel MTU the client settled on. Body: `[mtu(2 BE)]`.
pub const CTRL_MTU_REPORT: u8 = 1;

/// Client→server: what the client is. Body: `[ver_len(1)][version][platform]`.
/// Self-reported and not attested: diagnostics only, never a policy input.
pub const CTRL_CLIENT_INFO: u8 = 2;

/// Cap on the self-reported version string.
pub const MAX_CLIENT_VERSION_LEN: usize = 32;

/// Cap on the self-reported platform string.
pub const MAX_CLIENT_PLATFORM_LEN: usize = 16;

/// Lowest MTU believed from a peer (the IPv4 minimum reassembly buffer); lower reports are
/// clamped up.
pub const MIN_REPORTED_MTU: u16 = 576;

/// Highest MTU believed from a peer; larger reports are clamped down.
pub const MAX_REPORTED_MTU: u16 = 9000;

/// The first magic byte.
pub open spec fn magic0() -> u8 {
    0xC1u8
}

/// The second magic byte.
pub open spec fn magic1() -> u8 {
    0x9Bu8
}

/// A byte allowed in a version string: ASCII alphanumerics and `. - + _`.
pub open spec fn is_version_byte(b: u8) -> bool {
    (0x30 <= b <= 0x39) || (0x41 <= b <= 0x5A) || (0x61 <= b <= 0x7A) || b == 0x2E || b == 0x2D
        || b == 0x2B || b == 0x5F
}

/// A byte allowed in a platform tag: lowercase ASCII letters, digits and `-`.
pub open spec fn is_platform_byte(b: u8) -> bool {
    (0x61 <= b <= 0x7A) || (0x30 <= b <= 0x39) || b == 0x2D
}

/// Semver plus the punctuation real builds use, non-empty and within the cap.
pub open spec fn valid_version_bytes(b: Seq<u8>) -> bool {
    &&& 0 < b.len() <= MAX_CLIENT_VERSION_LEN
    &&& forall|i: int| 0 <= i < b.len() ==> #[trigger] is_version_byte(b[i])
}

/// A short lowercase identifier, non-empty and within the cap.
pub open spec fn valid_platform_bytes(b: Seq<u8>) -> bool {
    &&& 0 < b.len() <= MAX_CLIENT_PLATFORM_LEN
    &&& forall|i: int| 0 <= i < b.len() ==> #[trigger] is_platform_byte(b[i])
}

/// The frame of type `ty` carrying `body` (whose length must fit the one-byte `len`).
pub open spec fn frame(ty: u8, body: Seq<u8>) -> Seq<u8> {
    seq![magic0(), magic1(), ty, body.len() as u8] + body
}

/// `p` starts with a full header bearing the magic.
pub open spec fn is_ctrl_spec(p: Seq<u8>) -> bool {
    p.len() >= CTRL_HDR_LEN && p[0] == magic0() && p[1] == magic1()
}

/// `(type, body)` of a well-formed frame; `None` when the header is missing or the declared
/// length runs past the buffer. Bytes after the declared body are ignored.
pub open spec fn parse_spec(p: Seq<u8>) -> Option<(u8, Seq<u8>)> {
    if !is_ctrl_spec(p) {
        None
    } else if CTRL_HDR_LEN + p[3] <= p.len() {
        Some((p[2], p.subrange(CTRL_HDR_LEN as int, CTRL_HDR_LEN + p[3])))
    } else {
        None
    }
}

/// The MTU report frame for `mtu`: the value big-endian.
pub open spec fn mtu_report_spec(mtu: u16) -> Seq<u8> {
    frame(CTRL_MTU_REPORT, seq![(mtu / 256) as u8, (mtu % 256) as u8])
}

/// `x` clamped into `[MIN_REPORTED_MTU, MAX_REPORTED_MTU]`.
pub open spec fn clamp_mtu(x: u16) -> u16 {
    if x < MIN_REPORTED_MTU {
        MIN_REPORTED_MTU
    } else if x > MAX_REPORTED_MTU {
        MAX_REPORTED_MTU
    } else {
        x
    }
}

/// The clamped MTU an MTU-report frame carries, `None` for any other frame or a body that
/// is not exactly two bytes.
pub open spec fn parse_mtu_report_spec(p: Seq<u8>) -> Option<u16> {
    match parse_spec(p) {
        Some((ty, body)) => if ty == CTRL_MTU_REPORT && body.len() == 2 {
            Some(clamp_mtu((body[0] * 256 + body[1]) as u16))
        } else {
            None
        },
        None => None,
    }
}

/// The client-info frame for the UTF-8 bytes of a version and a platform, `None` when
/// either fails its charset or length rule.
pub open spec fn client_info_spec(version: Seq<u8>, platform: Seq<u8>) -> Option<Seq<u8>> {
    if valid_version_bytes(version) && valid_platform_bytes(platform) && 1 + version.len()
        + platform.len() <= 255 {
        Some(frame(CTRL_CLIENT_INFO, seq![version.len() as u8] + version + platform))
    } else {
        None
    }
}

/// The raw `(version, platform)` bytes a client-info frame carries, `None` when it is not
/// one, the body is empty, `ver_len` runs past the body, or a field breaks its rules.
pub open spec fn client_info_fields(p: Seq<u8>) -> Option<(Seq<u8>, Seq<u8>)> {
    match parse_spec(p) {
        Some((ty, body)) => if ty != CTRL_CLIENT_INFO || body.len() == 0 {
            None
        } else if 1 + body[0] <= body.len() {
            let v = body.subrange(1, 1 + body[0]);
            let pl = body.subrange(1 + body[0], body.len() as int);
            if valid_version_bytes(v) && valid_platform_bytes(pl) {
                Some((v, pl))
            } else {
                None
            }
        } else {
            None
        },
        None => None,
    }
}

/// The bytes of an optional frame.
pub open spec fn opt_bytes(o: Option<Vec<u8>>) -> Option<Seq<u8>> {
    match o {
        Some(v) => Some(v@),
        None => None,
    }
}

/// Bytes that pass either field rule are ASCII.
proof fn lemma_valid_fields_ascii(b: Seq<u8>)
    requires
        valid_version_bytes(b) || valid_platform_bytes(b),
    ensures
        all_ascii(b),
{
    assert forall|i: int| 0 <= i < b.len() implies #[trigger] b[i] < 128 by {
        if valid_version_bytes(b) {
            assert(is_version_byte(b[i]));
        } else {
            assert(is_platform_byte(b[i]));
        }
    }
}

fn is_version_byte_exec(b: u8) -> (r: bool)
    ensures
        r == is_version_byte(b),
{
    (0x30 <= b && b <= 0x39) || (0x41 <= b && b <= 0x5A) || (0x61 <= b && b <= 0x7A) || b == 0x2E
        || b == 0x2D || b == 0x2B || b == 0x5F
}

fn is_platform_byte_exec(b: u8) -> (r: bool)
    ensures
        r == is_platform_byte(b),
{
    (0x61 <= b && b <= 0x7A) || (0x30 <= b && b <= 0x39) || b == 0x2D
}

fn valid_version(s: &str) -> (ok: bool)
    ensures
        ok == valid_version_bytes(s.spec_bytes()),
{
    let b = s.as_bytes();
    if b.len() == 0 || b.len() > MAX_CLIENT_VERSION_LEN {
        return false;
    }
    let mut i: usize = 0;
    while i < b.len()
        invariant
            i <= b@.len(),
            b@ == s.spec_bytes(),
            forall|j: int| 0 <= j < i ==> #[trigger] is_version_byte(b@[j]),
        decreases b@.len() - i,
    {
        if !is_version_byte_exec(b[i]) {
            assert(!is_version_byte(b@[i as int]));
            return false;
        }
        i = i + 1;
    }
    true
}

fn valid_platform(s: &str) -> (ok: bool)
    ensures
        ok == valid_platform_bytes(s.spec_bytes()),
{
    let b = s.as_bytes();
    if b.len() == 0 || b.len() > MAX_CLIENT_PLATFORM_LEN {
        return false;
    }
    let mut i: usize = 0;
    while i < b.len()
        invariant
            i <= b@.len(),
            b@ == s.spec_bytes(),
            forall|j: int| 0 <= j < i ==> #[trigger] is_platform_byte(b@[j]),
        decreases b@.len() - i,
    {
        if !is_platform_byte_exec(b[i]) {
            assert(!is_platform_byte(b@[i as int]));
            return false;
        }
        i = i + 1;
    }
    true
}

fn push_all(f: &mut Vec<u8>, b: &[u8])
    ensures
        final(f)@ == old(f)@ + b@,
{
    let mut i: usize = 0;
    while i < b.len()
        invariant
            i <= b@.len(),
            f@ == old(f)@ + b@.subrange(0, i as int),
        decreases b@.len() - i,
    {
        f.push(b[i]);
        assert(b@.subrange(0, i + 1) == b@.subrange(0, i as int).push(b@[i as int]));
        i = i + 1;
    }
    assert(b@.subrange(0, b@.len() as int) == b@);
}

/// Build the client-info frame. `None` when either field violates its cap or charset; the
/// caller then sends nothing and the peer shows "unknown".
pub fn client_info(version: &str, platform: &str) -> (res: Option<Vec<u8>>)
    ensures
        opt_bytes(res) == client_info_spec(version.spec_bytes(), platform.spec_bytes()),
{
    if !valid_version(version) || !valid_platform(platform) {
        return None;
    }
    let v = version.as_bytes();
    let p = platform.as_bytes();
    let body_len = 1 + v.len() + p.len();
    if body_len > 255 {
        return None;
    }
    let mut f: Vec<u8> = Vec::with_capacity(CTRL_HDR_LEN + body_len);
    f.push(CTRL_MAGIC[0]);
    f.push(CTRL_MAGIC[1]);
    f.push(CTRL_CLIENT_INFO);
    f.push(body_len as u8);
    f.push(v.len() as u8);
    push_all(&mut f, v);
    push_all(&mut f, p);
    assert(f@ == frame(CTRL_CLIENT_INFO, seq![v@.len() as u8] + v@ + p@));
    Some(f)
}

/// Read a client-info frame as `(version, platform)`. `None` when this is not one, the body
/// is malformed, or either field fails its charset/length rule.
pub fn parse_client_info(p: &[u8]) -> (res: Option<(String, String)>)
    ensures
        match res {
            Some((v, pl)) => client_info_fields(p@) matches Some((vb, pb)) && v@ == ascii_text(vb)
                && pl@ == ascii_text(pb),
            None => client_info_fields(p@) is None,
        },
{
    let (ty, body) = match parse(p) {
        Some(x) => x,
        None => return None,
    };
    if ty != CTRL_CLIENT_INFO || body.len() == 0 {
        return None;
    }
    let vlen = body[0] as usize;
    if 1 + vlen > body.len() {
        return None;
    }
    let vb = &body[1..1 + vlen];
    let pb = &body[1 + vlen..body.len()];
    let version = match utf8_str(vb) {
        Some(s) => s,
        None => {
            proof {
                if valid_version_bytes(vb@) {
                    lemma_valid_fields_ascii(vb@);
                    lemma_ascii_utf8(vb@);
                }
            }
            return None;
        },
    };
    let platform = match utf8_str(pb) {
        Some(s) => s,
        None => {
            proof {
                if valid_platform_bytes(pb@) {
                    lemma_valid_fields_ascii(pb@);
                    lemma_ascii_utf8(pb@);
                }
            }
            return None;
        },
    };
    proof {
        decode_utf8_encode_utf8(vb@);
        decode_utf8_encode_utf8(pb@);
    }
    if !valid_version(version) || !valid_platform(platform) {
        return None;
    }
    proof {
        lemma_valid_fields_ascii(vb@);
        lemma_valid_fields_ascii(pb@);
        lemma_ascii_utf8(vb@);
        lemma_ascii_utf8(pb@);
    }
    Some((version.to_owned(), platform.to_owned()))
}

/// True if `p` (a decrypted tunnel plaintext) is a control frame rather than an IP packet.
pub fn is_ctrl(p: &[u8]) -> (r: bool)
    ensures
        r == is_ctrl_spec(p@),
{
    p.len() >= CTRL_HDR_LEN && p[0] == CTRL_MAGIC[0] && p[1] == CTRL_MAGIC[1]
}

/// Build the MTU report frame for `mtu`.
pub fn mtu_report(mtu: u16) -> (f: Vec<u8>)
    ensures
        f@ == mtu_report_spec(mtu),
{
    let mut f: Vec<u8> = Vec::with_capacity(CTRL_HDR_LEN + 2);
    f.push(CTRL_MAGIC[0]);
    f.push(CTRL_MAGIC[1]);
    f.push(CTRL_MTU_REPORT);
    f.push(2);
    f.push((mtu / 256) as u8);
    f.push((mtu % 256) as u8);
    assert(f@ == mtu_report_spec(mtu));
    f
}

/// Parse a control frame into `(type, body)`, or `None` when it is malformed. A frame whose
/// declared `len` does not fit the buffer is rejected rather than truncated.
pub fn parse(p: &[u8]) -> (res: Option<(u8, &[u8])>)
    ensures
        match res {
            Some((ty, body)) => parse_spec(p@) == Some((ty, body@)),
            None => parse_spec(p@) is None,
        },
{
    if !is_ctrl(p) {
        return None;
    }
    let ty = p[2];
    let len = p[3] as usize;
    if CTRL_HDR_LEN + len > p.len() {
        return None;
    }
    Some((ty, &p[CTRL_HDR_LEN..CTRL_HDR_LEN + len]))
}

/// Read an MTU report's value, clamped into the believable range. `None` when this is not
/// an MTU report or the body is the wrong size.
pub fn parse_mtu_report(p: &[u8]) -> (res: Option<u16>)
    ensures
        res == parse_mtu_report_spec(p@),
{
    let (ty, body) = match parse(p) {
        Some(x) => x,
        None => return None,
    };
    if ty != CTRL_MTU_REPORT || body.len() != 2 {
        return None;
    }
    let mtu: u16 = (body[0] as u16) * 256 + (body[1] as u16);
    if mtu < MIN_REPORTED_MTU {
        Some(MIN_REPORTED_MTU)
    } else if mtu > MAX_REPORTED_MTU {
        Some(MAX_REPORTED_MTU)
    } else {
        Some(mtu)
    }
}

/// An MTU report is a control frame that reads back as the reported value clamped into
/// the believable range, and is never taken for a client-info frame.
pub proof fn mtu_report_roundtrip(mtu: u16)
    ensures
        is_ctrl_spec(mtu_report_spec(mtu)),
        mtu_report_spec(mtu).len() == CTRL_HDR_LEN + 2,
        parse_spec(mtu_report_spec(mtu)) == Some(
            (CTRL_MTU_REPORT, seq![(mtu / 256) as u8, (mtu % 256) as u8]),
        ),
        parse_mtu_report_spec(mtu_report_spec(mtu)) == Some(clamp_mtu(mtu)),
        client_info_fields(mtu_report_spec(mtu)) is None,
{
    let f = mtu_report_spec(mtu);
    let body = seq![(mtu / 256) as u8, (mtu % 256) as u8];
    assert(f.subrange(4, 6) =~= body);
    assert(((mtu / 256) as u8) * 256 + ((mtu % 256) as u8) == mtu);
}

/// A client-info frame built from two valid fields is a control frame that reads back as
/// exactly those fields, and is never taken for an MTU report.
pub proof fn client_info_roundtrip(version: Seq<u8>, platform: Seq<u8>)
    requires
        valid_version_bytes(version),
        valid_platform_bytes(platform),
    ensures
        client_info_spec(version, platform) matches Some(f) && is_ctrl_spec(f)
            && client_info_fields(f) == Some((version, platform)) && parse_mtu_report_spec(f)
            is None,
{
    let body = seq![version.len() as u8] + version + platform;
    let f = frame(CTRL_CLIENT_INFO, body);
    assert(f.subrange(4, f.len() as int) =~= body);
    assert(body.subrange(1, 1 + version.len() as int) =~= version);
    assert(body.subrange(1 + version.len() as int, body.len() as int) =~= platform);
}

/// The parser holds a peer's frame to the same rules as the builder: a client-info frame
/// assembled from any two byte strings, whether or not they are valid, reads back as those
/// strings exactly when the builder would have built it, and as nothing otherwise.
pub proof fn client_info_parser_matches_builder(version: Seq<u8>, platform: Seq<u8>)
    requires
        1 + version.len() + platform.len() <= 255,
    ensures
        client_info_fields(
            frame(CTRL_CLIENT_INFO, seq![version.len() as u8] + version + platform),
        ) == (if client_info_spec(version, platform) is Some {
            Some((version, platform))
        } else {
            None
        }),
{
    let body = seq![version.len() as u8] + version + platform;
    let f = frame(CTRL_CLIENT_INFO, body);
    assert(f.subrange(4, f.len() as int) =~= body);
    assert(body.subrange(1, 1 + version.len() as int) =~= version);
    assert(body.subrange(1 + version.len() as int, body.len() as int) =~= platform);
}

/// A client-info frame built from two texts reads back as those same texts: what
/// `parse_client_info` returns for the frame that `client_info` built.
pub proof fn client_info_text_roundtrip(version: Seq<char>, platform: Seq<char>)
    requires
        client_info_spec(encode_utf8(version), encode_utf8(platform)) is Some,
    ensures
        client_info_spec(encode_utf8(version), encode_utf8(platform)) matches Some(f)
            && client_info_fields(f) matches Some((vb, pb)) && ascii_text(vb) == version
            && ascii_text(pb) == platform,
{
    let vb = encode_utf8(version);
    let pb = encode_utf8(platform);
    client_info_roundtrip(vb, pb);
    lemma_valid_fields_ascii(vb);
    lemma_valid_fields_ascii(pb);
    lemma_ascii_utf8(vb);
    lemma_ascii_utf8(pb);
    encode_utf8_decode_utf8(version);
    encode_utf8_decode_utf8(platform);
}

/// The fields the parser reads out of a frame are valid and, written as text again, build
/// that frame up to its declared end: a peer's frame is accepted only if this side could
/// have sent it.
pub proof fn parsed_client_info_rebuilds_the_frame(b: Seq<u8>)
    requires
        client_info_fields(b) is Some,
    ensures
        client_info_fields(b) matches Some((vb, pb)) && valid_version_bytes(vb)
            && valid_platform_bytes(pb) && encode_utf8(ascii_text(vb)) == vb && encode_utf8(
            ascii_text(pb),
        ) == pb && client_info_spec(vb, pb) == Some(b.subrange(0, CTRL_HDR_LEN + b[3])),
{
    let body = b.subrange(4, 4 + b[3]);
    let vb = body.subrange(1, 1 + body[0]);
    let pb = body.subrange(1 + body[0], body.len() as int);
    lemma_valid_fields_ascii(vb);
    lemma_valid_fields_ascii(pb);
    lemma_ascii_utf8(vb);
    lemma_ascii_utf8(pb);
    assert(body =~= seq![vb.len() as u8] + vb + pb);
    assert(frame(CTRL_CLIENT_INFO, body) =~= b.subrange(0, CTRL_HDR_LEN + b[3]));
}

/// Nothing whose first nibble marks an IPv4 or IPv6 header is a control frame, so the two
/// kinds of tunnel plaintext can never be confused.
pub proof fn ip_packets_are_not_ctrl(p: Seq<u8>)
    requires
        p.len() > 0,
        p[0] / 16 == 4 || p[0] / 16 == 6,
    ensures
        !is_ctrl_spec(p),
{
}

} // verus!
