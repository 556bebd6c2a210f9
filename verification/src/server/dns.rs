//! The DNS proxy's message logic: bounds-checked walkers over (attacker-influenced) DNS
//! messages, the record-derived cache lifetime, the EDNS0-governed UDP reply size and the
//! blocklist. The answer cache and the per-query decisions of the resolver are in
//! `dns_cache` and `resolver`; the sockets and the async serving loops live outside the
//! library.

use crate::text::{ascii_lowercase, chars_of, lowercase, to_lowercase, utf8_str};
use vstd::prelude::*;
use vstd::slice::slice_to_vec;
use vstd::string::StringExecFns;
use vstd::utf8::*;

verus! {

/// Most labels `skip_name` walks before giving up on a name: a malformed message must not
/// spin.
pub const MAX_NAME_LABELS: usize = 128;

/// Floor on a record-derived cache lifetime, in seconds.
pub const MIN_CACHE_TTL_SECS: u64 = 5;

/// Ceiling on a record-derived cache lifetime, in seconds.
pub const MAX_CACHE_TTL_SECS: u64 = 3600;

/// The UDP payload a client may always be sent (RFC 1035 §4.2.1).
pub const UDP_PAYLOAD_FLOOR: usize = 512;

/// The largest advertised UDP payload honoured.
pub const UDP_PAYLOAD_CEILING: usize = 4096;

/// Big-endian 16-bit value of two bytes.
pub open spec fn be16(a: u8, b: u8) -> int {
    a * 256 + b
}

/// Big-endian 32-bit value of four bytes.
pub open spec fn be32(a: u8, b: u8, c: u8, d: u8) -> int {
    a * 0x1000000 + b * 0x10000 + c * 0x100 + d
}

/// Offset just after the (possibly compressed) name at `pos`, walking at most `fuel` labels.
/// A compression pointer ends the name (it is not followed); a name running past the
/// buffer, or an offset that would overflow, is `None`.
pub open spec fn skip_name_fuel(msg: Seq<u8>, pos: int, fuel: nat) -> Option<int>
    decreases fuel,
{
    if fuel == 0 || !(0 <= pos < msg.len()) {
        None
    } else if msg[pos] & 0xC0 == 0xC0 {
        if pos + 2 <= msg.len() {
            Some(pos + 2)
        } else {
            None
        }
    } else if msg[pos] == 0 {
        Some(pos + 1)
    } else if pos + 1 + msg[pos] > usize::MAX {
        None
    } else {
        skip_name_fuel(msg, pos + 1 + msg[pos], (fuel - 1) as nat)
    }
}

/// Offset just after the name at `pos`, within the label budget.
pub open spec fn skip_name_spec(msg: Seq<u8>, pos: int) -> Option<int> {
    skip_name_fuel(msg, pos, MAX_NAME_LABELS as nat)
}

/// Offset after `n` question entries (name + QTYPE + QCLASS) starting at `pos`.
pub open spec fn skip_questions(msg: Seq<u8>, pos: int, n: nat) -> Option<int>
    decreases n,
{
    if n == 0 {
        Some(pos)
    } else {
        match skip_name_spec(msg, pos) {
            Some(p) => if p + 4 > usize::MAX {
                None
            } else {
                skip_questions(msg, p + 4, (n - 1) as nat)
            },
            None => None,
        }
    }
}

/// Offset after `n` resource records starting at `pos`; each needs its 10-byte fixed part
/// inside the buffer, and its RDATA is skipped by RDLENGTH.
pub open spec fn skip_records(msg: Seq<u8>, pos: int, n: nat) -> Option<int>
    decreases n,
{
    if n == 0 {
        Some(pos)
    } else {
        match skip_name_spec(msg, pos) {
            Some(p) => if p + 10 > msg.len() || p + 10 + be16(msg[p + 8], msg[p + 9])
                > usize::MAX {
                None
            } else {
                skip_records(msg, p + 10 + be16(msg[p + 8], msg[p + 9]), (n - 1) as nat)
            },
            None => None,
        }
    }
}

/// The smaller of `acc` and every TTL of the `n` records starting at `pos`, `None` when a
/// record is malformed: its name does not parse, or its fixed part or its RDATA runs past the
/// end of the message.
pub open spec fn records_min_ttl(msg: Seq<u8>, pos: int, n: nat, acc: int) -> Option<int>
    decreases n,
{
    if n == 0 {
        Some(acc)
    } else {
        match skip_name_spec(msg, pos) {
            Some(p) => if p + 10 > msg.len() || p + 10 + be16(msg[p + 8], msg[p + 9])
                > msg.len() {
                None
            } else {
                let ttl = be32(msg[p + 4], msg[p + 5], msg[p + 6], msg[p + 7]);
                records_min_ttl(
                    msg,
                    p + 10 + be16(msg[p + 8], msg[p + 9]),
                    (n - 1) as nat,
                    if ttl < acc {
                        ttl
                    } else {
                        acc
                    },
                )
            },
            None => None,
        }
    }
}

/// QDCOUNT of a message with a full header.
pub open spec fn qdcount(msg: Seq<u8>) -> nat {
    be16(msg[4], msg[5]) as nat
}

/// ANCOUNT of a message with a full header.
pub open spec fn ancount(msg: Seq<u8>) -> nat {
    be16(msg[6], msg[7]) as nat
}

/// NSCOUNT of a message with a full header.
pub open spec fn nscount(msg: Seq<u8>) -> nat {
    be16(msg[8], msg[9]) as nat
}

/// ARCOUNT of a message with a full header.
pub open spec fn arcount(msg: Seq<u8>) -> nat {
    be16(msg[10], msg[11]) as nat
}

/// Smallest TTL across the ANSWER section; `None` when the message is shorter than a
/// header, carries no answers, or is malformed up to the end of the answers (every answer,
/// RDATA included, must lie inside the message).
pub open spec fn answer_min_ttl_spec(msg: Seq<u8>) -> Option<int> {
    if msg.len() < 12 || ancount(msg) == 0 {
        None
    } else {
        match skip_questions(msg, 12, qdcount(msg)) {
            Some(p) => records_min_ttl(msg, p, ancount(msg), u32::MAX as int),
            None => None,
        }
    }
}

/// Offset of the first ADDITIONAL record: past the question, answer and authority sections.
pub open spec fn additional_section_start_spec(msg: Seq<u8>) -> Option<int> {
    if msg.len() < 12 {
        None
    } else {
        match skip_questions(msg, 12, qdcount(msg)) {
            Some(p) => skip_records(msg, p, ancount(msg) + nscount(msg)),
            None => None,
        }
    }
}

/// Offset just past the question section, `None` when malformed or past the end.
pub open spec fn question_section_end_spec(msg: Seq<u8>) -> Option<int> {
    if msg.len() < 12 {
        None
    } else {
        match skip_questions(msg, 12, qdcount(msg)) {
            Some(p) => if p > msg.len() {
                None
            } else {
                Some(p)
            },
            None => None,
        }
    }
}

/// `x` clamped into `[UDP_PAYLOAD_FLOOR, UDP_PAYLOAD_CEILING]`.
pub open spec fn clamp_payload(x: int) -> int {
    if x < UDP_PAYLOAD_FLOOR {
        UDP_PAYLOAD_FLOOR as int
    } else if x > UDP_PAYLOAD_CEILING {
        UDP_PAYLOAD_CEILING as int
    } else {
        x
    }
}

/// The payload size carried by the first OPT record (TYPE 41, its CLASS field) among the `n`
/// additional records at `pos`; the floor when there is none or a record is malformed.
pub open spec fn opt_payload(msg: Seq<u8>, pos: int, n: nat) -> int
    decreases n,
{
    if n == 0 {
        UDP_PAYLOAD_FLOOR as int
    } else {
        match skip_name_spec(msg, pos) {
            Some(a) => if a + 10 > msg.len() {
                UDP_PAYLOAD_FLOOR as int
            } else if be16(msg[a], msg[a + 1]) == 41 {
                clamp_payload(be16(msg[a + 2], msg[a + 3]))
            } else if a + 10 + be16(msg[a + 8], msg[a + 9]) > usize::MAX {
                UDP_PAYLOAD_FLOOR as int
            } else {
                opt_payload(msg, a + 10 + be16(msg[a + 8], msg[a + 9]), (n - 1) as nat)
            },
            None => UDP_PAYLOAD_FLOOR as int,
        }
    }
}

/// The UDP payload size the client said it can accept: its EDNS0 OPT record, or the floor
/// when it sent none or the query is malformed.
pub open spec fn advertised_udp_size_spec(query: Seq<u8>) -> int {
    match additional_section_start_spec(query) {
        Some(pos) => opt_payload(query, pos, arcount(query)),
        None => UDP_PAYLOAD_FLOOR as int,
    }
}

/// Where a truncated reply ends: after the question, or after the bare header when the
/// question cannot be located; never past the query.
pub open spec fn truncated_len(query: Seq<u8>) -> int {
    let e = match question_section_end_spec(query) {
        Some(e) => e,
        None => 12,
    };
    if e < query.len() {
        e
    } else {
        query.len() as int
    }
}

/// The TC reply for an answer too large for the client: the query's header and question with
/// QR and TC set, RCODE cleared, and ANCOUNT, NSCOUNT and ARCOUNT zeroed.
pub open spec fn truncated_reply(query: Seq<u8>) -> Seq<u8> {
    let out = query.subrange(0, truncated_len(query));
    out.update(2, out[2] | 0x80 | 0x02).update(3, out[3] & 0xF0).update(6, 0).update(7, 0).update(
        8,
        0,
    ).update(9, 0).update(10, 0).update(11, 0)
}

/// The reply sent over UDP: the answer itself when it fits what the client advertised, the
/// TC reply otherwise.
pub open spec fn udp_reply_spec(query: Seq<u8>, resp: Seq<u8>) -> Seq<u8> {
    if resp.len() <= advertised_udp_size_spec(query) {
        resp
    } else {
        truncated_reply(query)
    }
}

/// The optional integer an optional offset stands for.
pub open spec fn opt_usize(o: Option<usize>) -> Option<int> {
    match o {
        Some(x) => Some(x as int),
        None => None,
    }
}

/// The optional integer an optional TTL stands for.
pub open spec fn opt_u32(o: Option<u32>) -> Option<int> {
    match o {
        Some(x) => Some(x as int),
        None => None,
    }
}

/// A name walk never ends past the buffer.
proof fn lemma_skip_name_in_bounds(msg: Seq<u8>, pos: int, fuel: nat)
    ensures
        skip_name_fuel(msg, pos, fuel) matches Some(p) ==> p <= msg.len(),
    decreases fuel,
{
    if fuel > 0 && 0 <= pos < msg.len() && msg[pos] & 0xC0 != 0xC0 && msg[pos] != 0 && pos + 1
        + msg[pos] <= usize::MAX {
        lemma_skip_name_in_bounds(msg, pos + 1 + msg[pos], (fuel - 1) as nat);
    }
}

/// Advance past a (possibly compressed) name; returns the offset just after it.
pub fn skip_name(msg: &[u8], pos: usize) -> (res: Option<usize>)
    ensures
        opt_usize(res) == skip_name_spec(msg@, pos as int),
        res matches Some(p) ==> p <= msg@.len(),
{
    proof {
        lemma_skip_name_in_bounds(msg@, pos as int, MAX_NAME_LABELS as nat);
    }
    let mut cur = pos;
    let mut n: usize = 0;
    while n < MAX_NAME_LABELS
        invariant
            n <= MAX_NAME_LABELS,
            skip_name_fuel(msg@, cur as int, (MAX_NAME_LABELS - n) as nat) == skip_name_spec(
                msg@,
                pos as int,
            ),
        decreases MAX_NAME_LABELS - n,
    {
        if cur >= msg.len() {
            return None;
        }
        let len = msg[cur];
        if len & 0xC0 == 0xC0 {
            if msg.len() - cur >= 2 {
                return Some(cur + 2);
            }
            return None;
        }
        if len == 0 {
            return Some(cur + 1);
        }
        if cur > usize::MAX - 1 - len as usize {
            return None;
        }
        cur = cur + 1 + len as usize;
        n = n + 1;
    }
    None
}

fn read_be16(msg: &[u8], i: usize) -> (r: usize)
    requires
        i + 1 < msg@.len(),
    ensures
        r == be16(msg@[i as int], msg@[i + 1]),
        r <= 65535,
{
    (msg[i] as usize) * 256 + (msg[i + 1] as usize)
}

/// Step over `n` question entries starting at `pos`.
fn skip_question_entries(msg: &[u8], pos: usize, n: usize) -> (res: Option<usize>)
    ensures
        opt_usize(res) == skip_questions(msg@, pos as int, n as nat),
{
    let mut cur = pos;
    let mut i: usize = 0;
    while i < n
        invariant
            i <= n,
            skip_questions(msg@, cur as int, (n - i) as nat) == skip_questions(
                msg@,
                pos as int,
                n as nat,
            ),
        decreases n - i,
    {
        let p = match skip_name(msg, cur) {
            Some(p) => p,
            None => return None,
        };
        if p > usize::MAX - 4 {
            return None;
        }
        cur = p + 4;
        i = i + 1;
    }
    Some(cur)
}

/// Step over `n` resource records starting at `pos`.
fn skip_record_entries(msg: &[u8], pos: usize, n: usize) -> (res: Option<usize>)
    ensures
        opt_usize(res) == skip_records(msg@, pos as int, n as nat),
{
    let mut cur = pos;
    let mut i: usize = 0;
    while i < n
        invariant
            i <= n,
            skip_records(msg@, cur as int, (n - i) as nat) == skip_records(
                msg@,
                pos as int,
                n as nat,
            ),
        decreases n - i,
    {
        let p = match skip_name(msg, cur) {
            Some(p) => p,
            None => return None,
        };
        if msg.len() - p < 10 {
            return None;
        }
        let rdlen = read_be16(msg, p + 8);
        if p + 10 > usize::MAX - rdlen {
            return None;
        }
        cur = p + 10 + rdlen;
        i = i + 1;
    }
    Some(cur)
}

/// Smallest TTL across the ANSWER section, or `None` when the message carries no answers
/// (NXDOMAIN / NODATA) or is malformed. Only the ANSWER section is read: the OPT
/// pseudo-record in ADDITIONAL keeps extended flags in its TTL field.
pub fn answer_min_ttl(msg: &[u8]) -> (res: Option<u32>)
    ensures
        opt_u32(res) == answer_min_ttl_spec(msg@),
{
    if msg.len() < 12 {
        return None;
    }
    let qd = read_be16(msg, 4);
    let an = read_be16(msg, 6);
    if an == 0 {
        return None;
    }
    let start = match skip_question_entries(msg, 12, qd) {
        Some(p) => p,
        None => return None,
    };
    let mut pos = start;
    let mut min: u32 = u32::MAX;
    let mut i: usize = 0;
    while i < an
        invariant
            i <= an,
            an == ancount(msg@),
            msg@.len() >= 12,
            answer_min_ttl_spec(msg@) == records_min_ttl(
                msg@,
                start as int,
                an as nat,
                u32::MAX as int,
            ),
            records_min_ttl(msg@, pos as int, (an - i) as nat, min as int) == records_min_ttl(
                msg@,
                start as int,
                an as nat,
                u32::MAX as int,
            ),
        decreases an - i,
    {
        let p = match skip_name(msg, pos) {
            Some(p) => p,
            None => return None,
        };
        if msg.len() - p < 10 {
            return None;
        }
        let ttl: u32 = (msg[p + 4] as u32) * 0x1000000 + (msg[p + 5] as u32) * 0x10000 + (msg[p
            + 6] as u32) * 0x100 + (msg[p + 7] as u32);
        let rdlen = read_be16(msg, p + 8);
        if ttl < min {
            min = ttl;
        }
        if rdlen > msg.len() - p - 10 {
            return None;
        }
        pos = p + 10 + rdlen;
        i = i + 1;
    }
    Some(min)
}

/// Offset of the first ADDITIONAL record, stepping over the question, answer and authority
/// sections. `None` on anything malformed.
pub fn additional_section_start(msg: &[u8]) -> (res: Option<usize>)
    ensures
        opt_usize(res) == additional_section_start_spec(msg@),
{
    if msg.len() < 12 {
        return None;
    }
    let qd = read_be16(msg, 4);
    let an = read_be16(msg, 6);
    let ns = read_be16(msg, 8);
    let pos = match skip_question_entries(msg, 12, qd) {
        Some(p) => p,
        None => return None,
    };
    skip_record_entries(msg, pos, an + ns)
}

/// Offset just past the question section.
pub fn question_section_end(msg: &[u8]) -> (res: Option<usize>)
    ensures
        opt_usize(res) == question_section_end_spec(msg@),
{
    if msg.len() < 12 {
        return None;
    }
    let qd = read_be16(msg, 4);
    let pos = match skip_question_entries(msg, 12, qd) {
        Some(p) => p,
        None => return None,
    };
    if pos > msg.len() {
        return None;
    }
    Some(pos)
}

/// The UDP payload size the client said it can accept: its EDNS0 OPT record (clamped into
/// `[512, 4096]`), or the 512-byte floor when it sent no OPT at all or the query is
/// malformed.
pub fn advertised_udp_size(query: &[u8]) -> (size: usize)
    ensures
        size == advertised_udp_size_spec(query@),
        UDP_PAYLOAD_FLOOR <= size <= UDP_PAYLOAD_CEILING,
{
    let start = match additional_section_start(query) {
        Some(p) => p,
        None => return UDP_PAYLOAD_FLOOR,
    };
    let ar = read_be16(query, 10);
    let mut pos = start;
    let mut i: usize = 0;
    while i < ar
        invariant
            i <= ar,
            ar == arcount(query@),
            additional_section_start_spec(query@) == Some(start as int),
            opt_payload(query@, pos as int, (ar - i) as nat) == opt_payload(
                query@,
                start as int,
                ar as nat,
            ),
        decreases ar - i,
    {
        let after_name = match skip_name(query, pos) {
            Some(p) => p,
            None => return UDP_PAYLOAD_FLOOR,
        };
        if query.len() - after_name < 10 {
            return UDP_PAYLOAD_FLOOR;
        }
        let rtype = read_be16(query, after_name);
        let class = read_be16(query, after_name + 2);
        if rtype == 41 {
            if class < UDP_PAYLOAD_FLOOR {
                return UDP_PAYLOAD_FLOOR;
            } else if class > UDP_PAYLOAD_CEILING {
                return UDP_PAYLOAD_CEILING;
            } else {
                return class;
            }
        }
        let rdlen = read_be16(query, after_name + 8);
        if after_name + 10 > usize::MAX - rdlen {
            return UDP_PAYLOAD_FLOOR;
        }
        pos = after_name + 10 + rdlen;
        i = i + 1;
    }
    proof {
        lemma_opt_payload_range(query@, start as int, ar as nat);
    }
    UDP_PAYLOAD_FLOOR
}

/// Every advertised size lies in `[UDP_PAYLOAD_FLOOR, UDP_PAYLOAD_CEILING]`.
proof fn lemma_opt_payload_range(msg: Seq<u8>, pos: int, n: nat)
    ensures
        UDP_PAYLOAD_FLOOR <= opt_payload(msg, pos, n) <= UDP_PAYLOAD_CEILING,
    decreases n,
{
    if n > 0 {
        if let Some(a) = skip_name_spec(msg, pos) {
            if a + 10 <= msg.len() && be16(msg[a], msg[a + 1]) != 41 && a + 10 + be16(
                msg[a + 8],
                msg[a + 9],
            ) <= usize::MAX {
                lemma_opt_payload_range(msg, a + 10 + be16(msg[a + 8], msg[a + 9]), (n - 1) as nat);
            }
        }
    }
}

/// Cut a UDP reply down to what the client said it can take, setting TC so it knows to ask
/// again over TCP. The truncated message is header + question with all three record counts
/// zeroed, not the full reply cut short.
pub fn apply_udp_size_limit(query: &[u8], resp: Vec<u8>) -> (out: Vec<u8>)
    requires
        query@.len() >= 12 || resp@.len() <= UDP_PAYLOAD_FLOOR,
    ensures
        out@ == udp_reply_spec(query@, resp@),
{
    let limit = advertised_udp_size(query);
    if resp.len() <= limit {
        return resp;
    }
    proof {
        if query@.len() < 12 {
            assert(additional_section_start_spec(query@) is None);
        }
    }
    let e = match question_section_end(query) {
        Some(e) => e,
        None => 12,
    };
    proof {
        lemma_question_end_at_least_header(query@);
    }
    let q_end = if e < query.len() {
        e
    } else {
        query.len()
    };
    let mut out = slice_to_vec(&query[0..q_end]);
    let b2 = out[2] | 0x80 | 0x02;
    out[2] = b2;
    let b3 = out[3] & 0xF0;
    out[3] = b3;
    out[6] = 0;
    out[7] = 0;
    out[8] = 0;
    out[9] = 0;
    out[10] = 0;
    out[11] = 0;
    out
}

/// A located question section never ends inside the header.
proof fn lemma_question_end_at_least_header(msg: Seq<u8>)
    ensures
        question_section_end_spec(msg) matches Some(e) ==> e >= 12,
{
    if msg.len() >= 12 {
        lemma_skip_questions_monotone(msg, 12, qdcount(msg));
    }
}

/// Stepping over questions never moves backwards.
proof fn lemma_skip_questions_monotone(msg: Seq<u8>, pos: int, n: nat)
    ensures
        skip_questions(msg, pos, n) matches Some(e) ==> e >= pos,
    decreases n,
{
    if n > 0 {
        if let Some(p) = skip_name_spec(msg, pos) {
            lemma_skip_name_forward(msg, pos, MAX_NAME_LABELS as nat);
            if p + 4 <= usize::MAX {
                lemma_skip_questions_monotone(msg, p + 4, (n - 1) as nat);
            }
        }
    }
}

/// A name walk ends after where it started.
proof fn lemma_skip_name_forward(msg: Seq<u8>, pos: int, fuel: nat)
    ensures
        skip_name_fuel(msg, pos, fuel) matches Some(p) ==> p > pos,
    decreases fuel,
{
    if fuel > 0 && 0 <= pos < msg.len() && msg[pos] & 0xC0 != 0xC0 && msg[pos] != 0 && pos + 1
        + msg[pos] <= usize::MAX {
        lemma_skip_name_forward(msg, pos + 1 + msg[pos], (fuel - 1) as nat);
    }
}

/// An answer too large for what the client advertised comes back as a well-formed TC reply:
/// same transaction id and question count, QR and TC set, RCODE NOERROR, no records, the
/// question bytes intact; and it fits the advertised size whenever the question does.
pub proof fn oversized_answer_becomes_tc_reply(query: Seq<u8>, resp: Seq<u8>)
    requires
        query.len() >= 12,
        resp.len() > advertised_udp_size_spec(query),
    ensures
        ({
            let out = udp_reply_spec(query, resp);
            &&& out.len() >= 12
            &&& out[0] == query[0] && out[1] == query[1]
            &&& out[2] & 0x80 == 0x80
            &&& out[2] & 0x02 == 0x02
            &&& out[3] & 0x0F == 0
            &&& out[4] == query[4] && out[5] == query[5]
            &&& be16(out[6], out[7]) == 0 && be16(out[8], out[9]) == 0 && be16(out[10], out[11])
                == 0
            &&& out.subrange(12, out.len() as int) == query.subrange(12, out.len() as int)
            &&& (question_section_end_spec(query) matches Some(e) && e
                <= advertised_udp_size_spec(query) ==> out.len() <= advertised_udp_size_spec(
                query,
            ))
        }),
{
    lemma_question_end_at_least_header(query);
    let out = udp_reply_spec(query, resp);
    let b2 = query[2];
    let b3 = query[3];
    assert((b2 | 0x80u8 | 0x02u8) & 0x80u8 == 0x80u8) by (bit_vector);
    assert((b2 | 0x80u8 | 0x02u8) & 0x02u8 == 0x02u8) by (bit_vector);
    assert((b3 & 0xF0u8) & 0x0Fu8 == 0u8) by (bit_vector);
    assert(out.subrange(12, out.len() as int) =~= query.subrange(12, out.len() as int));
}

/// An answer that fits what the client advertised is forwarded byte for byte.
pub proof fn fitting_answer_is_untouched(query: Seq<u8>, resp: Seq<u8>)
    requires
        resp.len() <= advertised_udp_size_spec(query),
    ensures
        udp_reply_spec(query, resp) == resp,
{
}

/// A TC reply for an answer too large for the client carries the query's whole question:
/// whenever the question section can be located, the reply is exactly the header and that
/// section, byte for byte past the header.
pub proof fn tc_reply_carries_the_question(query: Seq<u8>, resp: Seq<u8>, e: int)
    requires
        query.len() >= 12,
        resp.len() > advertised_udp_size_spec(query),
        question_section_end_spec(query) == Some(e),
    ensures
        udp_reply_spec(query, resp).len() == e,
        udp_reply_spec(query, resp).subrange(12, e) == query.subrange(12, e),
        be16(udp_reply_spec(query, resp)[4], udp_reply_spec(query, resp)[5]) == qdcount(query),
{
    lemma_question_end_at_least_header(query);
    let out = udp_reply_spec(query, resp);
    assert(out.subrange(12, e) =~= query.subrange(12, e));
}

/// The TTL field of the record whose name starts at `pos`.
pub open spec fn record_ttl_at(msg: Seq<u8>, pos: int) -> int {
    match skip_name_spec(msg, pos) {
        Some(p) => be32(msg[p + 4], msg[p + 5], msg[p + 6], msg[p + 7]),
        None => 0,
    }
}

/// The offset of the `k`-th record of the section that starts at `start`.
pub open spec fn nth_record_at(msg: Seq<u8>, start: int, k: int) -> Option<int> {
    skip_records(msg, start, k as nat)
}

/// The TTL field of the `k`-th record of the section that starts at `start`.
pub open spec fn nth_record_ttl(msg: Seq<u8>, start: int, k: int) -> int {
    record_ttl_at(msg, nth_record_at(msg, start, k)->0)
}

proof fn lemma_records_min_ttl(msg: Seq<u8>, pos: int, n: nat, acc: int)
    requires
        msg.len() <= usize::MAX,
        records_min_ttl(msg, pos, n, acc) is Some,
    ensures
        records_min_ttl(msg, pos, n, acc)->0 <= acc,
        forall|k: int| 0 <= k < n ==> #[trigger] nth_record_at(msg, pos, k) is Some,
        forall|k: int|
            #![trigger nth_record_ttl(msg, pos, k)]
            0 <= k < n ==> records_min_ttl(msg, pos, n, acc)->0 <= nth_record_ttl(msg, pos, k),
        records_min_ttl(msg, pos, n, acc)->0 == acc || exists|k: int|
            0 <= k < n && records_min_ttl(msg, pos, n, acc)->0 == #[trigger] nth_record_ttl(
                msg,
                pos,
                k,
            ),
    decreases n,
{
    if n > 0 {
        let p = skip_name_spec(msg, pos)->0;
        let next = p + 10 + be16(msg[p + 8], msg[p + 9]);
        let ttl = be32(msg[p + 4], msg[p + 5], msg[p + 6], msg[p + 7]);
        let acc2 = if ttl < acc {
            ttl
        } else {
            acc
        };
        lemma_records_min_ttl(msg, next, (n - 1) as nat, acc2);
        let t = records_min_ttl(msg, pos, n, acc)->0;
        assert(t == records_min_ttl(msg, next, (n - 1) as nat, acc2)->0);
        assert(nth_record_at(msg, pos, 0) == Some(pos));
        assert(nth_record_ttl(msg, pos, 0) == ttl);
        assert forall|k: int|
            #![trigger nth_record_ttl(msg, pos, k)]
            #![trigger nth_record_at(msg, pos, k)]
            0 <= k < n implies (nth_record_at(msg, pos, k) is Some) && t <= nth_record_ttl(
            msg,
            pos,
            k,
        ) by {
            if k > 0 {
                assert(nth_record_at(msg, pos, k) == nth_record_at(msg, next, k - 1));
                assert(nth_record_ttl(msg, next, k - 1) == nth_record_ttl(msg, pos, k));
                assert(nth_record_at(msg, next, k - 1) is Some);
            }
            assert(nth_record_at(msg, pos, k) is Some);
        }
        if t != acc {
            if t == acc2 {
                assert(t == nth_record_ttl(msg, pos, 0));
            } else {
                let k2 = choose|k: int| 0 <= k < n - 1 && t == #[trigger] nth_record_ttl(msg, next, k);
                assert(nth_record_at(msg, pos, k2 + 1) == nth_record_at(msg, next, k2));
                assert(t == nth_record_ttl(msg, pos, k2 + 1));
            }
        }
    }
}

/// The cache lifetime read from a reply is the smallest TTL of its ANSWER section, whatever
/// the records' types: no answer record has a smaller TTL, and one of them has exactly it.
pub proof fn min_ttl_is_the_smallest_answer_ttl(msg: Seq<u8>)
    requires
        msg.len() <= usize::MAX,
        answer_min_ttl_spec(msg) is Some,
    ensures
        forall|k: int|
            0 <= k < ancount(msg) ==> #[trigger] nth_record_at(
                msg,
                skip_questions(msg, 12, qdcount(msg))->0,
                k,
            ) is Some,
        forall|k: int|
            0 <= k < ancount(msg) ==> answer_min_ttl_spec(msg)->0 <= #[trigger] nth_record_ttl(
                msg,
                skip_questions(msg, 12, qdcount(msg))->0,
                k,
            ),
        exists|k: int|
            0 <= k < ancount(msg) && answer_min_ttl_spec(msg)->0 == #[trigger] nth_record_ttl(
                msg,
                skip_questions(msg, 12, qdcount(msg))->0,
                k,
            ),
{
    let start = skip_questions(msg, 12, qdcount(msg))->0;
    lemma_records_min_ttl(msg, start, ancount(msg), u32::MAX as int);
    let t = answer_min_ttl_spec(msg)->0;
    if t == u32::MAX as int {
        assert(nth_record_ttl(msg, start, 0) <= u32::MAX as int);
        assert(t == nth_record_ttl(msg, start, 0));
    }
}

/// The labels of the query's QNAME as the blocklist reads them: a plain label walk from
/// offset 12 (no compression), stopping at the root label or where a label runs past the
/// buffer; a label that is not valid UTF-8 is skipped.
pub open spec fn qname_labels(q: Seq<u8>, pos: int) -> Seq<Seq<char>>
    decreases q.len() - pos,
{
    if pos < 0 || pos >= q.len() || q[pos] == 0 {
        seq![]
    } else if q[pos] <= q.len() - (pos + 1) {
        let label = q.subrange(pos + 1, pos + 1 + q[pos]);
        let rest = qname_labels(q, pos + 1 + q[pos]);
        if valid_utf8(label) {
            seq![decode_utf8(label)] + rest
        } else {
            rest
        }
    } else {
        seq![]
    }
}

/// Labels joined with `.`.
pub open spec fn join_dot(labels: Seq<Seq<char>>) -> Seq<char>
    decreases labels.len(),
{
    if labels.len() == 0 {
        seq![]
    } else if labels.len() == 1 {
        labels[0]
    } else {
        join_dot(labels.drop_last()) + seq!['.'] + labels.last()
    }
}

/// `domain` is `blocked` or a subdomain of it.
pub open spec fn domain_matches(domain: Seq<char>, blocked: Seq<char>) -> bool {
    ||| domain == blocked
    ||| domain.len() > blocked.len() && domain[domain.len() - blocked.len() - 1] == '.'
        && domain.subrange(domain.len() - blocked.len(), domain.len() as int) == blocked
}

/// The lowercased queried name.
pub open spec fn query_domain(q: Seq<u8>) -> Seq<char> {
    lowercase(join_dot(qname_labels(q, 12)))
}

/// The query asks for a name on the blocklist (compared case-insensitively), or for a
/// subdomain of one. An empty blocklist or a query shorter than a header blocks nothing.
pub open spec fn is_blocked_spec(q: Seq<u8>, blocklist: Seq<String>) -> bool {
    &&& blocklist.len() > 0
    &&& q.len() >= 12
    &&& exists|i: int|
        0 <= i < blocklist.len() && domain_matches(query_domain(q), lowercase(#[trigger] blocklist[i]@))
}

fn domain_matches_exec(domain: &Vec<char>, blocked: &Vec<char>) -> (r: bool)
    ensures
        r == domain_matches(domain@, blocked@),
{
    let dl = domain.len();
    let bl = blocked.len();
    if dl < bl {
        return false;
    }
    let off = dl - bl;
    let mut i: usize = 0;
    while i < bl
        invariant
            i <= bl,
            dl == domain@.len(),
            bl == blocked@.len(),
            off == dl - bl,
            forall|j: int| 0 <= j < i ==> domain@[off + j] == blocked@[j],
        decreases bl - i,
    {
        if domain[off + i] != blocked[i] {
            proof {
                assert(domain@.subrange(off as int, dl as int)[i as int] != blocked@[i as int]);
                if domain@ == blocked@ {
                    assert(off == 0);
                }
            }
            return false;
        }
        i = i + 1;
    }
    assert(domain@.subrange(off as int, dl as int) =~= blocked@);
    if dl == bl {
        assert(domain@ =~= blocked@);
        return true;
    }
    domain[off - 1] == '.'
}

/// True when the query's name is blocked: equal to a blocklist entry or a subdomain of one,
/// compared case-insensitively.
pub fn is_blocked(query: &[u8], blocklist: &[String]) -> (r: bool)
    ensures
        r == is_blocked_spec(query@, blocklist@),
        is_ascii_chars(join_dot(qname_labels(query@, 12))) && (forall|j: int|
            0 <= j < blocklist@.len() ==> is_ascii_chars(#[trigger] blocklist@[j]@)) ==> r == (
        blocklist@.len() > 0 && query@.len() >= 12 && exists|j: int|
            0 <= j < blocklist@.len() && domain_matches(
                ascii_lowercase(join_dot(qname_labels(query@, 12))),
                ascii_lowercase(#[trigger] blocklist@[j]@),
            )),
{
    if blocklist.len() == 0 || query.len() < 12 {
        return false;
    }
    let mut domain = String::new();
    let ghost mut labels: Seq<Seq<char>> = seq![];
    let mut pos: usize = 12;
    let mut done = false;
    let mut have_label = false;
    proof {
        reveal_strlit(".");
    }
    while !done && pos < query.len()
        invariant
            12 <= pos,
            labels + qname_labels(query@, pos as int) == qname_labels(query@, 12),
            done ==> qname_labels(query@, pos as int) == Seq::<Seq<char>>::empty(),
            domain@ == join_dot(labels),
            have_label == (labels.len() > 0),
            "."@ == seq!['.'],
        decreases query@.len() - pos + (if done { 0int } else { 1int }),
    {
        let label_len = query[pos] as usize;
        if label_len == 0 {
            done = true;
        } else if label_len > query.len() - (pos + 1) {
            done = true;
        } else {
            let start = pos + 1;
            let ghost old_labels = labels;
            match utf8_str(&query[start..start + label_len]) {
                Some(label) => {
                    if have_label {
                        domain.append(".");
                    }
                    domain.append(label);
                    have_label = true;
                    proof {
                        labels = labels.push(label@);
                        assert(labels.drop_last() =~= old_labels);
                        assert(seq![label@] + qname_labels(query@, start + label_len) =~= seq![
                            label@,
                        ].add(qname_labels(query@, start + label_len)));
                        assert(labels + qname_labels(query@, (start + label_len) as int) =~= old_labels + (
                        seq![label@] + qname_labels(query@, (start + label_len) as int)));
                    }
                },
                None => {},
            }
            pos = start + label_len;
        }
    }
    proof {
        if !done {
            assert(qname_labels(query@, pos as int) =~= Seq::<Seq<char>>::empty());
        }
        assert(labels =~= qname_labels(query@, 12));
    }
    let lower = to_lowercase(domain.as_str());
    let d = chars_of(lower.as_str());
    let ghost name = join_dot(qname_labels(query@, 12));
    let mut i: usize = 0;
    while i < blocklist.len()
        invariant
            i <= blocklist@.len(),
            d@ == query_domain(query@),
            name == join_dot(qname_labels(query@, 12)),
            is_ascii_chars(name) ==> query_domain(query@) == ascii_lowercase(name),
            blocklist@.len() > 0,
            query@.len() >= 12,
            forall|j: int|
                0 <= j < i ==> !domain_matches(query_domain(query@), lowercase(#[trigger] blocklist@[j]@)),
            forall|j: int|
                0 <= j < i && is_ascii_chars(blocklist@[j]@) ==> lowercase(#[trigger] blocklist@[j]@)
                    == ascii_lowercase(blocklist@[j]@),
        decreases blocklist@.len() - i,
    {
        let b = to_lowercase(blocklist[i].as_str());
        let bc = chars_of(b.as_str());
        if domain_matches_exec(&d, &bc) {
            return true;
        }
        i = i + 1;
    }
    false
}

/// The NXDOMAIN answer to a blocked query: the query itself with flags `0x81 0x83` (QR, RD,
/// RA, RCODE 3).
pub fn blocked_reply(query: &[u8]) -> (r: Vec<u8>)
    requires
        query@.len() >= 4,
    ensures
        r@ == query@.update(2, 0x81).update(3, 0x83),
{
    let mut r = slice_to_vec(query);
    r[2] = 0x81;
    r[3] = 0x83;
    r
}

/// The cache key of a query: the query with its transaction id zeroed, so the same question
/// shares one entry whatever the txid.
pub fn cache_key(query: &[u8]) -> (k: Vec<u8>)
    requires
        query@.len() >= 2,
    ensures
        k@ == query@.update(0, 0).update(1, 0),
{
    let mut k = slice_to_vec(query);
    k[0] = 0;
    k[1] = 0;
    k
}

/// Give a cached answer the transaction id of the query it now answers (an answer shorter
/// than a txid is left alone).
pub fn restore_txid(response: &mut Vec<u8>, query: &[u8])
    requires
        query@.len() >= 2,
    ensures
        final(response)@ == (if old(response)@.len() >= 2 {
            old(response)@.update(0, query@[0]).update(1, query@[1])
        } else {
            old(response)@
        }),
{
    if response.len() >= 2 {
        response[0] = query[0];
        response[1] = query[1];
    }
}

/// An upstream reply is taken only when it holds a full header and carries the query's
/// transaction id; anything else is a spoof or stale and is ignored.
pub fn reply_matches_query(reply: &[u8], query: &[u8]) -> (r: bool)
    requires
        query@.len() >= 2,
    ensures
        r == (reply@.len() >= 12 && reply@[0] == query@[0] && reply@[1] == query@[1]),
{
    reply.len() >= 12 && reply[0] == query[0] && reply[1] == query[1]
}

/// The TC bit of a reply header: the answer did not fit and must be fetched over TCP.
pub fn is_truncated(reply: &[u8]) -> (r: bool)
    requires
        reply@.len() >= 3,
    ensures
        r == (reply@[2] & 0x02 != 0),
{
    reply[2] & 0x02 != 0
}

/// How long, in seconds, a resolver answer may be cached: `None` when its smallest answer TTL
/// is 0 (do not cache, RFC 2181 §8); that TTL clamped into `[5, 3600]` otherwise; and the
/// configured network timeout when it has no answers to read a TTL from.
pub open spec fn cache_lifetime_spec(resp: Seq<u8>, timeout_secs: u64) -> Option<u64> {
    match answer_min_ttl_spec(resp) {
        Some(t) => if t == 0 {
            None
        } else if t < MIN_CACHE_TTL_SECS {
            Some(MIN_CACHE_TTL_SECS)
        } else if t > MAX_CACHE_TTL_SECS {
            Some(MAX_CACHE_TTL_SECS)
        } else {
            Some(t as u64)
        },
        None => Some(timeout_secs),
    }
}

/// The cache lifetime of a resolver answer, in seconds; `None` means answer but do not store.
pub fn cache_lifetime_secs(resp: &[u8], timeout_secs: u64) -> (r: Option<u64>)
    ensures
        r == cache_lifetime_spec(resp@, timeout_secs),
{
    match answer_min_ttl(resp) {
        Some(0) => None,
        Some(t) => {
            let secs = t as u64;
            if secs < MIN_CACHE_TTL_SECS {
                Some(MIN_CACHE_TTL_SECS)
            } else if secs > MAX_CACHE_TTL_SECS {
                Some(MAX_CACHE_TTL_SECS)
            } else {
                Some(secs)
            }
        },
        None => Some(timeout_secs),
    }
}

/// How many entries a cache still full of fresh entries evicts: a tenth of its capacity, at
/// least one.
pub open spec fn eviction_batch_spec(cache_size: usize) -> int {
    if cache_size / 10 > 1 {
        (cache_size / 10) as int
    } else {
        1
    }
}

/// How many entries to evict from a cache still full of fresh entries.
pub fn eviction_batch(cache_size: usize) -> (n: usize)
    ensures
        n == eviction_batch_spec(cache_size),
        n >= 1,
{
    let n = cache_size / 10;
    if n > 1 {
        n
    } else {
        1
    }
}

/// Two queries that differ only in their transaction id share one cache entry, and a cached
/// answer given back to a query carries that query's id.
pub proof fn cache_key_ignores_txid(a: Seq<u8>, b: Seq<u8>)
    requires
        a.len() >= 2,
        b.len() == a.len(),
        forall|i: int| 2 <= i < a.len() ==> a[i] == b[i],
    ensures
        a.update(0, 0).update(1, 0) == b.update(0, 0).update(1, 0),
{
    assert(a.update(0, 0).update(1, 0) =~= b.update(0, 0).update(1, 0));
}

} // verus!
