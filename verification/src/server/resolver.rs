//! The resolver's per-query decisions: what is answered without asking anyone, which upstream
//! each attempt asks, whether it asks over TCP, what an upstream's UDP reply is worth, and
//! what of an answer is kept. The proxy's sockets and timers carry them out; its clock reads
//! nanoseconds.

use crate::protocol::ctrl::opt_bytes;
use crate::server::dns::{
    blocked_reply, cache_key, cache_lifetime_secs, cache_lifetime_spec, is_blocked,
    is_blocked_spec, restore_txid,
};
use crate::server::dns_cache::{
    age, drawn_from, is_fresh, keys_distinct, lookup_spec, store_only_adds_the_new_entry, store_spec,
    stored_answer_is_served, AnswerCache, EntryView,
};
use vstd::arithmetic::div_mod::{lemma_mod_multiples_vanish, lemma_small_mod};
use vstd::prelude::*;
use vstd::slice::slice_to_vec;
use vstd::string::StringSliceAdditionalSpecFns;

verus! {

/// Nanoseconds in a second.
pub const NANOS_PER_SEC: u64 = 1_000_000_000;

/// A cached answer given the transaction id of the query it now answers.
pub open spec fn with_txid_of(answer: Seq<u8>, query: Seq<u8>) -> Seq<u8> {
    if answer.len() >= 2 {
        answer.update(0, query[0]).update(1, query[1])
    } else {
        answer
    }
}

/// The query with its transaction id zeroed: its key in the cache.
pub open spec fn cache_key_spec(query: Seq<u8>) -> Seq<u8> {
    query.update(0, 0).update(1, 0)
}

/// What a query gets without asking an upstream: NXDOMAIN when its name is blocked, else the
/// cached answer to the same question, still fresh at `now`, under the query's own
/// transaction id; `None` means an upstream must be asked.
pub open spec fn local_answer_spec(
    query: Seq<u8>,
    blocklist: Seq<String>,
    cached: Seq<EntryView>,
    now: u64,
) -> Option<Seq<u8>> {
    if is_blocked_spec(query, blocklist) {
        Some(query.update(2, 0x81).update(3, 0x83))
    } else {
        match lookup_spec(cached, cache_key_spec(query), now) {
            Some(a) => Some(with_txid_of(a, query)),
            None => None,
        }
    }
}

/// Answer a query from the blocklist or the cache, if either can.
pub fn answer_locally(query: &[u8], blocklist: &[String], cache: &AnswerCache, now: u64) -> (r:
    Option<Vec<u8>>)
    requires
        query@.len() >= 12,
    ensures
        opt_bytes(r) == local_answer_spec(query@, blocklist@, cache@, now),
{
    if is_blocked(query, blocklist) {
        return Some(blocked_reply(query));
    }
    let key = cache_key(query);
    match cache.lookup(key.as_slice(), now) {
        Some(a) => {
            let mut a = a;
            restore_txid(&mut a, query);
            Some(a)
        },
        None => None,
    }
}

/// The upstream asked on attempt `attempt` of a query, out of `count`: the rotation starts
/// at the one that answered last (`preferred`, taken modulo `count`).
pub open spec fn upstream_order(preferred: usize, attempt: int, count: usize) -> int {
    (preferred % count + attempt) % (count as int)
}

proof fn lemma_rotation(start: int, attempt: int, count: int)
    requires
        0 <= start < count,
        0 <= attempt < count,
    ensures
        (start + attempt) % count == (if start + attempt < count {
            start + attempt
        } else {
            start + attempt - count
        }),
{
    if start + attempt < count {
        lemma_small_mod((start + attempt) as nat, count as nat);
    } else {
        lemma_mod_multiples_vanish(1, start + attempt - count, count);
        lemma_small_mod((start + attempt - count) as nat, count as nat);
    }
}

/// The index of the upstream to ask on attempt `attempt`.
pub fn upstream_index(preferred: usize, attempt: usize, count: usize) -> (i: usize)
    requires
        0 < count,
        attempt < count,
    ensures
        i == upstream_order(preferred, attempt as int, count),
        i < count,
{
    let start = preferred % count;
    proof {
        lemma_rotation(start as int, attempt as int, count as int);
    }
    if attempt < count - start {
        start + attempt
    } else {
        attempt - (count - start)
    }
}

/// Where the upstream attempts for one query stand.
#[derive(Debug, Clone, Copy, PartialEq, Eq, Structural)]
pub enum AttemptStep {
    /// Ask upstream `upstream` on attempt `attempt`.
    Ask { attempt: usize, upstream: usize },
    /// Upstream `upstream` answered; it becomes the preferred one for the next query.
    Answered { upstream: usize },
    /// Every upstream was asked and none gave an answer.
    Exhausted,
}

/// The first step for a query with `count` upstreams: ask the preferred one, or give up at
/// once when there is none.
pub fn first_attempt(preferred: usize, count: usize) -> (step: AttemptStep)
    ensures
        step == (if count == 0 {
            AttemptStep::Exhausted
        } else {
            AttemptStep::Ask { attempt: 0, upstream: upstream_order(preferred, 0, count) as usize }
        }),
{
    if count == 0 {
        AttemptStep::Exhausted
    } else {
        AttemptStep::Ask { attempt: 0, upstream: upstream_index(preferred, 0, count) }
    }
}

/// The step after attempt `attempt` of `count`: when it brought an answer, that upstream
/// answered; otherwise the next upstream of the rotation is asked, until every one has been.
pub fn after_attempt(preferred: usize, attempt: usize, count: usize, answered: bool) -> (step:
    AttemptStep)
    requires
        attempt < count,
    ensures
        step == (if answered {
            AttemptStep::Answered { upstream: upstream_order(preferred, attempt as int, count) as usize }
        } else if attempt + 1 < count {
            AttemptStep::Ask {
                attempt: (attempt + 1) as usize,
                upstream: upstream_order(preferred, attempt + 1, count) as usize,
            }
        } else {
            AttemptStep::Exhausted
        }),
{
    if answered {
        AttemptStep::Answered { upstream: upstream_index(preferred, attempt, count) }
    } else if attempt + 1 < count {
        AttemptStep::Ask {
            attempt: attempt + 1,
            upstream: upstream_index(preferred, attempt + 1, count),
        }
    } else {
        AttemptStep::Exhausted
    }
}

/// The attempt on which upstream `j` is asked.
pub open spec fn attempt_asking(preferred: usize, j: int, count: usize) -> int {
    if j >= preferred % count {
        j - preferred % count
    } else {
        j + count - preferred % count
    }
}

/// Over `count` attempts the rotation starts at the preferred upstream and asks every
/// upstream exactly once.
pub proof fn rotation_asks_every_upstream_once(preferred: usize, count: usize)
    requires
        0 < count,
    ensures
        upstream_order(preferred, 0, count) == preferred % count,
        forall|a: int, b: int|
            0 <= a < count && 0 <= b < count && a != b ==> upstream_order(preferred, a, count)
                != upstream_order(preferred, b, count),
        forall|j: int|
            0 <= j < count ==> 0 <= #[trigger] attempt_asking(preferred, j, count) < count
                && upstream_order(preferred, attempt_asking(preferred, j, count), count) == j,
{
    let start = (preferred % count) as int;
    let c = count as int;
    assert forall|a: int| 0 <= a < count implies #[trigger] upstream_order(preferred, a, count) == (
    if start + a < c {
        start + a
    } else {
        start + a - c
    }) by {
        lemma_rotation(start, a, c);
    }
    lemma_rotation(start, 0, c);
    assert forall|j: int| 0 <= j < count implies 0 <= #[trigger] attempt_asking(preferred, j, count)
        < count && upstream_order(preferred, attempt_asking(preferred, j, count), count) == j by {
        let a = attempt_asking(preferred, j, count);
        assert(upstream_order(preferred, a, count) == j);
    }
}

/// ASCII lowercase of one byte.
pub open spec fn ascii_lower(b: u8) -> u8 {
    if 0x41 <= b <= 0x5A {
        (b + 0x20) as u8
    } else {
        b
    }
}

/// The upstream protocol setting names TCP, in any ASCII case.
pub open spec fn names_tcp(p: Seq<u8>) -> bool {
    &&& p.len() == 3
    &&& ascii_lower(p[0]) == 0x74
    &&& ascii_lower(p[1]) == 0x63
    &&& ascii_lower(p[2]) == 0x70
}

fn ascii_lower_exec(b: u8) -> (r: u8)
    ensures
        r == ascii_lower(b),
{
    if 0x41 <= b && b <= 0x5A {
        b + 0x20
    } else {
        b
    }
}

/// Whether `dns.upstream_protocol` asks for every query to go upstream over TCP.
pub fn wants_tcp(protocol: &str) -> (r: bool)
    ensures
        r == names_tcp(protocol.spec_bytes()),
{
    let b = protocol.as_bytes();
    b.len() == 3 && ascii_lower_exec(b[0]) == 0x74 && ascii_lower_exec(b[1]) == 0x63
        && ascii_lower_exec(b[2]) == 0x70
}

/// What a datagram received while waiting for an upstream is worth.
#[derive(Debug, Clone, Copy, PartialEq, Eq, Structural)]
pub enum UdpReplyVerdict {
    /// Not from the resolver asked, too short, or under another transaction id: a spoof or a
    /// stale reply; keep waiting.
    Ignore,
    /// The answer.
    Accept,
    /// A truncated answer (TC set): fetch it again over TCP, and fall back to this one if
    /// that fails.
    RetryOverTcp,
}

/// Judge a datagram `reply` to `query`; `from_queried` says whether it came from the address
/// of the resolver asked.
pub fn judge_udp_reply(reply: &[u8], query: &[u8], from_queried: bool) -> (v: UdpReplyVerdict)
    requires
        query@.len() >= 2,
    ensures
        v == (if !from_queried || !(reply@.len() >= 12 && reply@[0] == query@[0] && reply@[1]
            == query@[1]) {
            UdpReplyVerdict::Ignore
        } else if reply@[2] & 0x02 != 0 {
            UdpReplyVerdict::RetryOverTcp
        } else {
            UdpReplyVerdict::Accept
        }),
        v != UdpReplyVerdict::Ignore ==> from_queried && carries_id(reply@, query@),
{
    if !from_queried || !(reply.len() >= 12 && reply[0] == query[0] && reply[1] == query[1]) {
        UdpReplyVerdict::Ignore
    } else if reply[2] & 0x02 != 0 {
        UdpReplyVerdict::RetryOverTcp
    } else {
        UdpReplyVerdict::Accept
    }
}

/// A reply carries a full header and the query's transaction id: the only kind of upstream
/// reply the resolver takes, so that a spoofed or stale one cannot poison the cache.
pub open spec fn carries_id(reply: Seq<u8>, query: Seq<u8>) -> bool {
    reply.len() >= 12 && reply[0] == query[0] && reply[1] == query[1]
}

/// The answer once a truncated UDP reply has been asked again over TCP: the TCP reply when
/// one came back carrying the query's id, the truncated one otherwise.
pub fn settle_truncated(truncated: Vec<u8>, retried: Option<Vec<u8>>, query: &[u8]) -> (answer:
    Vec<u8>)
    requires
        query@.len() >= 2,
    ensures
        answer@ == (if retried matches Some(r) && carries_id(r@, query@) {
            retried->0@
        } else {
            truncated@
        }),
        carries_id(truncated@, query@) ==> carries_id(answer@, query@),
{
    match retried {
        Some(r) => {
            if r.len() >= 12 && r[0] == query[0] && r[1] == query[1] {
                r
            } else {
                truncated
            }
        },
        None => truncated,
    }
}

/// The two-byte big-endian length prefix that frames a DNS message of `n` bytes over TCP.
pub open spec fn tcp_prefix(n: nat) -> Seq<u8> {
    seq![(n / 256) as u8, (n % 256) as u8]
}

/// A DNS message framed for TCP: its length as two big-endian bytes, then the message;
/// `None` when it is longer than a length prefix can say.
pub fn tcp_frame(msg: &[u8]) -> (framed: Option<Vec<u8>>)
    ensures
        match framed {
            Some(f) => msg@.len() <= 0xffff && f@ == tcp_prefix(msg@.len()) + msg@,
            None => msg@.len() > 0xffff,
        },
{
    let n = msg.len();
    if n > 0xffff {
        return None;
    }
    let mut f: Vec<u8> = Vec::with_capacity(2 + n);
    f.push((n / 256) as u8);
    f.push((n % 256) as u8);
    let mut i: usize = 0;
    while i < n
        invariant
            n == msg@.len(),
            n <= 0xffff,
            i <= n,
            f@ == tcp_prefix(n as nat) + msg@.subrange(0, i as int),
        decreases n - i,
    {
        f.push(msg[i]);
        assert(msg@.subrange(0, i + 1) =~= msg@.subrange(0, i as int).push(msg@[i as int]));
        i = i + 1;
    }
    assert(msg@.subrange(0, n as int) =~= msg@);
    Some(f)
}

/// The length of the DNS message that a TCP length prefix announces.
pub fn tcp_frame_len(prefix: [u8; 2]) -> (n: usize)
    ensures
        n == prefix@[0] * 256 + prefix@[1],
{
    (prefix[0] as usize) * 256 + (prefix[1] as usize)
}

/// A lifetime in seconds on the nanosecond clock, saturating.
pub open spec fn secs_to_nanos(secs: u64) -> u64 {
    if secs * NANOS_PER_SEC <= u64::MAX {
        (secs * NANOS_PER_SEC) as u64
    } else {
        u64::MAX
    }
}

/// The cache after an upstream answer to the question `key` arrives at `now`: unchanged when
/// the answer's smallest TTL is 0; otherwise the answer stored for its cache lifetime.
pub open spec fn remember_spec(
    cached: Seq<EntryView>,
    key: Seq<u8>,
    answer: Seq<u8>,
    now: u64,
    timeout_secs: u64,
    capacity: usize,
) -> Seq<EntryView> {
    match cache_lifetime_spec(answer, timeout_secs) {
        None => cached,
        Some(secs) => store_spec(cached, key, answer, now, secs_to_nanos(secs), capacity),
    }
}

/// Every cached answer holds at least a full DNS header.
pub open spec fn answers_hold_headers(cached: Seq<EntryView>) -> bool {
    forall|i: int| 0 <= i < cached.len() ==> (#[trigger] cached[i]).1.len() >= 12
}

/// Keep an upstream answer to the question `key` for as long as its records allow. Only an
/// answer taken from an upstream is kept, and every such answer carries a full header (see
/// [`carries_id`]), so the cache only ever holds answers with a header.
pub fn remember_answer(
    cache: &mut AnswerCache,
    key: Vec<u8>,
    answer: &[u8],
    now: u64,
    timeout_secs: u64,
    capacity: usize,
)
    requires
        answer@.len() >= 12,
    ensures
        final(cache)@ == remember_spec(old(cache)@, key@, answer@, now, timeout_secs, capacity),
        answers_hold_headers(old(cache)@) ==> answers_hold_headers(final(cache)@),
{
    match cache_lifetime_secs(answer, timeout_secs) {
        None => {},
        Some(secs) => {
            let lifetime = match secs.checked_mul(NANOS_PER_SEC) {
                Some(n) => n,
                None => u64::MAX,
            };
            let ghost before = cache@;
            let ghost k = key@;
            cache.store(key, slice_to_vec(answer), now, lifetime, capacity);
            proof {
                store_only_adds_the_new_entry(before, k, answer@, now, lifetime, capacity);
                if answers_hold_headers(before) {
                    let after = cache@;
                    let sp = before.push((k, answer@, now, lifetime));
                    assert forall|i: int| 0 <= i < after.len() implies (#[trigger] after[i]).1.len()
                        >= 12 by {
                        let j = choose|j: int| 0 <= j < sp.len() && sp[j] == after[i];
                        if j < before.len() {
                            assert(sp[j] == before[j]);
                        }
                    }
                }
            }
        },
    }
}

/// Whatever a query is answered without asking an upstream holds a full header and carries
/// the query's own transaction id, as long as the cache holds only answers with a header
/// (which [`remember_answer`] keeps so).
pub proof fn local_answers_carry_the_query_id(
    query: Seq<u8>,
    blocklist: Seq<String>,
    cached: Seq<EntryView>,
    now: u64,
)
    requires
        query.len() >= 12,
        answers_hold_headers(cached),
    ensures
        local_answer_spec(query, blocklist, cached, now) matches Some(r) ==> carries_id(r, query),
{
    if !is_blocked_spec(query, blocklist) {
        let key = cache_key_spec(query);
        if exists|i: int| 0 <= i < cached.len() && #[trigger] cached[i].0 == key && is_fresh(
            cached[i],
            now,
        ) {
            let i = choose|i: int|
                0 <= i < cached.len() && #[trigger] cached[i].0 == key && is_fresh(cached[i], now);
            assert(cached[i].1.len() >= 12);
        }
    }
}

/// An answer that was kept serves the same question again, under the asker's own
/// transaction id, for as long as its lifetime lasts.
pub proof fn remembered_answer_is_served_again(
    cached: Seq<EntryView>,
    first: Seq<u8>,
    again: Seq<u8>,
    blocklist: Seq<String>,
    answer: Seq<u8>,
    now: u64,
    later: u64,
    timeout_secs: u64,
    capacity: usize,
)
    requires
        keys_distinct(cached),
        0 < capacity,
        cached.len() <= capacity,
        first.len() >= 12,
        again.len() == first.len(),
        forall|i: int| 2 <= i < first.len() ==> first[i] == again[i],
        !is_blocked_spec(again, blocklist),
        cache_lifetime_spec(answer, timeout_secs) is Some,
        age(later, now) < secs_to_nanos(cache_lifetime_spec(answer, timeout_secs)->0),
    ensures
        local_answer_spec(
            again,
            blocklist,
            remember_spec(cached, cache_key_spec(first), answer, now, timeout_secs, capacity),
            later,
        ) == Some(with_txid_of(answer, again)),
{
    assert(cache_key_spec(first) =~= cache_key_spec(again));
    let secs = cache_lifetime_spec(answer, timeout_secs)->0;
    stored_answer_is_served(
        cached,
        cache_key_spec(first),
        answer,
        now,
        secs_to_nanos(secs),
        capacity,
        later,
    );
}

/// Keeping an upstream answer never takes the cache past the larger of its size and its
/// capacity, and adds nothing but that answer under its question's key, for its cache
/// lifetime; an answer whose smallest TTL is 0 leaves the cache as it was.
pub proof fn remembering_adds_only_that_answer(
    cached: Seq<EntryView>,
    key: Seq<u8>,
    answer: Seq<u8>,
    now: u64,
    timeout_secs: u64,
    capacity: usize,
)
    requires
        keys_distinct(cached),
    ensures
        ({
            let after = remember_spec(cached, key, answer, now, timeout_secs, capacity);
            &&& after.len() <= (if cached.len() > capacity {
                cached.len() as int
            } else {
                capacity as int
            })
            &&& keys_distinct(after)
            &&& match cache_lifetime_spec(answer, timeout_secs) {
                None => after == cached,
                Some(secs) => drawn_from(
                    after,
                    cached.push((key, answer, now, secs_to_nanos(secs))),
                ),
            }
        }),
{
    if let Some(secs) = cache_lifetime_spec(answer, timeout_secs) {
        store_only_adds_the_new_entry(cached, key, answer, now, secs_to_nanos(secs), capacity);
    }
}

} // verus!
