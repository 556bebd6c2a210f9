use qeli::server::dns_cache::AnswerCache;
use qeli::server::resolver::{
    after_attempt, first_attempt, AttemptStep,
    answer_locally, judge_udp_reply, remember_answer, settle_truncated, tcp_frame, tcp_frame_len,
    upstream_index, wants_tcp, UdpReplyVerdict, NANOS_PER_SEC,
};

/// A query for `name` (dotted) under transaction id `txid`.
fn query_for(name: &str, txid: [u8; 2]) -> Vec<u8> {
    let mut m = vec![0u8; 12];
    m[0] = txid[0];
    m[1] = txid[1];
    m[2] = 0x01;
    m[5] = 1;
    for label in name.split('.') {
        m.push(label.len() as u8);
        m.extend_from_slice(label.as_bytes());
    }
    m.push(0);
    m.extend_from_slice(&[0, 1, 0, 1]);
    m
}

/// The answer to `query` with one A record of the given TTL.
fn answer_to(query: &[u8], ttl: u32) -> Vec<u8> {
    let mut m = query.to_vec();
    m[2] = 0x81;
    m[3] = 0x80;
    m[7] = 1;
    m.extend_from_slice(&[0xC0, 0x0C, 0, 1, 0, 1]);
    m.extend_from_slice(&ttl.to_be_bytes());
    m.extend_from_slice(&[0, 4, 93, 184, 216, 34]);
    m
}

#[test]
fn a_blocked_name_is_answered_nxdomain() {
    let q = query_for("ads.example.com", [0x12, 0x34]);
    let cache = AnswerCache::new();
    let r = answer_locally(&q, &["example.com".to_string()], &cache, 0).unwrap();
    assert_eq!(&r[..2], &[0x12, 0x34]);
    assert_eq!(r[2], 0x81);
    assert_eq!(r[3], 0x83);
    assert_eq!(&r[4..], &q[4..]);
}

#[test]
fn an_unknown_question_needs_an_upstream() {
    let q = query_for("example.org", [1, 2]);
    let cache = AnswerCache::new();
    assert_eq!(answer_locally(&q, &["example.com".to_string()], &cache, 0), None);
}

#[test]
fn a_remembered_answer_serves_the_next_asker_under_its_own_txid() {
    let first = query_for("example.org", [0xAA, 0xBB]);
    let again = query_for("example.org", [0x01, 0x02]);
    let answer = answer_to(&first, 300);
    let mut cache = AnswerCache::new();
    remember_answer(&mut cache, qeli::server::dns::cache_key(&first), &answer, 0, 5, 16);
    let served = answer_locally(&again, &[], &cache, 299 * NANOS_PER_SEC).unwrap();
    assert_eq!(&served[..2], &[0x01, 0x02]);
    assert_eq!(&served[2..], &answer[2..]);
    // Past the record's TTL the cache no longer answers.
    assert_eq!(answer_locally(&again, &[], &cache, 300 * NANOS_PER_SEC), None);
}

#[test]
fn an_answer_with_ttl_zero_is_not_remembered() {
    let q = query_for("example.org", [1, 1]);
    let mut cache = AnswerCache::new();
    remember_answer(&mut cache, qeli::server::dns::cache_key(&q), &answer_to(&q, 0), 0, 5, 16);
    assert_eq!(cache.len(), 0);
    assert_eq!(answer_locally(&q, &[], &cache, 0), None);
}

#[test]
fn a_short_ttl_is_kept_for_the_floor_and_no_answer_for_the_timeout() {
    let q = query_for("example.org", [1, 1]);
    let mut cache = AnswerCache::new();
    remember_answer(&mut cache, qeli::server::dns::cache_key(&q), &answer_to(&q, 1), 0, 5, 16);
    assert!(answer_locally(&q, &[], &cache, 4 * NANOS_PER_SEC).is_some());
    assert_eq!(answer_locally(&q, &[], &cache, 5 * NANOS_PER_SEC), None);

    // NODATA: no answer records, so the configured timeout is the lifetime.
    let q2 = query_for("example.net", [2, 2]);
    let mut nodata = q2.clone();
    nodata[2] = 0x81;
    nodata[3] = 0x80;
    remember_answer(&mut cache, qeli::server::dns::cache_key(&q2), &nodata, 0, 7, 16);
    assert!(answer_locally(&q2, &[], &cache, 6 * NANOS_PER_SEC).is_some());
    assert_eq!(answer_locally(&q2, &[], &cache, 7 * NANOS_PER_SEC), None);
}

#[test]
fn the_rotation_starts_at_the_preferred_upstream() {
    assert_eq!(upstream_index(5, 0, 3), 2);
    assert_eq!(upstream_index(5, 1, 3), 0);
    assert_eq!(upstream_index(5, 2, 3), 1);
    assert_eq!(upstream_index(0, 0, 1), 0);
    assert_eq!(upstream_index(usize::MAX, 1, 2), 0);
}

#[test]
fn the_rotation_asks_every_upstream_once() {
    for count in 1..8usize {
        for preferred in 0..20usize {
            let mut seen: Vec<usize> = (0..count).map(|a| upstream_index(preferred, a, count)).collect();
            assert_eq!(seen[0], preferred % count);
            seen.sort_unstable();
            assert_eq!(seen, (0..count).collect::<Vec<_>>());
        }
    }
}

#[test]
fn tcp_is_chosen_in_any_case() {
    assert!(wants_tcp("tcp"));
    assert!(wants_tcp("TCP"));
    assert!(wants_tcp("Tcp"));
    assert!(!wants_tcp("udp"));
    assert!(!wants_tcp("tcp "));
    assert!(!wants_tcp(""));
    assert!(!wants_tcp("tc"));
}

#[test]
fn udp_replies_are_judged_by_source_txid_and_tc() {
    let q = query_for("example.org", [0xAA, 0xBB]);
    let a = answer_to(&q, 60);
    assert_eq!(judge_udp_reply(&a, &q, true), UdpReplyVerdict::Accept);
    assert_eq!(judge_udp_reply(&a, &q, false), UdpReplyVerdict::Ignore);
    let mut spoof = a.clone();
    spoof[1] ^= 1;
    assert_eq!(judge_udp_reply(&spoof, &q, true), UdpReplyVerdict::Ignore);
    assert_eq!(judge_udp_reply(&a[..11], &q, true), UdpReplyVerdict::Ignore);
    let mut tc = a.clone();
    tc[2] |= 0x02;
    assert_eq!(judge_udp_reply(&tc, &q, true), UdpReplyVerdict::RetryOverTcp);
}

#[test]
fn a_tcp_retry_is_taken_only_under_the_query_id() {
    let q = query_for("example.org", [0xAA, 0xBB]);
    let mut truncated = answer_to(&q, 60);
    truncated[2] |= 0x02;
    let full = answer_to(&q, 60);
    assert_eq!(settle_truncated(truncated.clone(), Some(full.clone()), &q), full);
    let mut spoof = full.clone();
    spoof[0] ^= 0xFF;
    assert_eq!(settle_truncated(truncated.clone(), Some(spoof), &q), truncated);
    assert_eq!(settle_truncated(truncated.clone(), Some(full[..11].to_vec()), &q), truncated);
    assert_eq!(settle_truncated(truncated.clone(), None, &q), truncated);
}

#[test]
fn tcp_framing_is_a_big_endian_length_prefix() {
    assert_eq!(tcp_frame(&[7, 8, 9]), Some(vec![0, 3, 7, 8, 9]));
    let big = vec![1u8; 300];
    let f = tcp_frame(&big).unwrap();
    assert_eq!(&f[..2], &[1, 44]);
    assert_eq!(&f[2..], &big[..]);
    assert_eq!(tcp_frame(&vec![0u8; 65535]).map(|f| f.len()), Some(65537));
    assert_eq!(tcp_frame(&vec![0u8; 65536]), None);
    assert_eq!(tcp_frame_len([1, 44]), 300);
    assert_eq!(tcp_frame_len([0xFF, 0xFF]), 65535);
}

#[test]
fn the_attempt_loop_follows_the_rotation_and_prefers_who_answered() {
    assert_eq!(first_attempt(4, 0), AttemptStep::Exhausted);
    assert_eq!(first_attempt(4, 3), AttemptStep::Ask { attempt: 0, upstream: 1 });
    assert_eq!(after_attempt(4, 0, 3, false), AttemptStep::Ask { attempt: 1, upstream: 2 });
    assert_eq!(after_attempt(4, 1, 3, false), AttemptStep::Ask { attempt: 2, upstream: 0 });
    assert_eq!(after_attempt(4, 2, 3, false), AttemptStep::Exhausted);
    assert_eq!(after_attempt(4, 1, 3, true), AttemptStep::Answered { upstream: 2 });
}

#[test]
fn a_blocklist_entry_matches_in_any_ascii_case() {
    let q = query_for("WWW.Example.COM", [9, 9]);
    assert!(qeli::server::dns::is_blocked(&q, &["EXAMPLE.com".to_string()]));
    assert!(!qeli::server::dns::is_blocked(&q, &["ample.com".to_string()]));
}
