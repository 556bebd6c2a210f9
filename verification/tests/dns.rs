use qeli::server::dns::{
    additional_section_start, advertised_udp_size, answer_min_ttl, apply_udp_size_limit,
    blocked_reply, cache_key, cache_lifetime_secs, eviction_batch, is_blocked, is_truncated,
    question_section_end, reply_matches_query, restore_txid, skip_name,
};

/// A minimal DNS response: one question, `answers` A-records with the given TTLs.
fn response(ttls: &[u32], compressed_names: bool) -> Vec<u8> {
    let mut m = vec![0u8; 12];
    m[0] = 0xAB;
    m[1] = 0xCD;
    m[2] = 0x81;
    m[3] = 0x80;
    m[4] = 0;
    m[5] = 1;
    m[6] = 0;
    m[7] = ttls.len() as u8;
    m.extend_from_slice(&[7]);
    m.extend_from_slice(b"example");
    m.extend_from_slice(&[3]);
    m.extend_from_slice(b"com");
    m.push(0);
    m.extend_from_slice(&[0, 1, 0, 1]);
    for ttl in ttls {
        if compressed_names {
            m.extend_from_slice(&[0xC0, 0x0C]);
        } else {
            m.extend_from_slice(&[7]);
            m.extend_from_slice(b"example");
            m.extend_from_slice(&[3]);
            m.extend_from_slice(b"com");
            m.push(0);
        }
        m.extend_from_slice(&[0, 1, 0, 1]);
        m.extend_from_slice(&ttl.to_be_bytes());
        m.extend_from_slice(&[0, 4]);
        m.extend_from_slice(&[93, 184, 216, 34]);
    }
    m
}

/// A query with no OPT record, or one advertising `payload` bytes via EDNS0.
fn query(payload: Option<u16>) -> Vec<u8> {
    let mut m = vec![0u8; 12];
    m[0] = 0xAB;
    m[1] = 0xCD;
    m[5] = 1;
    m.extend_from_slice(&[7]);
    m.extend_from_slice(b"example");
    m.extend_from_slice(&[3]);
    m.extend_from_slice(b"com");
    m.push(0);
    m.extend_from_slice(&[0, 1, 0, 1]);
    if let Some(size) = payload {
        m[11] = 1;
        m.push(0);
        m.extend_from_slice(&[0, 41]);
        m.extend_from_slice(&size.to_be_bytes());
        m.extend_from_slice(&[0, 0, 0, 0]);
        m.extend_from_slice(&[0, 0]);
    }
    m
}

/// A query for `name` (dotted), with no compression.
fn query_for(name: &str) -> Vec<u8> {
    let mut m = vec![0u8; 12];
    m[5] = 1;
    for label in name.split('.') {
        m.push(label.len() as u8);
        m.extend_from_slice(label.as_bytes());
    }
    m.push(0);
    m.extend_from_slice(&[0, 1, 0, 1]);
    m
}

#[test]
fn reads_the_smallest_answer_ttl() {
    assert_eq!(answer_min_ttl(&response(&[300], false)), Some(300));
    assert_eq!(answer_min_ttl(&response(&[300, 60, 900], false)), Some(60));
}

#[test]
fn follows_compressed_names() {
    assert_eq!(answer_min_ttl(&response(&[120, 45], true)), Some(45));
}

#[test]
fn no_answers_yields_none() {
    assert_eq!(answer_min_ttl(&response(&[], false)), None);
}

#[test]
fn malformed_input_never_panics() {
    let full = response(&[300, 60], true);
    for cut in 0..full.len() {
        let _ = answer_min_ttl(&full[..cut]);
    }
    let mut lying = response(&[300], false);
    lying[7] = 200;
    assert_eq!(answer_min_ttl(&lying), None);
    let mut runaway = response(&[300], false);
    let qname = 12;
    runaway[qname] = 0xFF;
    assert_eq!(answer_min_ttl(&runaway), None);
    let mut looped = response(&[300], true);
    looped[12] = 0xC0;
    looped[13] = 0x0C;
    let _ = answer_min_ttl(&looped);
    assert_eq!(answer_min_ttl(&[]), None);
    assert_eq!(answer_min_ttl(&[0u8; 11]), None);
}

#[test]
fn ttl_zero_is_distinguishable() {
    assert_eq!(answer_min_ttl(&response(&[0], false)), Some(0));
}

#[test]
fn the_advertised_udp_size_comes_from_the_opt_record() {
    assert_eq!(advertised_udp_size(&query(None)), 512);
    assert_eq!(advertised_udp_size(&query(Some(1232))), 1232);
    assert_eq!(advertised_udp_size(&query(Some(128))), 512);
    assert_eq!(advertised_udp_size(&query(Some(65535))), 4096);
    let full = query(Some(4096));
    for cut in 0..full.len() {
        let _ = advertised_udp_size(&full[..cut]);
    }
}

#[test]
fn an_oversized_answer_is_truncated_with_tc_set() {
    let q = query(Some(512));
    let small = response(&[300], true);
    assert!(small.len() <= 512);
    assert_eq!(apply_udp_size_limit(&q, small.clone()), small);

    let big = response(&[300; 40], true);
    assert!(big.len() > 512);
    let out = apply_udp_size_limit(&q, big);
    assert!(out.len() <= 512, "the reply must fit what the client advertised");
    assert_eq!(&out[0..2], &q[0..2], "the txid must match the query");
    assert_eq!(out[2] & 0x80, 0x80, "QR must say this is a response");
    assert_eq!(out[2] & 0x02, 0x02, "TC must be set");
    assert_eq!(out[3] & 0x0F, 0, "RCODE must stay NOERROR");
    assert_eq!(u16::from_be_bytes([out[4], out[5]]), 1, "the question is carried, so QDCOUNT stays 1");
    for (label, off) in [("ANCOUNT", 6), ("NSCOUNT", 8), ("ARCOUNT", 10)] {
        assert_eq!(
            u16::from_be_bytes([out[off], out[off + 1]]),
            0,
            "{label} must be zero — no records are carried"
        );
    }
    assert_eq!(&out[12..], &q[12..12 + (out.len() - 12)]);

    let big = response(&[300; 40], true);
    let roomy = query(Some(4096));
    assert!(big.len() <= 4096);
    assert_eq!(apply_udp_size_limit(&roomy, big.clone()), big);
}

#[test]
fn name_walks_stop_at_pointers_roots_and_the_buffer_end() {
    let r = response(&[300], true);
    assert_eq!(skip_name(&r, 12), Some(12 + 13));
    assert_eq!(skip_name(&r, 12 + 13 + 4), Some(12 + 13 + 4 + 2));
    assert_eq!(skip_name(&r, r.len()), None);
    assert_eq!(skip_name(&[0xC0], 0), None);
    assert_eq!(skip_name(&[3, b'a', b'b'], 0), None);
    // 128 one-byte labels without a root never end.
    let long = vec![1u8; 400];
    assert_eq!(skip_name(&long, 0), None);
}

#[test]
fn section_offsets() {
    let q = query(Some(1232));
    assert_eq!(question_section_end(&q), Some(12 + 13 + 4));
    assert_eq!(additional_section_start(&q), Some(12 + 13 + 4));
    assert_eq!(question_section_end(&[0u8; 11]), None);
    let mut broken = query(None);
    broken[5] = 2;
    assert_eq!(question_section_end(&broken), None);
}

#[test]
fn an_answer_without_a_locatable_question_truncates_to_the_header() {
    let mut q = query(None);
    q[5] = 9; // claims nine questions
    let big = response(&[300; 40], true);
    let out = apply_udp_size_limit(&q, big);
    assert_eq!(out.len(), 12);
    assert_eq!(out[2] & 0x82, 0x82);
}

#[test]
fn blocklist_matches_names_and_subdomains_case_insensitively() {
    let bl = vec!["Ads.Example".to_string(), "tracker.net".to_string()];
    assert!(is_blocked(&query_for("ads.example"), &bl));
    assert!(is_blocked(&query_for("x.y.ADS.example"), &bl));
    assert!(is_blocked(&query_for("tracker.net"), &bl));
    assert!(!is_blocked(&query_for("badads.example"), &bl));
    assert!(!is_blocked(&query_for("example"), &bl));
    assert!(!is_blocked(&query_for("tracker.net.evil"), &bl));
    assert!(!is_blocked(&query_for("ads.example"), &[]));
    assert!(!is_blocked(&[0u8; 11], &bl));
    assert!(is_blocked(&query_for("ÄDS.example"), &["äds.example".to_string()]));
}

#[test]
fn resolver_decisions() {
    let q = query(None);
    let nx = blocked_reply(&q);
    assert_eq!(&nx[2..4], &[0x81, 0x83]);
    assert_eq!(&nx[4..], &q[4..]);
    let k = cache_key(&q);
    assert_eq!(&k[0..2], &[0, 0]);
    let mut other = q.clone();
    other[0] = 0x11;
    assert_eq!(cache_key(&other), k);
    let mut cached = response(&[300], true);
    cached[0] = 0;
    cached[1] = 0;
    restore_txid(&mut cached, &other);
    assert_eq!(&cached[0..2], &[0x11, 0xCD]);
    let mut tiny = vec![7u8];
    restore_txid(&mut tiny, &other);
    assert_eq!(tiny, vec![7u8]);
    assert!(reply_matches_query(&response(&[1], true), &q));
    assert!(!reply_matches_query(&response(&[1], true), &other));
    assert!(!reply_matches_query(&[0xAB, 0xCD, 0], &q));
    assert!(!is_truncated(&response(&[1], true)));
    let mut tc = response(&[1], true);
    tc[2] |= 0x02;
    assert!(is_truncated(&tc));
}

#[test]
fn cache_lifetimes_come_from_the_records() {
    assert_eq!(cache_lifetime_secs(&response(&[0], false), 5), None);
    assert_eq!(cache_lifetime_secs(&response(&[1], false), 5), Some(5));
    assert_eq!(cache_lifetime_secs(&response(&[300, 60], true), 5), Some(60));
    assert_eq!(cache_lifetime_secs(&response(&[86400], true), 5), Some(3600));
    assert_eq!(cache_lifetime_secs(&response(&[], true), 7), Some(7));
    assert_eq!(eviction_batch(0), 1);
    assert_eq!(eviction_batch(19), 1);
    assert_eq!(eviction_batch(1000), 100);
}

#[test]
fn an_answer_whose_rdata_runs_past_the_end_is_malformed() {
    let full = response(&[60], true);
    // Cut the last answer's four RDATA bytes: the record claims more than the message holds.
    let cut = &full[..full.len() - 4];
    assert_eq!(answer_min_ttl(cut), None);
    assert_eq!(answer_min_ttl(&full[..full.len() - 1]), None);
    assert_eq!(answer_min_ttl(&full), Some(60));
}
