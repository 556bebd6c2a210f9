use qeli::server::dns_cache::AnswerCache;

const SEC: u64 = 1_000_000_000;

#[test]
fn a_new_cache_is_empty() {
    let c = AnswerCache::new();
    assert_eq!(c.len(), 0);
    assert_eq!(c.lookup(b"q", 0), None);
}

#[test]
fn a_stored_answer_is_served_until_its_lifetime_ends() {
    let mut c = AnswerCache::new();
    c.store(b"q".to_vec(), b"answer".to_vec(), 10 * SEC, 300 * SEC, 8);
    assert_eq!(c.lookup(b"q", 10 * SEC), Some(b"answer".to_vec()));
    assert_eq!(c.lookup(b"q", 309 * SEC), Some(b"answer".to_vec()));
    assert_eq!(c.lookup(b"q", 310 * SEC - 1), Some(b"answer".to_vec()));
    assert_eq!(c.lookup(b"q", 310 * SEC), None);
    // A clock reading before the store counts as no time elapsed.
    assert_eq!(c.lookup(b"q", 0), Some(b"answer".to_vec()));
}

#[test]
fn another_key_is_not_served() {
    let mut c = AnswerCache::new();
    c.store(b"q1".to_vec(), b"a1".to_vec(), 0, SEC, 8);
    assert_eq!(c.lookup(b"q2", 0), None);
    assert_eq!(c.lookup(b"q", 0), None);
}

#[test]
fn storing_a_key_again_replaces_its_answer() {
    let mut c = AnswerCache::new();
    c.store(b"q".to_vec(), b"old".to_vec(), 0, 100, 8);
    c.store(b"q".to_vec(), b"new".to_vec(), 50, 100, 8);
    assert_eq!(c.len(), 1);
    assert_eq!(c.lookup(b"q", 120), Some(b"new".to_vec()));
}

#[test]
fn a_full_cache_drops_expired_entries_first() {
    let mut c = AnswerCache::new();
    c.store(b"a".to_vec(), b"1".to_vec(), 0, 10, 2);
    c.store(b"b".to_vec(), b"2".to_vec(), 0, 1000, 2);
    c.store(b"c".to_vec(), b"3".to_vec(), 20, 1000, 2);
    assert_eq!(c.len(), 2);
    assert_eq!(c.lookup(b"a", 20), None);
    assert_eq!(c.lookup(b"b", 20), Some(b"2".to_vec()));
    assert_eq!(c.lookup(b"c", 20), Some(b"3".to_vec()));
}

#[test]
fn a_cache_full_of_fresh_entries_evicts_the_oldest_batch() {
    let mut c = AnswerCache::new();
    for i in 0..20u8 {
        c.store(vec![i], vec![i], u64::from(i), 1000, 20);
    }
    assert_eq!(c.len(), 20);
    c.store(vec![99], vec![99], 30, 1000, 20);
    // A tenth of the capacity (2) goes, the two written longest ago.
    assert_eq!(c.len(), 19);
    assert_eq!(c.lookup(&[0], 30), None);
    assert_eq!(c.lookup(&[1], 30), None);
    assert_eq!(c.lookup(&[2], 30), Some(vec![2]));
    assert_eq!(c.lookup(&[99], 30), Some(vec![99]));
}

#[test]
fn a_cache_of_capacity_zero_stores_nothing() {
    let mut c = AnswerCache::new();
    c.store(b"q".to_vec(), b"a".to_vec(), 0, 100, 0);
    assert_eq!(c.len(), 0);
    assert_eq!(c.lookup(b"q", 0), None);
}

#[test]
fn a_zero_lifetime_is_never_served() {
    let mut c = AnswerCache::new();
    c.store(b"q".to_vec(), b"a".to_vec(), 5, 0, 4);
    assert_eq!(c.lookup(b"q", 5), None);
}
