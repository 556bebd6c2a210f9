//! The resolver's answer cache. Answers are keyed by the txid-normalised query; each keeps the
//! time it was stored and how long it may be served, read off a monotonic clock by the caller
//! (any unit, as long as lifetimes are given in the same one). A key occurs at most once.

use crate::server::dns::{eviction_batch, eviction_batch_spec};
use vstd::prelude::*;
use vstd::slice::slice_to_vec;

verus! {

/// A cached answer as the contracts see it: `(key, answer, stored_at, lifetime)`.
pub type EntryView = (Seq<u8>, Seq<u8>, u64, u64);

/// Time elapsed from `stored_at` to `now`; a reading before `stored_at` counts as none.
pub open spec fn age(now: u64, stored_at: u64) -> int {
    if now >= stored_at {
        now - stored_at
    } else {
        0
    }
}

/// An entry may be served at `now` while its age is below its lifetime.
pub open spec fn is_fresh(e: EntryView, now: u64) -> bool {
    age(now, e.2) < e.3
}

/// No key occurs twice.
pub open spec fn keys_distinct(s: Seq<EntryView>) -> bool {
    forall|i: int, j: int|
        #![trigger s[i], s[j]]
        0 <= i < s.len() && 0 <= j < s.len() && i != j ==> s[i].0 != s[j].0
}

/// The answer stored under `key`, if it is still fresh at `now`.
pub open spec fn lookup_spec(s: Seq<EntryView>, key: Seq<u8>, now: u64) -> Option<Seq<u8>> {
    if exists|i: int| 0 <= i < s.len() && #[trigger] s[i].0 == key && is_fresh(s[i], now) {
        let i = choose|i: int| 0 <= i < s.len() && #[trigger] s[i].0 == key && is_fresh(s[i], now);
        Some(s[i].1)
    } else {
        None
    }
}

/// The entries still fresh at `now`, in their order.
pub open spec fn keep_fresh(s: Seq<EntryView>, now: u64) -> Seq<EntryView>
    decreases s.len(),
{
    if s.len() == 0 {
        s
    } else {
        let rest = keep_fresh(s.drop_last(), now);
        if is_fresh(s.last(), now) {
            rest.push(s.last())
        } else {
            rest
        }
    }
}

/// What is left once room is made for a store: everything below capacity; otherwise the
/// fresh entries, less the `eviction_batch` of them written longest ago if they still fill
/// the cache.
pub open spec fn make_room(s: Seq<EntryView>, now: u64, capacity: usize) -> Seq<EntryView> {
    if s.len() < capacity {
        s
    } else {
        let f = keep_fresh(s, now);
        if f.len() < capacity {
            f
        } else {
            let n = if eviction_batch_spec(capacity) < f.len() {
                eviction_batch_spec(capacity)
            } else {
                f.len() as int
            };
            f.subrange(n, f.len() as int)
        }
    }
}

/// The entries without the one stored under `key`.
pub open spec fn without_key(s: Seq<EntryView>, key: Seq<u8>) -> Seq<EntryView> {
    if exists|i: int| 0 <= i < s.len() && #[trigger] s[i].0 == key {
        s.remove(choose|i: int| 0 <= i < s.len() && #[trigger] s[i].0 == key)
    } else {
        s
    }
}

/// The cache after storing `answer` under `key` at `now`: room is made, then the entry goes
/// in last, in place of any earlier one for that key, unless the cache is still full.
pub open spec fn store_spec(
    s: Seq<EntryView>,
    key: Seq<u8>,
    answer: Seq<u8>,
    now: u64,
    lifetime: u64,
    capacity: usize,
) -> Seq<EntryView> {
    let r = make_room(s, now, capacity);
    if r.len() < capacity {
        without_key(r, key).push((key, answer, now, lifetime))
    } else {
        r
    }
}

/// Every element of `t` is an element of `s`.
pub open spec fn drawn_from(t: Seq<EntryView>, s: Seq<EntryView>) -> bool {
    forall|k: int| 0 <= k < t.len() ==> s.contains(#[trigger] t[k])
}

proof fn lemma_keep_fresh(s: Seq<EntryView>, now: u64)
    ensures
        keep_fresh(s, now).len() <= s.len(),
        drawn_from(keep_fresh(s, now), s),
        keys_distinct(s) ==> keys_distinct(keep_fresh(s, now)),
    decreases s.len(),
{
    if s.len() > 0 {
        let p = s.drop_last();
        lemma_keep_fresh(p, now);
        let rest = keep_fresh(p, now);
        let kf = keep_fresh(s, now);
        assert forall|k: int| 0 <= k < kf.len() implies s.contains(kf[k]) by {
            if k < rest.len() {
                let j = choose|j: int| 0 <= j < p.len() && p[j] == rest[k];
                assert(kf[k] == s[j]);
            } else {
                assert(kf[k] == s[s.len() - 1]);
            }
        }
        if keys_distinct(s) {
            assert(keys_distinct(p));
            assert forall|a: int, b: int|
                0 <= a < kf.len() && 0 <= b < kf.len() && a != b implies #[trigger] kf[a].0 != #[trigger] kf[b].0 by {
                if a < rest.len() && b < rest.len() {
                    assert(kf[a] == rest[a] && kf[b] == rest[b]);
                } else if a < rest.len() {
                    let j = choose|j: int| 0 <= j < p.len() && p[j] == rest[a];
                    assert(kf[a] == s[j]);
                    assert(kf[b] == s[s.len() - 1]);
                } else {
                    let j = choose|j: int| 0 <= j < p.len() && p[j] == rest[b];
                    assert(kf[b] == s[j]);
                    assert(kf[a] == s[s.len() - 1]);
                }
            }
        }
    }
}

proof fn lemma_make_room(s: Seq<EntryView>, now: u64, capacity: usize)
    ensures
        make_room(s, now, capacity).len() <= s.len(),
        drawn_from(make_room(s, now, capacity), s),
        keys_distinct(s) ==> keys_distinct(make_room(s, now, capacity)),
        s.len() <= capacity && capacity > 0 ==> make_room(s, now, capacity).len() < capacity,
{
    lemma_keep_fresh(s, now);
    let f = keep_fresh(s, now);
    let r = make_room(s, now, capacity);
    if s.len() >= capacity && f.len() >= capacity {
        let n = if eviction_batch_spec(capacity) < f.len() {
            eviction_batch_spec(capacity)
        } else {
            f.len() as int
        };
        assert(r == f.subrange(n, f.len() as int));
        assert forall|k: int| 0 <= k < r.len() implies s.contains(r[k]) by {
            assert(r[k] == f[k + n]);
            let j = choose|j: int| 0 <= j < s.len() && s[j] == f[k + n];
        }
        if keys_distinct(s) {
            assert forall|a: int, b: int|
                0 <= a < r.len() && 0 <= b < r.len() && a != b implies #[trigger] r[a].0 != #[trigger] r[b].0 by {
                assert(r[a] == f[a + n] && r[b] == f[b + n]);
            }
        }
    }
}

proof fn lemma_without_key(s: Seq<EntryView>, key: Seq<u8>)
    requires
        keys_distinct(s),
    ensures
        keys_distinct(without_key(s, key)),
        drawn_from(without_key(s, key), s),
        without_key(s, key).len() <= s.len(),
        forall|k: int| 0 <= k < without_key(s, key).len() ==> #[trigger] without_key(s, key)[k].0 != key,
        forall|j: int| 0 <= j < s.len() && #[trigger] s[j].0 != key ==> exists|k: int|
            0 <= k < without_key(s, key).len() && without_key(s, key)[k] == s[j],
{
    let w = without_key(s, key);
    if exists|i: int| 0 <= i < s.len() && #[trigger] s[i].0 == key {
        let i = choose|i: int| 0 <= i < s.len() && #[trigger] s[i].0 == key;
        assert(w == s.remove(i));
        assert forall|k: int| 0 <= k < w.len() implies s.contains(w[k]) by {
            if k < i {
                assert(w[k] == s[k]);
            } else {
                assert(w[k] == s[k + 1]);
            }
        }
        assert forall|k: int| 0 <= k < w.len() implies #[trigger] w[k].0 != key by {
            if k < i {
                assert(w[k] == s[k]);
                assert(s[k].0 != s[i].0);
            } else {
                assert(w[k] == s[k + 1]);
                assert(s[k + 1].0 != s[i].0);
            }
        }
        assert forall|a: int, b: int|
            0 <= a < w.len() && 0 <= b < w.len() && a != b implies #[trigger] w[a].0 != #[trigger] w[b].0 by {
            let ja = if a < i { a } else { a + 1 };
            let jb = if b < i { b } else { b + 1 };
            assert(w[a] == s[ja] && w[b] == s[jb]);
        }
        assert forall|j: int| 0 <= j < s.len() && #[trigger] s[j].0 != key implies exists|k: int|
            0 <= k < w.len() && w[k] == s[j] by {
            if j < i {
                assert(w[j] == s[j]);
            } else {
                assert(j != i);
                assert(w[j - 1] == s[j]);
            }
        }
    } else {
        assert forall|k: int| 0 <= k < w.len() implies #[trigger] w[k].0 != key by {
            assert(w[k] == s[k]);
        }
        assert forall|k: int| 0 <= k < w.len() implies s.contains(w[k]) by {
            assert(w[k] == s[k]);
        }
        assert forall|j: int| 0 <= j < s.len() && #[trigger] s[j].0 != key implies exists|k: int|
            0 <= k < w.len() && w[k] == s[j] by {
            assert(w[j] == s[j]);
        }
    }
}

/// The entry of `s` with key `key` is found wherever it stands: with distinct keys, a fresh
/// entry at `i` is the lookup's answer.
proof fn lemma_lookup_at(s: Seq<EntryView>, key: Seq<u8>, now: u64, i: int)
    requires
        keys_distinct(s),
        0 <= i < s.len(),
        s[i].0 == key,
    ensures
        lookup_spec(s, key, now) == (if is_fresh(s[i], now) {
            Some(s[i].1)
        } else {
            None::<Seq<u8>>
        }),
{
    if is_fresh(s[i], now) {
        assert(exists|j: int| 0 <= j < s.len() && #[trigger] s[j].0 == key && is_fresh(s[j], now));
        let c = choose|j: int| 0 <= j < s.len() && #[trigger] s[j].0 == key && is_fresh(s[j], now);
        if c != i {
            assert(s[c].0 != s[i].0);
        }
    } else {
        assert forall|j: int| 0 <= j < s.len() && #[trigger] s[j].0 == key implies !is_fresh(s[j], now) by {
            if j != i {
                assert(s[j].0 != s[i].0);
            }
        }
    }
}

/// A key absent from `s` has nothing to serve.
proof fn lemma_lookup_absent(s: Seq<EntryView>, key: Seq<u8>, now: u64)
    requires
        forall|j: int| 0 <= j < s.len() ==> #[trigger] s[j].0 != key,
    ensures
        lookup_spec(s, key, now) is None,
{
}

/// An answer that was stored is served for the whole of its lifetime, provided the cache had
/// not outgrown its capacity.
pub proof fn stored_answer_is_served(
    s: Seq<EntryView>,
    key: Seq<u8>,
    answer: Seq<u8>,
    now: u64,
    lifetime: u64,
    capacity: usize,
    later: u64,
)
    requires
        keys_distinct(s),
        0 < capacity,
        s.len() <= capacity,
        age(later, now) < lifetime,
    ensures
        lookup_spec(store_spec(s, key, answer, now, lifetime, capacity), key, later) == Some(answer),
{
    lemma_make_room(s, now, capacity);
    let r = make_room(s, now, capacity);
    lemma_without_key(r, key);
    let w = without_key(r, key);
    let t = store_spec(s, key, answer, now, lifetime, capacity);
    assert(t == w.push((key, answer, now, lifetime)));
    assert(keys_distinct(t)) by {
        assert forall|a: int, b: int|
            0 <= a < t.len() && 0 <= b < t.len() && a != b implies #[trigger] t[a].0 != #[trigger] t[b].0 by {
            if a < w.len() && b < w.len() {
                assert(t[a] == w[a] && t[b] == w[b]);
            } else if a < w.len() {
                assert(t[a] == w[a]);
            } else {
                assert(t[b] == w[b]);
            }
        }
    }
    lemma_lookup_at(t, key, later, w.len() as int);
}

/// A store never takes the cache past its capacity.
pub proof fn store_keeps_within_capacity(
    s: Seq<EntryView>,
    key: Seq<u8>,
    answer: Seq<u8>,
    now: u64,
    lifetime: u64,
    capacity: usize,
)
    requires
        keys_distinct(s),
        s.len() <= capacity,
    ensures
        store_spec(s, key, answer, now, lifetime, capacity).len() <= capacity,
        keys_distinct(store_spec(s, key, answer, now, lifetime, capacity)),
{
    lemma_make_room(s, now, capacity);
    let r = make_room(s, now, capacity);
    lemma_without_key(r, key);
    lemma_store_distinct(s, key, answer, now, lifetime, capacity);
}

proof fn lemma_store_distinct(
    s: Seq<EntryView>,
    key: Seq<u8>,
    answer: Seq<u8>,
    now: u64,
    lifetime: u64,
    capacity: usize,
)
    requires
        keys_distinct(s),
    ensures
        keys_distinct(store_spec(s, key, answer, now, lifetime, capacity)),
        drawn_from(store_spec(s, key, answer, now, lifetime, capacity), s.push((key, answer, now, lifetime))),
{
    lemma_make_room(s, now, capacity);
    let r = make_room(s, now, capacity);
    lemma_without_key(r, key);
    let w = without_key(r, key);
    let e = (key, answer, now, lifetime);
    let t = store_spec(s, key, answer, now, lifetime, capacity);
    let sp = s.push(e);
    if r.len() < capacity {
        assert(t == w.push(e));
        assert forall|a: int, b: int|
            0 <= a < t.len() && 0 <= b < t.len() && a != b implies #[trigger] t[a].0 != #[trigger] t[b].0 by {
            if a < w.len() && b < w.len() {
                assert(t[a] == w[a] && t[b] == w[b]);
            } else if a < w.len() {
                assert(t[a] == w[a]);
            } else {
                assert(t[b] == w[b]);
            }
        }
        assert forall|k: int| 0 <= k < t.len() implies sp.contains(t[k]) by {
            if k < w.len() {
                let j1 = choose|j: int| 0 <= j < r.len() && r[j] == w[k];
                let j2 = choose|j: int| 0 <= j < s.len() && s[j] == r[j1];
                assert(t[k] == sp[j2]);
            } else {
                assert(t[k] == sp[s.len() as int]);
            }
        }
    } else {
        assert forall|k: int| 0 <= k < t.len() implies sp.contains(t[k]) by {
            let j2 = choose|j: int| 0 <= j < s.len() && s[j] == r[k];
            assert(t[k] == sp[j2]);
        }
    }
}

/// A store leaves at most as many entries as the cache held or its capacity, whichever is
/// larger; every entry after it was already there or is the one just stored.
pub proof fn store_only_adds_the_new_entry(
    s: Seq<EntryView>,
    key: Seq<u8>,
    answer: Seq<u8>,
    now: u64,
    lifetime: u64,
    capacity: usize,
)
    requires
        keys_distinct(s),
    ensures
        store_spec(s, key, answer, now, lifetime, capacity).len() <= (if s.len() > capacity {
            s.len() as int
        } else {
            capacity as int
        }),
        keys_distinct(store_spec(s, key, answer, now, lifetime, capacity)),
        drawn_from(
            store_spec(s, key, answer, now, lifetime, capacity),
            s.push((key, answer, now, lifetime)),
        ),
{
    lemma_make_room(s, now, capacity);
    let r = make_room(s, now, capacity);
    lemma_without_key(r, key);
    lemma_store_distinct(s, key, answer, now, lifetime, capacity);
}

/// A store never makes the cache serve, under another key, an answer that key did not
/// already have: at worst that key's entry was evicted to make room.
pub proof fn store_serves_no_foreign_answer(
    s: Seq<EntryView>,
    key: Seq<u8>,
    answer: Seq<u8>,
    now: u64,
    lifetime: u64,
    capacity: usize,
    other: Seq<u8>,
    t: u64,
)
    requires
        keys_distinct(s),
        other != key,
    ensures
        ({
            let served = lookup_spec(store_spec(s, key, answer, now, lifetime, capacity), other, t);
            served is None || served == lookup_spec(s, other, t)
        }),
{
    lemma_store_distinct(s, key, answer, now, lifetime, capacity);
    let n = store_spec(s, key, answer, now, lifetime, capacity);
    let sp = s.push((key, answer, now, lifetime));
    if exists|i: int| 0 <= i < n.len() && #[trigger] n[i].0 == other && is_fresh(n[i], t) {
        let i = choose|i: int| 0 <= i < n.len() && #[trigger] n[i].0 == other && is_fresh(n[i], t);
        lemma_lookup_at(n, other, t, i);
        let j = choose|j: int| 0 <= j < sp.len() && sp[j] == n[i];
        assert(j < s.len());
        assert(n[i] == s[j]);
        lemma_lookup_at(s, other, t, j);
    }
}

/// Below capacity, storing one answer leaves what every other key serves unchanged.
pub proof fn store_below_capacity_keeps_other_answers(
    s: Seq<EntryView>,
    key: Seq<u8>,
    answer: Seq<u8>,
    now: u64,
    lifetime: u64,
    capacity: usize,
    other: Seq<u8>,
    t: u64,
)
    requires
        keys_distinct(s),
        s.len() < capacity,
        other != key,
    ensures
        lookup_spec(store_spec(s, key, answer, now, lifetime, capacity), other, t) == lookup_spec(
            s,
            other,
            t,
        ),
{
    store_serves_no_foreign_answer(s, key, answer, now, lifetime, capacity, other, t);
    lemma_store_distinct(s, key, answer, now, lifetime, capacity);
    lemma_without_key(s, key);
    let w = without_key(s, key);
    let n = store_spec(s, key, answer, now, lifetime, capacity);
    assert(n == w.push((key, answer, now, lifetime)));
    if exists|j: int| 0 <= j < s.len() && #[trigger] s[j].0 == other && is_fresh(s[j], t) {
        let j = choose|j: int| 0 <= j < s.len() && #[trigger] s[j].0 == other && is_fresh(s[j], t);
        lemma_lookup_at(s, other, t, j);
        let k = choose|k: int| 0 <= k < w.len() && w[k] == s[j];
        assert(n[k] == s[j]);
        lemma_lookup_at(n, other, t, k);
    }
}

/// One stored answer.
struct CacheEntry {
    key: Vec<u8>,
    answer: Vec<u8>,
    stored_at: u64,
    lifetime: u64,
}

impl CacheEntry {
    spec fn view_entry(self) -> EntryView {
        (self.key@, self.answer@, self.stored_at, self.lifetime)
    }
}

spec fn entries_view(v: Seq<CacheEntry>) -> Seq<EntryView> {
    v.map_values(|e: CacheEntry| e.view_entry())
}

/// The answer cache: at most one answer per key.
pub struct AnswerCache {
    entries: Vec<CacheEntry>,
}

impl View for AnswerCache {
    type V = Seq<EntryView>;

    closed spec fn view(&self) -> Seq<EntryView> {
        entries_view(self.entries@)
    }
}

fn elapsed(now: u64, stored_at: u64) -> (d: u64)
    ensures
        d == age(now, stored_at),
{
    if now >= stored_at {
        now - stored_at
    } else {
        0
    }
}

fn bytes_equal(a: &[u8], b: &[u8]) -> (r: bool)
    ensures
        r == (a@ == b@),
{
    if a.len() != b.len() {
        return false;
    }
    let mut i: usize = 0;
    while i < a.len()
        invariant
            a@.len() == b@.len(),
            i <= a@.len(),
            forall|j: int| 0 <= j < i ==> a@[j] == b@[j],
        decreases a.len() - i,
    {
        if a[i] != b[i] {
            return false;
        }
        i = i + 1;
    }
    assert(a@ =~= b@);
    true
}

fn copy_entry(e: &CacheEntry) -> (c: CacheEntry)
    ensures
        c.view_entry() == e.view_entry(),
{
    CacheEntry {
        key: slice_to_vec(e.key.as_slice()),
        answer: slice_to_vec(e.answer.as_slice()),
        stored_at: e.stored_at,
        lifetime: e.lifetime,
    }
}

fn fresh_entries(v: &Vec<CacheEntry>, now: u64) -> (out: Vec<CacheEntry>)
    ensures
        entries_view(out@) == keep_fresh(entries_view(v@), now),
{
    let ghost s = entries_view(v@);
    let mut out: Vec<CacheEntry> = Vec::new();
    let mut i: usize = 0;
    assert(s.take(0) =~= Seq::<EntryView>::empty());
    assert(entries_view(out@) =~= Seq::<EntryView>::empty());
    while i < v.len()
        invariant
            s == entries_view(v@),
            i <= v@.len(),
            entries_view(out@) == keep_fresh(s.take(i as int), now),
        decreases v.len() - i,
    {
        let e = &v[i];
        let ghost before = out@;
        proof {
            assert(s.take(i + 1).drop_last() =~= s.take(i as int));
            assert(s.take(i + 1).last() == s[i as int]);
            assert(s[i as int] == e.view_entry());
        }
        if elapsed(now, e.stored_at) < e.lifetime {
            let c = copy_entry(e);
            out.push(c);
            assert(entries_view(out@) =~= entries_view(before).push(e.view_entry()));
        }
        i = i + 1;
    }
    assert(s.take(v@.len() as int) =~= s);
    out
}

fn entries_from(v: &Vec<CacheEntry>, n: usize) -> (out: Vec<CacheEntry>)
    requires
        n <= v@.len(),
    ensures
        entries_view(out@) == entries_view(v@).subrange(n as int, v@.len() as int),
{
    let ghost s = entries_view(v@);
    let mut out: Vec<CacheEntry> = Vec::new();
    let mut i: usize = n;
    assert(entries_view(out@) =~= s.subrange(n as int, n as int));
    while i < v.len()
        invariant
            s == entries_view(v@),
            n <= i <= v@.len(),
            entries_view(out@) == s.subrange(n as int, i as int),
        decreases v.len() - i,
    {
        let ghost before = out@;
        let c = copy_entry(&v[i]);
        assert(s[i as int] == v@[i as int].view_entry());
        out.push(c);
        assert(entries_view(out@) =~= entries_view(before).push(s[i as int]));
        assert(s.subrange(n as int, i + 1) =~= s.subrange(n as int, i as int).push(s[i as int]));
        i = i + 1;
    }
    out
}

fn remove_key(v: &mut Vec<CacheEntry>, key: &[u8])
    requires
        keys_distinct(entries_view(old(v)@)),
    ensures
        entries_view(final(v)@) == without_key(entries_view(old(v)@), key@),
{
    let ghost s = entries_view(v@);
    let ghost orig = v@;
    let mut i: usize = 0;
    while i < v.len()
        invariant
            v@ == orig,
            orig == old(v)@,
            s == entries_view(v@),
            keys_distinct(s),
            i <= v@.len(),
            forall|j: int| 0 <= j < i ==> #[trigger] s[j].0 != key@,
        decreases v.len() - i,
    {
        assert(s[i as int] == v@[i as int].view_entry());
        if bytes_equal(v[i].key.as_slice(), key) {
            let ghost before = v@;
            let _gone = v.remove(i);
            proof {
                let c = choose|j: int| 0 <= j < s.len() && #[trigger] s[j].0 == key@;
                if c != i {
                    assert(s[c].0 != s[i as int].0);
                }
                assert(without_key(s, key@) == s.remove(i as int));
                assert(entries_view(v@) =~= s.remove(i as int));
            }
            return;
        }
        i = i + 1;
    }
}

impl AnswerCache {
    #[verifier::type_invariant]
    spec fn keys_are_distinct(self) -> bool {
        keys_distinct(entries_view(self.entries@))
    }

    /// An empty cache.
    pub fn new() -> (c: Self)
        ensures
            c@ == Seq::<EntryView>::empty(),
    {
        let c = AnswerCache { entries: Vec::new() };
        assert(c@ =~= Seq::<EntryView>::empty());
        c
    }

    /// How many answers are stored, fresh or not.
    pub fn len(&self) -> (n: usize)
        ensures
            n == self@.len(),
            keys_distinct(self@),
    {
        proof {
            use_type_invariant(self);
        }
        self.entries.len()
    }

    /// The answer stored under `key`, if it is still fresh at `now`.
    pub fn lookup(&self, key: &[u8], now: u64) -> (r: Option<Vec<u8>>)
        ensures
            keys_distinct(self@),
            match r {
                Some(a) => lookup_spec(self@, key@, now) == Some(a@),
                None => lookup_spec(self@, key@, now) is None,
            },
    {
        proof {
            use_type_invariant(self);
        }
        let ghost s = self@;
        let mut i: usize = 0;
        while i < self.entries.len()
            invariant
                s == entries_view(self.entries@),
                keys_distinct(s),
                i <= self.entries@.len(),
                forall|j: int| 0 <= j < i ==> #[trigger] s[j].0 != key@,
            decreases self.entries.len() - i,
        {
            let e = &self.entries[i];
            assert(s[i as int] == e.view_entry());
            if bytes_equal(e.key.as_slice(), key) {
                proof {
                    lemma_lookup_at(s, key@, now, i as int);
                }
                if elapsed(now, e.stored_at) < e.lifetime {
                    return Some(slice_to_vec(e.answer.as_slice()));
                } else {
                    return None;
                }
            }
            i = i + 1;
        }
        None
    }

    /// Store `answer` under `key` at `now`, to be served while younger than `lifetime`. When
    /// the cache holds `capacity` entries or more, the expired ones go first and, if it is
    /// still full, the `eviction_batch(capacity)` written longest ago; the answer is stored
    /// only if that left room.
    pub fn store(&mut self, key: Vec<u8>, answer: Vec<u8>, now: u64, lifetime: u64, capacity: usize)
        ensures
            final(self)@ == store_spec(old(self)@, key@, answer@, now, lifetime, capacity),
            keys_distinct(old(self)@),
    {
        proof {
            use_type_invariant(&*self);
        }
        let ghost k = key@;
        let ghost a = answer@;
        let mut v: Vec<CacheEntry> = Vec::new();
        std::mem::swap(&mut v, &mut self.entries);
        let ghost s = entries_view(v@);
        if v.len() >= capacity {
            v = fresh_entries(&v, now);
            if v.len() >= capacity {
                let b = eviction_batch(capacity);
                let n = if b < v.len() {
                    b
                } else {
                    v.len()
                };
                v = entries_from(&v, n);
            }
        }
        proof {
            lemma_make_room(s, now, capacity);
            lemma_store_distinct(s, k, a, now, lifetime, capacity);
        }
        assert(entries_view(v@) == make_room(s, now, capacity));
        if v.len() < capacity {
            remove_key(&mut v, key.as_slice());
            let ghost before = v@;
            v.push(CacheEntry { key, answer, stored_at: now, lifetime });
            assert(entries_view(v@) =~= entries_view(before).push((k, a, now, lifetime)));
        }
        self.entries = v;
    }
}

} // verus!
