//! The logical-clock LRU cache.
//!
//! A generic least-recently-used cache over any totally ordered key, kept
//! as a vector sorted by key so that iteration order is a function of
//! content. Recency comes from a monotone logical clock that advances one
//! tick per `insert`/`get` call — never from wall-clock time — so eviction
//! is reproducible across runs. Eviction removes a batch of the entries
//! with the oldest `last_access`, breaking ties in key order.

use vstd::prelude::*;
use vstd::pervasive::cloned;
use crate::primitives::{sat_inc_u64, Artifact, NodeId};

verus! {

/// Default maximum cache size.
pub const DEFAULT_CACHE_SIZE: usize = 1000;

/// Default number of entries evicted in one batch.
pub const DEFAULT_EVICTION_BATCH: usize = 100;

/// A key a cache can be ordered by: a total order with executable
/// comparison, equality and clone that the order provably agrees with.
pub trait CacheKey: Sized {
    /// The total order on keys.
    spec fn le_spec(self, other: Self) -> bool;

    /// The order relates every pair of keys.
    proof fn le_total(a: Self, b: Self)
        ensures
            a.le_spec(b) || b.le_spec(a),
    ;

    /// Keys below each other are equal.
    proof fn le_antisym(a: Self, b: Self)
        requires
            a.le_spec(b),
            b.le_spec(a),
        ensures
            a == b,
    ;

    /// The order composes.
    proof fn le_trans(a: Self, b: Self, c: Self)
        requires
            a.le_spec(b),
            b.le_spec(c),
        ensures
            a.le_spec(c),
    ;

    /// Executable comparison, agreeing with the order.
    fn key_le(&self, other: &Self) -> (r: bool)
        ensures
            r == self.le_spec(*other),
    ;

    /// Executable equality, agreeing with value equality.
    fn key_eq(&self, other: &Self) -> (r: bool)
        ensures
            r == (*self == *other),
    ;

    /// An exact copy of the key.
    fn key_clone(&self) -> (r: Self)
        ensures
            r == *self,
    ;
}

impl CacheKey for u64 {
    open spec fn le_spec(self, other: Self) -> bool {
        self <= other
    }

    proof fn le_total(a: Self, b: Self) {
    }

    proof fn le_antisym(a: Self, b: Self) {
    }

    proof fn le_trans(a: Self, b: Self, c: Self) {
    }

    fn key_le(&self, other: &Self) -> (r: bool) {
        *self <= *other
    }

    fn key_eq(&self, other: &Self) -> (r: bool) {
        *self == *other
    }

    fn key_clone(&self) -> (r: Self) {
        *self
    }
}

impl CacheKey for NodeId {
    open spec fn le_spec(self, other: Self) -> bool {
        self.0 <= other.0
    }

    proof fn le_total(a: Self, b: Self) {
    }

    proof fn le_antisym(a: Self, b: Self) {
    }

    proof fn le_trans(a: Self, b: Self, c: Self) {
    }

    fn key_le(&self, other: &Self) -> (r: bool) {
        self.0 <= other.0
    }

    fn key_eq(&self, other: &Self) -> (r: bool) {
        self.0 == other.0
    }

    fn key_clone(&self) -> (r: Self) {
        NodeId(self.0)
    }
}

/// An entry of the cache: the value plus the recency bookkeeping.
#[derive(Debug, Clone)]
pub struct CacheEntry<T> {
    /// The cached value.
    pub value: T,
    /// Logical timestamp of the last access — a counter, never wall time.
    pub last_access: u64,
    /// Number of accesses, for statistics.
    pub access_count: u64,
}

/// The keys of `s` are strictly increasing in the key order.
pub open spec fn cache_sorted<K: CacheKey, V>(s: Seq<(K, CacheEntry<V>)>) -> bool {
    forall|i: int, j: int| 0 <= i < j < s.len()
        ==> (#[trigger] s[i]).0.le_spec((#[trigger] s[j]).0) && s[i].0 != s[j].0
}

/// Some entry of `s` carries the key `k`.
pub open spec fn has_ckey<K: CacheKey, V>(s: Seq<(K, CacheEntry<V>)>, k: K) -> bool {
    exists|i: int| 0 <= i < s.len() && s[i].0 == k
}

/// The index holding `k` (unique when the keys are distinct).
pub open spec fn ckey_idx<K: CacheKey, V>(s: Seq<(K, CacheEntry<V>)>, k: K) -> int {
    choose|i: int| 0 <= i < s.len() && s[i].0 == k
}

/// The entry stored under `k`.
pub open spec fn centry_of<K: CacheKey, V>(s: Seq<(K, CacheEntry<V>)>, k: K) -> CacheEntry<V> {
    s[ckey_idx(s, k)].1
}

/// In a distinct-key list any index holding `k` is `ckey_idx(s, k)`.
pub proof fn lemma_cidx_unique<K: CacheKey, V>(s: Seq<(K, CacheEntry<V>)>, k: K, i: int)
    requires
        cache_sorted(s),
        0 <= i < s.len(),
        s[i].0 == k,
    ensures
        has_ckey(s, k),
        ckey_idx(s, k) == i,
        centry_of(s, k) == s[i].1,
{
    assert(has_ckey(s, k));
    let j = ckey_idx(s, k);
    if i < j {
        assert(s[i].0 != s[j].0);
    } else if j < i {
        assert(s[j].0 != s[i].0);
    }
}

/// The first index whose `last_access` is minimal: the entry eviction
/// takes next. With the list sorted by key, ties fall to the least key.
pub open spec fn first_min_idx<K: CacheKey, V>(s: Seq<(K, CacheEntry<V>)>) -> int
    decreases s.len(),
{
    if s.len() <= 1 {
        0
    } else {
        let r = 1 + first_min_idx(s.drop_first());
        if s[0].1.last_access <= s[r].1.last_access {
            0
        } else {
            r
        }
    }
}

/// What remains after evicting `n` entries, oldest-first.
pub open spec fn evict_n<K: CacheKey, V>(s: Seq<(K, CacheEntry<V>)>, n: nat) -> Seq<(K, CacheEntry<V>)>
    decreases n,
{
    if n == 0 || s.len() == 0 {
        s
    } else {
        evict_n(s.remove(first_min_idx(s)), (n - 1) as nat)
    }
}

/// `first_min_idx` lands on a minimal `last_access`, and on the first such
/// position.
pub proof fn lemma_first_min<K: CacheKey, V>(s: Seq<(K, CacheEntry<V>)>)
    requires
        s.len() > 0,
    ensures
        0 <= first_min_idx(s) < s.len(),
        forall|j: int| 0 <= j < s.len()
            ==> s[first_min_idx(s)].1.last_access <= (#[trigger] s[j]).1.last_access,
        forall|j: int| 0 <= j < first_min_idx(s)
            ==> (#[trigger] s[j]).1.last_access > s[first_min_idx(s)].1.last_access,
    decreases s.len(),
{
    if s.len() > 1 {
        lemma_first_min(s.drop_first());
        let d = s.drop_first();
        assert(forall|j: int| 0 <= j < d.len() ==> #[trigger] d[j] == s[j + 1]);
        let r = 1 + first_min_idx(d);
        let i = first_min_idx(s);
        assert forall|j: int| 0 <= j < s.len()
            implies s[i].1.last_access <= (#[trigger] s[j]).1.last_access by {
            if j > 0 {
                assert(d[first_min_idx(d)].1.last_access <= d[j - 1].1.last_access);
            }
        }
        assert forall|j: int| 0 <= j < i
            implies (#[trigger] s[j]).1.last_access > s[i].1.last_access by {
            if j > 0 {
                assert(d[j - 1].1.last_access > d[first_min_idx(d)].1.last_access);
            }
        }
    }
}

/// The law of eviction: the entry taken next is least-recently accessed,
/// and among entries of equal recency it is the one with the least key —
/// eviction order is pinned down completely by cache content.
pub proof fn lemma_eviction_takes_lru<K: CacheKey, V>(s: Seq<(K, CacheEntry<V>)>)
    requires
        s.len() > 0,
        cache_sorted(s),
    ensures
        0 <= first_min_idx(s) < s.len(),
        forall|j: int| 0 <= j < s.len()
            ==> s[first_min_idx(s)].1.last_access <= (#[trigger] s[j]).1.last_access,
        forall|j: int| 0 <= j < s.len() && j != first_min_idx(s)
            && (#[trigger] s[j]).1.last_access == s[first_min_idx(s)].1.last_access
            ==> s[first_min_idx(s)].0.le_spec(s[j].0),
{
    lemma_first_min(s);
    let i = first_min_idx(s);
    assert forall|j: int|
        0 <= j < s.len() && j != i && (#[trigger] s[j]).1.last_access == s[i].1.last_access
            implies s[i].0.le_spec(s[j].0) by {
        if j < i {
            assert(s[j].1.last_access > s[i].1.last_access);
        }
    }
}

/// Evicted caches only shrink: every surviving entry was present before,
/// unchanged.
pub proof fn lemma_evict_subset<K: CacheKey, V>(s: Seq<(K, CacheEntry<V>)>, n: nat)
    requires
        cache_sorted(s),
    ensures
        cache_sorted(evict_n(s, n)),
        forall|q: K| #[trigger] has_ckey(evict_n(s, n), q)
            ==> has_ckey(s, q) && centry_of(evict_n(s, n), q) == centry_of(s, q),
        evict_n(s, n).len() == (if s.len() <= n { 0int } else { s.len() - n }),
    decreases n,
{
    if n > 0 && s.len() > 0 {
        lemma_first_min(s);
        let i = first_min_idx(s);
        let s2 = s.remove(i);
        assert(forall|m: int| 0 <= m < i ==> #[trigger] s2[m] == s[m]);
        assert(forall|m: int| i <= m < s2.len() ==> #[trigger] s2[m] == s[m + 1]);
        assert(cache_sorted(s2));
        lemma_evict_subset(s2, (n - 1) as nat);
        assert forall|q: K| #[trigger] has_ckey(evict_n(s, n), q)
            implies has_ckey(s, q) && centry_of(evict_n(s, n), q) == centry_of(s, q) by {
            assert(evict_n(s, n) == evict_n(s2, (n - 1) as nat));
            assert(has_ckey(s2, q) && centry_of(evict_n(s2, (n - 1) as nat), q) == centry_of(s2, q));
            let m = ckey_idx(s2, q);
            lemma_cidx_unique(s2, q, m);
            if m < i {
                lemma_cidx_unique(s, q, m);
            } else {
                lemma_cidx_unique(s, q, m + 1);
            }
        }
    }
}

/// Find the index of a key by linear scan.
fn cfind<K: CacheKey, V>(v: &Vec<(K, CacheEntry<V>)>, k: &K) -> (r: Option<usize>)
    ensures
        match r {
            Some(i) => i < v@.len() && v@[i as int].0 == *k,
            None => !has_ckey(v@, *k),
        },
{
    let n = v.len();
    let mut i: usize = 0;
    while i < n
        invariant
            i <= n,
            n == v@.len(),
            forall|m: int| 0 <= m < i ==> (#[trigger] v@[m]).0 != *k,
        decreases n - i,
    {
        if v[i].0.key_eq(k) {
            return Some(i);
        }
        i = i + 1;
    }
    None
}

/// Insert an entry under a key that is not yet present, keeping the keys
/// sorted.
fn cache_set_fresh<K: CacheKey, V>(v: &mut Vec<(K, CacheEntry<V>)>, k: K, e: CacheEntry<V>)
    requires
        cache_sorted(old(v)@),
        !has_ckey(old(v)@, k),
    ensures
        cache_sorted(final(v)@),
        final(v)@.len() == old(v)@.len() + 1,
        has_ckey(final(v)@, k),
        centry_of(final(v)@, k) == e,
        forall|q: K| q != k ==> (#[trigger] has_ckey(final(v)@, q) <==> has_ckey(old(v)@, q)),
        forall|q: K| q != k && has_ckey(old(v)@, q)
            ==> #[trigger] centry_of(final(v)@, q) == centry_of(old(v)@, q),
{
    let ghost s0 = v@;
    let n = v.len();
    let mut i: usize = 0;
    while i < n && v[i].0.key_le(&k)
        invariant
            i <= n,
            n == v@.len(),
            v@ == s0,
            forall|m: int| 0 <= m < i ==> (#[trigger] s0[m]).0.le_spec(k),
        decreases n - i,
    {
        proof {
            if s0[i as int].0 == k {
                assert(has_ckey(s0, k));
            }
        }
        i = i + 1;
    }
    proof {
        assert forall|m: int| i <= m < s0.len() implies k.le_spec((#[trigger] s0[m]).0) by {
            if m == i {
                K::le_total(k, s0[m].0);
            } else {
                K::le_total(k, s0[i as int].0);
                assert(s0[i as int].0.le_spec(s0[m].0));
                K::le_trans(k, s0[i as int].0, s0[m].0);
            }
        }
        assert forall|m: int| 0 <= m < s0.len() implies (#[trigger] s0[m]).0 != k by {
            if s0[m].0 == k {
                assert(has_ckey(s0, k));
            }
        }
    }
    v.insert(i, (k, e));
    proof {
        assert(v@ =~= s0.insert(i as int, (k, e)));
        assert(forall|m: int| 0 <= m < i ==> #[trigger] v@[m] == s0[m]);
        assert(forall|m: int| i < m < v@.len() ==> #[trigger] v@[m] == s0[m - 1]);
        assert forall|a: int, b: int| 0 <= a < b < v@.len()
            implies (#[trigger] v@[a]).0.le_spec((#[trigger] v@[b]).0) && v@[a].0 != v@[b].0 by {
            if a < i && b < i {
            } else if a < i && b == i {
                assert(s0[a].0.le_spec(k));
            } else if a == i {
                assert(k.le_spec(s0[b - 1].0));
            } else if a < i {
                assert(s0[a].0.le_spec(s0[b - 1].0));
            }
        }
        lemma_cidx_unique(v@, k, i as int);
        assert forall|q: K| q != k
            implies (#[trigger] has_ckey(v@, q) <==> has_ckey(s0, q)) by {
            if has_ckey(v@, q) {
                let w = ckey_idx(v@, q);
                lemma_cidx_unique(v@, q, w);
                if w < i {
                    assert(s0[w].0 == q);
                } else {
                    assert(s0[w - 1].0 == q);
                }
            }
            if has_ckey(s0, q) {
                let w = ckey_idx(s0, q);
                if w < i {
                    assert(v@[w].0 == q);
                } else {
                    assert(v@[w + 1].0 == q);
                }
                assert(has_ckey(v@, q));
            }
        }
        assert forall|q: K| q != k && has_ckey(s0, q)
            implies #[trigger] centry_of(v@, q) == centry_of(s0, q) by {
            let w = ckey_idx(s0, q);
            lemma_cidx_unique(s0, q, w);
            if w < i {
                assert(v@[w].0 == q);
                lemma_cidx_unique(v@, q, w);
            } else {
                assert(v@[w + 1].0 == q);
                lemma_cidx_unique(v@, q, w + 1);
            }
        }
    }
}

/// The LRU cache: sorted entries, capacity, eviction batch, logical clock
/// and cumulative statistics.
#[derive(Debug)]
pub struct LruCache<K: CacheKey, V> {
    /// The entries, sorted by key.
    entries: Vec<(K, CacheEntry<V>)>,
    /// Maximum number of entries; at least one.
    max_size: usize,
    /// Entries evicted per batch; at least one.
    eviction_batch: usize,
    /// The logical clock: one tick per `insert` or `get`.
    logical_clock: u64,
    /// Lifetime hit count.
    hits: u64,
    /// Lifetime miss count.
    misses: u64,
}

impl<K: CacheKey, V: Clone> LruCache<K, V> {
    /// The entries, in key order.
    pub closed spec fn entries_view(self) -> Seq<(K, CacheEntry<V>)> {
        self.entries@
    }

    /// The capacity.
    pub closed spec fn capacity(self) -> usize {
        self.max_size
    }

    /// The eviction batch size.
    pub closed spec fn batch(self) -> usize {
        self.eviction_batch
    }

    /// The logical clock value.
    pub closed spec fn clock(self) -> u64 {
        self.logical_clock
    }

    /// Lifetime hits.
    pub closed spec fn hits_count(self) -> u64 {
        self.hits
    }

    /// Lifetime misses.
    pub closed spec fn misses_count(self) -> u64 {
        self.misses
    }

    /// Well-formedness: sorted distinct keys, and both tunables at least one.
    pub open spec fn wf(self) -> bool {
        &&& cache_sorted(self.entries_view())
        &&& self.capacity() >= 1
        &&& self.batch() >= 1
    }

    /// A cache holds a key exactly when some entry carries it.
    pub open spec fn has_key_spec(self, k: K) -> bool {
        has_ckey(self.entries_view(), k)
    }

    /// Create a cache with the given capacity (clamped to at least one)
    /// and the default eviction batch.
    pub fn new(max_size: usize) -> (r: LruCache<K, V>)
        ensures
            r.wf(),
            r.entries_view() == Seq::<(K, CacheEntry<V>)>::empty(),
            r.capacity() == (if max_size >= 1 { max_size } else { 1 }),
            r.batch() == DEFAULT_EVICTION_BATCH,
            r.clock() == 0,
            r.hits_count() == 0,
            r.misses_count() == 0,
    {
        let r = LruCache {
            entries: Vec::new(),
            max_size: if max_size >= 1 { max_size } else { 1 },
            eviction_batch: DEFAULT_EVICTION_BATCH,
            logical_clock: 0,
            hits: 0,
            misses: 0,
        };
        proof {
            assert(r.entries_view() =~= Seq::<(K, CacheEntry<V>)>::empty());
        }
        r
    }

    /// The same cache with a custom eviction batch size (clamped to at
    /// least one).
    pub fn with_eviction_batch(self, batch_size: usize) -> (r: LruCache<K, V>)
        ensures
            r.entries_view() == self.entries_view(),
            r.capacity() == self.capacity(),
            r.batch() == (if batch_size >= 1 { batch_size } else { 1 }),
            r.clock() == self.clock(),
            r.hits_count() == self.hits_count(),
            r.misses_count() == self.misses_count(),
    {
        LruCache { eviction_batch: if batch_size >= 1 { batch_size } else { 1 }, ..self }
    }

    /// Look a value up, advancing the clock one tick. A hit returns a copy
    /// of the value and refreshes the entry's recency; a miss only counts.
    pub fn get(&mut self, key: &K) -> (r: Option<V>)
        requires
            old(self).wf(),
        ensures
            final(self).wf(),
            final(self).capacity() == old(self).capacity(),
            final(self).batch() == old(self).batch(),
            final(self).clock() == sat_inc_u64(old(self).clock()),
            if old(self).has_key_spec(*key) {
                &&& final(self).hits_count() == sat_inc_u64(old(self).hits_count())
                &&& final(self).misses_count() == old(self).misses_count()
                &&& (r matches Some(v) && cloned(centry_of(old(self).entries_view(), *key).value, v))
                &&& final(self).entries_view() == old(self).entries_view().update(
                    ckey_idx(old(self).entries_view(), *key),
                    (*key, CacheEntry {
                        value: centry_of(old(self).entries_view(), *key).value,
                        last_access: sat_inc_u64(old(self).clock()),
                        access_count: sat_inc_u64(centry_of(old(self).entries_view(), *key).access_count),
                    }),
                )
            } else {
                &&& final(self).misses_count() == sat_inc_u64(old(self).misses_count())
                &&& final(self).hits_count() == old(self).hits_count()
                &&& r is None
                &&& final(self).entries_view() == old(self).entries_view()
            },
    {
        let ghost s0 = self.entries@;
        if self.logical_clock != u64::MAX {
            self.logical_clock = self.logical_clock + 1;
        }
        let ts = self.logical_clock;
        match cfind(&self.entries, key) {
            Some(i) => {
                proof {
                    lemma_cidx_unique(s0, *key, i as int);
                }
                let (k0, mut e) = self.entries.remove(i);
                e.last_access = ts;
                e.access_count = if e.access_count == u64::MAX {
                    e.access_count
                } else {
                    e.access_count + 1
                };
                let out = e.value.clone();
                self.entries.insert(i, (k0, e));
                self.hits = if self.hits == u64::MAX {
                    self.hits
                } else {
                    self.hits + 1
                };
                proof {
                    assert(self.entries@ =~= s0.update(i as int, (*key, CacheEntry {
                        value: centry_of(s0, *key).value,
                        last_access: sat_inc_u64(old(self).clock()),
                        access_count: sat_inc_u64(centry_of(s0, *key).access_count),
                    })));
                    assert(cache_sorted(self.entries@)) by {
                        assert(forall|m: int| 0 <= m < s0.len() && m != i
                            ==> #[trigger] self.entries@[m] == s0[m]);
                        assert(self.entries@[i as int].0 == s0[i as int].0);
                    }
                }
                Some(out)
            }
            None => {
                self.misses = if self.misses == u64::MAX {
                    self.misses
                } else {
                    self.misses + 1
                };
                None
            }
        }
    }

    /// Inspect a value without touching recency, the clock, or the
    /// statistics: an immutable read.
    pub fn peek(&self, key: &K) -> (r: Option<V>)
        requires
            self.wf(),
        ensures
            match r {
                Some(v) => self.has_key_spec(*key)
                    && cloned(centry_of(self.entries_view(), *key).value, v),
                None => !self.has_key_spec(*key),
            },
    {
        match cfind(&self.entries, key) {
            Some(i) => {
                proof {
                    lemma_cidx_unique(self.entries@, *key, i as int);
                }
                Some(self.entries[i].1.value.clone())
            }
            None => None,
        }
    }

    /// Insert a value, advancing the clock one tick. An existing key is
    /// overwritten in place; a new key on a full cache first evicts one
    /// batch of the least-recently-accessed entries.
    pub fn insert(&mut self, key: K, value: V)
        requires
            old(self).wf(),
        ensures
            final(self).wf(),
            final(self).capacity() == old(self).capacity(),
            final(self).batch() == old(self).batch(),
            final(self).clock() == sat_inc_u64(old(self).clock()),
            final(self).hits_count() == old(self).hits_count(),
            final(self).misses_count() == old(self).misses_count(),
            ({
                let ts = sat_inc_u64(old(self).clock());
                let s0 = old(self).entries_view();
                if has_ckey(s0, key) {
                    final(self).entries_view() == s0.update(ckey_idx(s0, key), (key, CacheEntry {
                        value: value,
                        last_access: ts,
                        access_count: sat_inc_u64(centry_of(s0, key).access_count),
                    }))
                } else {
                    let base = if s0.len() >= old(self).capacity() {
                        evict_n(s0, (if old(self).batch() <= s0.len() { old(self).batch() as int } else { s0.len() as int }) as nat)
                    } else {
                        s0
                    };
                    &&& final(self).entries_view().len() == base.len() + 1
                    &&& has_ckey(final(self).entries_view(), key)
                    &&& centry_of(final(self).entries_view(), key) == (CacheEntry {
                        value: value,
                        last_access: ts,
                        access_count: 1u64,
                    })
                    &&& (forall|q: K| q != key
                        ==> (#[trigger] has_ckey(final(self).entries_view(), q) <==> has_ckey(base, q)))
                    &&& (forall|q: K| q != key && has_ckey(base, q)
                        ==> #[trigger] centry_of(final(self).entries_view(), q) == centry_of(base, q))
                }
            }),
    {
        let ghost s0 = self.entries@;
        if self.logical_clock != u64::MAX {
            self.logical_clock = self.logical_clock + 1;
        }
        let ts = self.logical_clock;
        match cfind(&self.entries, &key) {
            Some(i) => {
                proof {
                    lemma_cidx_unique(s0, key, i as int);
                }
                let (k0, mut e) = self.entries.remove(i);
                e.value = value;
                e.last_access = ts;
                e.access_count = if e.access_count == u64::MAX {
                    e.access_count
                } else {
                    e.access_count + 1
                };
                self.entries.insert(i, (k0, e));
                proof {
                    assert(self.entries@ =~= s0.update(i as int, (key, CacheEntry {
                        value: value,
                        last_access: sat_inc_u64(old(self).clock()),
                        access_count: sat_inc_u64(centry_of(s0, key).access_count),
                    })));
                    assert(cache_sorted(self.entries@)) by {
                        assert(forall|m: int| 0 <= m < s0.len() && m != i
                            ==> #[trigger] self.entries@[m] == s0[m]);
                        assert(self.entries@[i as int].0 == s0[i as int].0);
                    }
                }
            }
            None => {
                if self.entries.len() >= self.max_size {
                    self.evict();
                    proof {
                        lemma_evict_subset(s0, (if old(self).batch() <= s0.len() {
                            old(self).batch() as int
                        } else {
                            s0.len() as int
                        }) as nat);
                    }
                }
                proof {
                    if has_ckey(self.entries@, key) {
                        assert(has_ckey(s0, key));
                    }
                }
                cache_set_fresh(&mut self.entries, key, CacheEntry {
                    value: value,
                    last_access: ts,
                    access_count: 1,
                });
            }
        }
    }

    /// Evict one batch of least-recently-accessed entries, oldest first,
    /// ties in key order.
    fn evict(&mut self)
        requires
            old(self).wf(),
            old(self).entries_view().len() > 0,
        ensures
            final(self).wf(),
            final(self).capacity() == old(self).capacity(),
            final(self).batch() == old(self).batch(),
            final(self).clock() == old(self).clock(),
            final(self).hits_count() == old(self).hits_count(),
            final(self).misses_count() == old(self).misses_count(),
            final(self).entries_view() == evict_n(
                old(self).entries_view(),
                (if old(self).batch() <= old(self).entries_view().len() {
                    old(self).batch() as int
                } else {
                    old(self).entries_view().len() as int
                }) as nat,
            ),
    {
        let ghost s0 = self.entries@;
        let to_evict = if self.eviction_batch <= self.entries.len() {
            self.eviction_batch
        } else {
            self.entries.len()
        };
        let mut done: usize = 0;
        while done < to_evict
            invariant
                done <= to_evict,
                to_evict <= s0.len(),
                self.entries@.len() == s0.len() - done,
                cache_sorted(self.entries@),
                self.max_size == old(self).capacity(),
                self.eviction_batch == old(self).batch(),
                self.logical_clock == old(self).clock(),
                self.hits == old(self).hits_count(),
                self.misses == old(self).misses_count(),
                evict_n(self.entries@, (to_evict - done) as nat) == evict_n(s0, to_evict as nat),
            decreases to_evict - done,
        {
            let ghost s_in = self.entries@;
            let n = self.entries.len();
            let mut best: usize = 0;
            let mut bi: usize = 1;
            while bi < n
                invariant
                    n == self.entries@.len(),
                    n > 0,
                    best < bi,
                    bi <= n,
                    forall|m: int| 0 <= m < bi
                        ==> self.entries@[best as int].1.last_access
                            <= (#[trigger] self.entries@[m]).1.last_access,
                    forall|m: int| 0 <= m < best
                        ==> (#[trigger] self.entries@[m]).1.last_access
                            > self.entries@[best as int].1.last_access,
                decreases n - bi,
            {
                if self.entries[bi].1.last_access < self.entries[best].1.last_access {
                    best = bi;
                }
                bi = bi + 1;
            }
            proof {
                lemma_first_min(s_in);
                let i = first_min_idx(s_in);
                if best < i {
                    assert(s_in[best as int].1.last_access > s_in[i].1.last_access);
                } else if i < best as int {
                    assert(s_in[i].1.last_access > s_in[best as int].1.last_access);
                }
                assert(best as int == i);
            }
            let _ = self.entries.remove(best);
            proof {
                assert(self.entries@ =~= s_in.remove(first_min_idx(s_in)));
                assert(forall|m: int| 0 <= m < best ==> #[trigger] self.entries@[m] == s_in[m]);
                assert(forall|m: int| best <= m < self.entries@.len()
                    ==> #[trigger] self.entries@[m] == s_in[m + 1]);
                assert(cache_sorted(self.entries@));
                assert(evict_n(s_in, (to_evict - done) as nat)
                    == evict_n(self.entries@, (to_evict - done - 1) as nat));
            }
            done = done + 1;
        }
    }

    /// Remove a key, returning its value; no clock or statistics change.
    pub fn remove(&mut self, key: &K) -> (r: Option<V>)
        requires
            old(self).wf(),
        ensures
            final(self).wf(),
            final(self).capacity() == old(self).capacity(),
            final(self).batch() == old(self).batch(),
            final(self).clock() == old(self).clock(),
            final(self).hits_count() == old(self).hits_count(),
            final(self).misses_count() == old(self).misses_count(),
            if old(self).has_key_spec(*key) {
                &&& r == Some(centry_of(old(self).entries_view(), *key).value)
                &&& final(self).entries_view()
                    == old(self).entries_view().remove(ckey_idx(old(self).entries_view(), *key))
            } else {
                &&& r is None
                &&& final(self).entries_view() == old(self).entries_view()
            },
    {
        let ghost s0 = self.entries@;
        match cfind(&self.entries, key) {
            Some(i) => {
                proof {
                    lemma_cidx_unique(s0, *key, i as int);
                }
                let (_, e) = self.entries.remove(i);
                proof {
                    assert(forall|m: int| 0 <= m < i ==> #[trigger] self.entries@[m] == s0[m]);
                    assert(forall|m: int| i <= m < self.entries@.len()
                        ==> #[trigger] self.entries@[m] == s0[m + 1]);
                    assert(cache_sorted(self.entries@));
                }
                Some(e.value)
            }
            None => None,
        }
    }

    /// Drop every entry. The clock and the statistics keep their values:
    /// they are cumulative for the cache's lifetime.
    pub fn clear(&mut self)
        requires
            old(self).wf(),
        ensures
            final(self).wf(),
            final(self).entries_view() == Seq::<(K, CacheEntry<V>)>::empty(),
            final(self).capacity() == old(self).capacity(),
            final(self).batch() == old(self).batch(),
            final(self).clock() == old(self).clock(),
            final(self).hits_count() == old(self).hits_count(),
            final(self).misses_count() == old(self).misses_count(),
    {
        self.entries.clear();
        proof {
            assert(self.entries@ =~= Seq::<(K, CacheEntry<V>)>::empty());
        }
    }

    /// Current number of entries.
    pub fn len(&self) -> (r: usize)
        ensures
            r == self.entries_view().len(),
    {
        self.entries.len()
    }

    /// Whether the cache holds nothing.
    pub fn is_empty(&self) -> (r: bool)
        ensures
            r == (self.entries_view().len() == 0),
    {
        self.entries.is_empty()
    }

    /// A snapshot of the cache statistics.
    pub fn stats(&self) -> (r: CacheStats)
        ensures
            r.size == self.entries_view().len(),
            r.max_size == self.capacity(),
            r.hits == self.hits_count(),
            r.misses == self.misses_count(),
            r.hit_rate_percent == self.hit_rate_spec(),
    {
        CacheStats {
            size: self.entries.len(),
            max_size: self.max_size,
            hits: self.hits,
            misses: self.misses,
            hit_rate_percent: self.hit_rate_percent(),
        }
    }

    /// The integer hit rate: hits per hundred accesses, floored; zero
    /// before any access.
    pub open spec fn hit_rate_spec(self) -> u8 {
        let total = sat_add_u64(self.hits_count(), self.misses_count());
        if total == 0 {
            0
        } else {
            ((sat_mul100_u64(self.hits_count()) / total) as u8)
        }
    }

    /// The integer hit rate, computed with saturating arithmetic.
    pub fn hit_rate_percent(&self) -> (r: u8)
        ensures
            r == self.hit_rate_spec(),
    {
        let total = self.hits.saturating_add(self.misses);
        if total == 0 {
            0
        } else {
            let scaled = if self.hits > u64::MAX / 100 {
                u64::MAX
            } else {
                self.hits * 100
            };
            (scaled / total) as u8
        }
    }

    /// Whether a key is present; no accounting.
    pub fn contains(&self, key: &K) -> (r: bool)
        ensures
            r == self.has_key_spec(*key),
    {
        cfind(&self.entries, key).is_some()
    }

    /// The keys, in their deterministic sorted order.
    pub fn keys(&self) -> (r: Vec<K>)
        ensures
            r@.len() == self.entries_view().len(),
            forall|i: int| 0 <= i < r@.len() ==> #[trigger] r@[i] == self.entries_view()[i].0,
    {
        let mut r: Vec<K> = Vec::new();
        let n = self.entries.len();
        let mut i: usize = 0;
        while i < n
            invariant
                i <= n,
                n == self.entries@.len(),
                r@.len() == i,
                forall|m: int| 0 <= m < i ==> #[trigger] r@[m] == self.entries@[m].0,
            decreases n - i,
        {
            r.push(self.entries[i].0.key_clone());
            i = i + 1;
        }
        r
    }
}

/// Saturating addition on unsigned 64-bit counters.
pub open spec fn sat_add_u64(a: u64, b: u64) -> u64 {
    if a + b > u64::MAX {
        u64::MAX
    } else {
        (a + b) as u64
    }
}

/// One hundred times a counter, saturating.
pub open spec fn sat_mul100_u64(a: u64) -> u64 {
    if a > u64::MAX / 100 {
        u64::MAX
    } else {
        (a * 100) as u64
    }
}

/// A snapshot of cache performance counters.
#[derive(Debug, Clone, Copy)]
pub struct CacheStats {
    /// Current number of entries.
    pub size: usize,
    /// Maximum cache size.
    pub max_size: usize,
    /// Lifetime hits.
    pub hits: u64,
    /// Lifetime misses.
    pub misses: u64,
    /// Integer hit rate, 0 to 100.
    pub hit_rate_percent: u8,
}

/// The cache specialized to hot nodes.
pub type NodeCache<V> = LruCache<NodeId, V>;

/// A node cache with the default capacity.
pub fn node_cache<V: Clone>() -> (r: NodeCache<V>)
    ensures
        r.wf(),
        r.entries_view().len() == 0,
        r.capacity() == DEFAULT_CACHE_SIZE,
{
    LruCache::new(DEFAULT_CACHE_SIZE)
}

/// A node cache with a chosen capacity (clamped to at least one).
pub fn node_cache_with_size<V: Clone>(size: usize) -> (r: NodeCache<V>)
    ensures
        r.wf(),
        r.entries_view().len() == 0,
        r.capacity() == (if size >= 1 { size } else { 1 }),
{
    LruCache::new(size)
}

/// The key of a memoized traversal: start node, depth, optional weight
/// filter, ordered lexicographically in that order.
#[derive(Debug, Clone)]
pub struct TraversalCacheKey {
    /// Start node of the traversal.
    pub start: NodeId,
    /// Requested depth.
    pub depth: usize,
    /// Optional minimum-weight filter.
    pub min_weight: Option<i64>,
}

impl TraversalCacheKey {
    /// A key for an unfiltered traversal.
    pub fn new(start: NodeId, depth: usize) -> (r: TraversalCacheKey)
        ensures
            r.start == start,
            r.depth == depth,
            r.min_weight is None,
    {
        TraversalCacheKey { start, depth, min_weight: None }
    }

    /// A key for a weight-filtered traversal.
    pub fn with_filter(start: NodeId, depth: usize, min_weight: i64) -> (r: TraversalCacheKey)
        ensures
            r.start == start,
            r.depth == depth,
            r.min_weight == Some(min_weight),
    {
        TraversalCacheKey { start, depth, min_weight: Some(min_weight) }
    }

    /// The lexicographic order on `(start, depth, min_weight)`, an absent
    /// filter ordering below any present one.
    pub open spec fn lex_le(self, other: TraversalCacheKey) -> bool {
        if self.start.0 != other.start.0 {
            self.start.0 < other.start.0
        } else if self.depth != other.depth {
            self.depth < other.depth
        } else {
            match (self.min_weight, other.min_weight) {
                (None, _) => true,
                (Some(_), None) => false,
                (Some(a), Some(b)) => a <= b,
            }
        }
    }
}

impl CacheKey for TraversalCacheKey {
    open spec fn le_spec(self, other: Self) -> bool {
        self.lex_le(other)
    }

    proof fn le_total(a: Self, b: Self) {
    }

    proof fn le_antisym(a: Self, b: Self) {
    }

    proof fn le_trans(a: Self, b: Self, c: Self) {
    }

    fn key_le(&self, other: &Self) -> (r: bool) {
        if self.start.0 != other.start.0 {
            self.start.0 < other.start.0
        } else if self.depth != other.depth {
            self.depth < other.depth
        } else {
            match (self.min_weight, other.min_weight) {
                (None, _) => true,
                (Some(_), None) => false,
                (Some(a), Some(b)) => a <= b,
            }
        }
    }

    fn key_eq(&self, other: &Self) -> (r: bool) {
        self.start.0 == other.start.0 && self.depth == other.depth
            && (match (self.min_weight, other.min_weight) {
                (None, None) => true,
                (Some(a), Some(b)) => a == b,
                _ => false,
            })
    }

    fn key_clone(&self) -> (r: Self) {
        TraversalCacheKey { start: self.start, depth: self.depth, min_weight: self.min_weight }
    }
}

impl PartialEq for TraversalCacheKey {
    /// Field-wise equality.
    fn eq(&self, other: &Self) -> (r: bool) {
        self.key_eq(other)
    }
}

impl vstd::std_specs::cmp::PartialEqSpecImpl for TraversalCacheKey {
    open spec fn obeys_eq_spec() -> bool {
        true
    }

    open spec fn eq_spec(&self, other: &Self) -> bool {
        *self == *other
    }
}

impl PartialOrd for TraversalCacheKey {
    /// The lexicographic order on `(start, depth, min_weight)`.
    fn partial_cmp(&self, other: &Self) -> (r: Option<core::cmp::Ordering>) {
        if self.key_eq(other) {
            Some(core::cmp::Ordering::Equal)
        } else if self.key_le(other) {
            Some(core::cmp::Ordering::Less)
        } else {
            Some(core::cmp::Ordering::Greater)
        }
    }
}

impl vstd::std_specs::cmp::PartialOrdSpecImpl for TraversalCacheKey {
    open spec fn obeys_partial_cmp_spec() -> bool {
        true
    }

    open spec fn partial_cmp_spec(&self, other: &Self) -> Option<core::cmp::Ordering> {
        if *self == *other {
            Some(core::cmp::Ordering::Equal)
        } else if self.lex_le(*other) {
            Some(core::cmp::Ordering::Less)
        } else {
            Some(core::cmp::Ordering::Greater)
        }
    }
}

/// The cache specialized to memoized traversal artifacts.
pub type TraversalCache = LruCache<TraversalCacheKey, Artifact>;

/// A traversal cache with a smaller default capacity, since artifacts are
/// larger values than nodes.
pub fn traversal_cache() -> (r: TraversalCache)
    ensures
        r.wf(),
        r.entries_view().len() == 0,
        r.capacity() == 100,
{
    LruCache::new(100)
}

} // verus!
