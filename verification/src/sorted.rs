//! Association lists kept sorted by a `u64` key.
//!
//! Every mapping in the engine (node table, adjacency rows, entity index)
//! is a vector of pairs with strictly increasing keys, so iteration order is
//! a function of content alone — the root of the engine's determinism
//! guarantee. This module gives the ordered-map operations and their
//! correspondence to mathematical `Map`s.

use vstd::prelude::*;

verus! {

/// The keys of `s` are strictly increasing.
pub open spec fn keys_sorted<V>(s: Seq<(u64, V)>) -> bool {
    forall|i: int, j: int| 0 <= i < j < s.len() ==> s[i].0 < s[j].0
}

/// Some pair of `s` carries the key `k`.
pub open spec fn has_key<V>(s: Seq<(u64, V)>, k: u64) -> bool {
    exists|i: int| 0 <= i < s.len() && s[i].0 == k
}

/// The index of the pair carrying `k` (meaningful only when `has_key` holds;
/// under `keys_sorted` that index is unique).
pub open spec fn key_idx<V>(s: Seq<(u64, V)>, k: u64) -> int {
    choose|i: int| 0 <= i < s.len() && s[i].0 == k
}

/// The value stored under `k` (meaningful only when `has_key` holds).
pub open spec fn val_of<V>(s: Seq<(u64, V)>, k: u64) -> V {
    s[key_idx(s, k)].1
}

/// The mathematical map an association list stands for.
pub open spec fn as_map<V>(s: Seq<(u64, V)>) -> Map<u64, V> {
    Map::new(|k: u64| has_key(s, k), |k: u64| val_of(s, k))
}

/// In a sorted list each key names one pair: any index holding `k` is
/// `key_idx(s, k)`, and the stored value is the pair's value.
pub proof fn lemma_idx_unique<V>(s: Seq<(u64, V)>, k: u64, i: int)
    requires
        keys_sorted(s),
        0 <= i < s.len(),
        s[i].0 == k,
    ensures
        has_key(s, k),
        key_idx(s, k) == i,
        val_of(s, k) == s[i].1,
{
    assert(has_key(s, k));
    let j = key_idx(s, k);
    if i < j {
        assert(s[i].0 < s[j].0);
    } else if j < i {
        assert(s[j].0 < s[i].0);
    }
}

/// Sorted association lists are canonical: two of them standing for the
/// same mapping are the same list — iteration order is a function of
/// content alone.
pub proof fn lemma_sorted_canonical<V>(s1: Seq<(u64, V)>, s2: Seq<(u64, V)>)
    requires
        keys_sorted(s1),
        keys_sorted(s2),
        forall|q: u64| has_key(s1, q) <==> has_key(s2, q),
        forall|q: u64| has_key(s1, q) ==> #[trigger] val_of(s1, q) == val_of(s2, q),
    ensures
        s1 == s2,
    decreases s1.len(),
{
    if s1.len() == 0 {
        if s2.len() > 0 {
            assert(has_key(s2, s2[0].0));
        }
        assert(s1 =~= s2);
    } else {
        assert(has_key(s1, s1[0].0));
        assert(has_key(s2, s2[0].0));
        let i = key_idx(s2, s1[0].0);
        lemma_idx_unique(s2, s1[0].0, i);
        let j = key_idx(s1, s2[0].0);
        lemma_idx_unique(s1, s2[0].0, j);
        assert(s2[0].0 <= s2[i].0);
        assert(s1[0].0 <= s1[j].0);
        assert(s1[0].0 == s2[0].0);
        lemma_idx_unique(s1, s1[0].0, 0);
        lemma_idx_unique(s2, s1[0].0, 0);
        assert(s1[0].1 == s2[0].1);
        let d1 = s1.drop_first();
        let d2 = s2.drop_first();
        assert(forall|m: int| 0 <= m < d1.len() ==> #[trigger] d1[m] == s1[m + 1]);
        assert(forall|m: int| 0 <= m < d2.len() ==> #[trigger] d2[m] == s2[m + 1]);
        assert forall|q: u64| has_key(d1, q) <==> has_key(d2, q) by {
            if has_key(d1, q) {
                let m = key_idx(d1, q);
                lemma_idx_unique(d1, q, m);
                assert(s1[m + 1].0 == q);
                lemma_idx_unique(s1, q, m + 1);
                let w = key_idx(s2, q);
                lemma_idx_unique(s2, q, w);
                assert(w > 0) by {
                    if w == 0 {
                        assert(s1[0].0 < s1[m + 1].0);
                    }
                }
                assert(d2[w - 1].0 == q);
            }
            if has_key(d2, q) {
                let m = key_idx(d2, q);
                lemma_idx_unique(d2, q, m);
                assert(s2[m + 1].0 == q);
                lemma_idx_unique(s2, q, m + 1);
                let w = key_idx(s1, q);
                lemma_idx_unique(s1, q, w);
                assert(w > 0) by {
                    if w == 0 {
                        assert(s2[0].0 < s2[m + 1].0);
                    }
                }
                assert(d1[w - 1].0 == q);
            }
        }
        assert forall|q: u64| has_key(d1, q) implies #[trigger] val_of(d1, q) == val_of(d2, q) by {
            let m = key_idx(d1, q);
            lemma_idx_unique(d1, q, m);
            assert(s1[m + 1].0 == q);
            lemma_idx_unique(s1, q, m + 1);
            let w = key_idx(d2, q);
            lemma_idx_unique(d2, q, w);
            assert(s2[w + 1].0 == q);
            lemma_idx_unique(s2, q, w + 1);
            assert(val_of(s1, q) == val_of(s2, q));
        }
        lemma_sorted_canonical(d1, d2);
        assert(s1.len() == s2.len());
        assert forall|m: int| 0 <= m < s1.len() implies s1[m] == s2[m] by {
            if m > 0 {
                assert(d1[m - 1] == d2[m - 1]);
            } else {
                assert(s1[0] == (s1[0].0, s1[0].1));
                assert(s2[0] == (s2[0].0, s2[0].1));
            }
        }
        assert(s1 =~= s2);
    }
}

/// Splitting a sorted list at its last pair splits its mapping.
pub proof fn lemma_as_map_snoc<V>(s: Seq<(u64, V)>)
    requires
        keys_sorted(s),
        s.len() > 0,
    ensures
        as_map(s) == as_map(s.drop_last()).insert(s.last().0, s.last().1),
{
    let d = s.drop_last();
    let n = s.len() - 1;
    lemma_idx_unique(s, s.last().0, n);
    assert forall|q: u64| has_key(s, q) <==> (q == s.last().0 || has_key(d, q)) by {
        if has_key(s, q) && q != s.last().0 {
            let m = key_idx(s, q);
            lemma_idx_unique(s, q, m);
            assert(d[m].0 == q);
        }
        if has_key(d, q) {
            let m = key_idx(d, q);
            assert(s[m].0 == q);
        }
    }
    assert forall|q: u64| q != s.last().0 && has_key(d, q)
        implies val_of(s, q) == #[trigger] val_of(d, q) by {
        let m = key_idx(d, q);
        lemma_idx_unique(d, q, m);
        assert(s[m].0 == q);
        lemma_idx_unique(s, q, m);
    }
    assert(as_map(s) =~= as_map(d).insert(s.last().0, s.last().1));
}

/// Find the index holding key `k`, if any.
pub fn find_idx<V>(v: &Vec<(u64, V)>, k: u64) -> (r: Option<usize>)
    ensures
        match r {
            Some(i) => i < v@.len() && v@[i as int].0 == k,
            None => !has_key(v@, k),
        },
{
    let n = v.len();
    let mut i: usize = 0;
    while i < n
        invariant
            i <= n,
            n == v@.len(),
            forall|m: int| 0 <= m < i ==> v@[m].0 != k,
        decreases n - i,
    {
        if v[i].0 == k {
            return Some(i);
        }
        i = i + 1;
    }
    None
}

/// Insert `(k, val)` keeping the keys sorted, replacing any pair already
/// keyed by `k`. The list afterwards stands for the old map with `k` bound
/// to `val`.
pub fn set_kv<V>(v: &mut Vec<(u64, V)>, k: u64, val: V)
    requires
        keys_sorted(old(v)@),
    ensures
        keys_sorted(final(v)@),
        as_map(final(v)@) == as_map(old(v)@).insert(k, val),
        has_key(final(v)@, k),
        val_of(final(v)@, k) == val,
        forall|q: u64| has_key(final(v)@, q) <==> (q == k || has_key(old(v)@, q)),
        forall|q: u64| q != k && has_key(old(v)@, q) ==> val_of(final(v)@, q) == val_of(old(v)@, q),
        final(v)@.len() == old(v)@.len() + (if has_key(old(v)@, k) { 0int } else { 1int }),
        (if has_key(old(v)@, k) {
            final(v)@ == old(v)@.update(key_idx(old(v)@, k), (k, val))
        } else {
            exists|i: int| 0 <= i <= old(v)@.len() && final(v)@ == old(v)@.insert(i, (k, val))
        }),
{
    let ghost s0 = v@;
    let n = v.len();
    let mut i: usize = 0;
    while i < n && v[i].0 < k
        invariant
            i <= n,
            n == v@.len(),
            v@ == s0,
            forall|m: int| 0 <= m < i ==> v@[m].0 < k,
        decreases n - i,
    {
        i = i + 1;
    }
    if i < n && v[i].0 == k {
        let _ = v.remove(i);
        v.insert(i, (k, val));
        proof {
            assert(v@ =~= s0.update(i as int, (k, val)));
            assert(keys_sorted(v@));
            lemma_idx_unique(s0, k, i as int);
            lemma_idx_unique(v@, k, i as int);
            assert forall|q: u64| has_key(v@, q) <==> (q == k || has_key(s0, q)) by {
                if q != k {
                    if has_key(v@, q) {
                        let w = key_idx(v@, q);
                        assert(s0[w].0 == q);
                    }
                    if has_key(s0, q) {
                        let w = key_idx(s0, q);
                        assert(v@[w].0 == q);
                    }
                }
            }
            assert forall|q: u64| q != k && has_key(s0, q) implies val_of(v@, q) == val_of(s0, q) by {
                let w = key_idx(s0, q);
                lemma_idx_unique(s0, q, w);
                assert(v@[w].0 == q);
                lemma_idx_unique(v@, q, w);
            }
            assert(as_map(v@) =~= as_map(s0).insert(k, val));
            assert(v@ == s0.update(key_idx(s0, k), (k, val)));
        }
    } else {
        proof {
            assert forall|m: int| i <= m < s0.len() implies s0[m].0 > k by {
                if i < s0.len() && i < m {
                    assert(s0[i as int].0 < s0[m].0);
                }
            }
            assert(!has_key(s0, k)) by {
                if has_key(s0, k) {
                    let w = key_idx(s0, k);
                    assert(s0[w].0 == k);
                }
            }
        }
        v.insert(i, (k, val));
        proof {
            assert(v@ =~= s0.insert(i as int, (k, val)));
            assert forall|a: int, b: int| 0 <= a < b < v@.len() implies v@[a].0 < v@[b].0 by {
                assert(forall|m: int| 0 <= m < i ==> v@[m] == s0[m]);
                assert(forall|m: int| i < m < v@.len() ==> v@[m] == s0[m - 1]);
            }
            lemma_idx_unique(v@, k, i as int);
            assert forall|q: u64| has_key(v@, q) <==> (q == k || has_key(s0, q)) by {
                if q != k {
                    if has_key(v@, q) {
                        let w = key_idx(v@, q);
                        if w < i {
                            assert(s0[w].0 == q);
                        } else {
                            assert(s0[w - 1].0 == q);
                        }
                    }
                    if has_key(s0, q) {
                        let w = key_idx(s0, q);
                        if w < i {
                            assert(v@[w].0 == q);
                        } else {
                            assert(v@[w + 1].0 == q);
                        }
                    }
                }
            }
            assert forall|q: u64| q != k && has_key(s0, q) implies val_of(v@, q) == val_of(s0, q) by {
                let w = key_idx(s0, q);
                lemma_idx_unique(s0, q, w);
                if w < i {
                    assert(v@[w].0 == q);
                    lemma_idx_unique(v@, q, w);
                } else {
                    assert(v@[w + 1].0 == q);
                    lemma_idx_unique(v@, q, w + 1);
                }
            }
            assert(as_map(v@) =~= as_map(s0).insert(k, val));
            assert(v@ == s0.insert(i as int, (k, val)));
        }
    }
}

} // verus!
