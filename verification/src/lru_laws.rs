//! Laws of the LRU dictionary, stated over its model for keys that are
//! compared by equality.
use crate::lru::{after_lookup, bump, after_set, model_wf, opt_int, resized, set_entries, set_evicted, LruModel};
use vstd::prelude::*;

verus! {

/// No key occurs twice.
pub open spec fn keys_distinct<K, V>(s: Seq<(K, V)>) -> bool {
    forall|i: int, j: int| 0 <= i < j < s.len() ==> s[i].0 != s[j].0
}

/// Position of the first entry with key `k`.
pub open spec fn key_pos<K, V>(s: Seq<(K, V)>, k: K) -> Option<int>
    decreases s.len(),
{
    if s.len() == 0 {
        None
    } else if s[0].0 == k {
        Some(0)
    } else {
        match key_pos(s.drop_first(), k) {
            Some(i) => Some(i + 1),
            None => None,
        }
    }
}

/// Value stored under `k`, if any.
pub open spec fn value_of<K, V>(s: Seq<(K, V)>, k: K) -> Option<V> {
    match key_pos(s, k) {
        Some(i) => Some(s[i].1),
        None => None,
    }
}

/// `key_pos` is the first position holding `k`, and `None` when there is none.
pub proof fn lemma_key_pos<K, V>(s: Seq<(K, V)>, k: K)
    ensures
        match key_pos(s, k) {
            Some(i) => 0 <= i < s.len() && s[i].0 == k && forall|j: int| 0 <= j < i ==> s[j].0 != k,
            None => forall|j: int| 0 <= j < s.len() ==> s[j].0 != k,
        },
    decreases s.len(),
{
    if s.len() > 0 && s[0].0 != k {
        lemma_key_pos(s.drop_first(), k);
        assert forall|j: int| 1 <= j < s.len() implies s[j] == s.drop_first()[j - 1] by {}
    }
}

/// In a sequence without repeated keys, a position holding `k` is `key_pos`.
pub proof fn lemma_key_pos_at<K, V>(s: Seq<(K, V)>, k: K, i: int)
    requires
        keys_distinct(s),
        0 <= i < s.len(),
        s[i].0 == k,
    ensures
        key_pos(s, k) == Some(i),
{
    lemma_key_pos(s, k);
}

/// In a sequence without repeated keys, no position holding `k` means
/// `key_pos` is `None`.
pub proof fn lemma_key_pos_none<K, V>(s: Seq<(K, V)>, k: K)
    requires
        forall|j: int| 0 <= j < s.len() ==> s[j].0 != k,
    ensures
        key_pos(s, k) is None,
{
    lemma_key_pos(s, k);
}

/// Searching with a matcher that accepts exactly the keys equal to `k`
/// reports the position of `k`, or none when `k` is absent.
pub proof fn law_exact_search<K, V, E, F: Fn(&K) -> Result<bool, E>>(s: Seq<(K, V)>, k: K, matches: F, r: Option<usize>)
    requires
        forall|x: &K, b: Result<bool, E>| call_ensures(matches, (x,), b) ==> b == Ok::<bool, E>(*x == k),
        match r {
            Some(i) => {
                &&& i < s.len()
                &&& call_ensures(matches, (&s[i as int].0,), Ok::<bool, E>(true))
                &&& forall|j: int| 0 <= j < i ==> call_ensures(matches, (&#[trigger] s[j].0,), Ok::<bool, E>(false))
            },
            None => forall|j: int| 0 <= j < s.len() ==> call_ensures(matches, (&#[trigger] s[j].0,), Ok::<bool, E>(false)),
        },
    ensures
        opt_int(r) == key_pos(s, k),
{
    lemma_key_pos(s, k);
    match r {
        Some(i) => {
            assert forall|j: int| 0 <= j < i implies s[j].0 != k by {
                assert(call_ensures(matches, (&s[j].0,), Ok::<bool, E>(false)));
            }
        },
        None => {
            assert forall|j: int| 0 <= j < s.len() implies s[j].0 != k by {
                assert(call_ensures(matches, (&s[j].0,), Ok::<bool, E>(false)));
            }
        },
    }
}

/// Write, then read: after `(k, v)` is written at the position that a search
/// for `k` reports, `k` is the most recent key, it holds `v`, no key occurs
/// twice and the dictionary stays within its size.
pub proof fn law_set_then_get<K, V>(m: LruModel<K, V>, k: K, v: V)
    requires
        model_wf(m),
        keys_distinct(m.entries),
    ensures
        ({
            let m2 = after_set(m, key_pos(m.entries, k), k, v);
            &&& model_wf(m2)
            &&& keys_distinct(m2.entries)
            &&& key_pos(m2.entries, k) == Some(0int)
            &&& value_of(m2.entries, k) == Some(v)
        }),
{
    let s = m.entries;
    let found = key_pos(s, k);
    lemma_key_pos(s, k);
    let s2 = set_entries(s, m.size, found, k, v);
    match found {
        Some(i) => {
            let u = s.update(i, (s[i].0, v));
            assert(s2 =~= seq![u[i]] + u.remove(i));
            assert forall|a: int, b: int| 0 <= a < b < s2.len() implies s2[a].0 != s2[b].0 by {
                if a == 0 {
                    assert(s2[b] == u.remove(i)[b - 1]);
                } else {
                    assert(s2[a] == u.remove(i)[a - 1]);
                    assert(s2[b] == u.remove(i)[b - 1]);
                }
            }
        },
        None => {
            let rest = if s.len() < m.size { s } else { s.drop_last() };
            assert(s2 =~= seq![(k, v)] + rest);
            assert forall|a: int, b: int| 0 <= a < b < s2.len() implies s2[a].0 != s2[b].0 by {
                assert(s2[b] == rest[b - 1]);
                if a > 0 {
                    assert(s2[a] == rest[a - 1]);
                }
            }
        },
    }
    lemma_key_pos_at(s2, k, 0);
}

/// A write through the search: when the matcher accepts exactly the keys
/// equal to `k` and the search over the entries reported `r`, writing
/// `(k, v)` at `r` keeps the dictionary within its size and its keys
/// distinct, and makes `(k, v)` the most recent entry.
pub proof fn law_search_then_set<K, V, E, F: Fn(&K) -> Result<bool, E>>(
    m: LruModel<K, V>,
    k: K,
    v: V,
    matches: F,
    r: Option<usize>,
)
    requires
        model_wf(m),
        keys_distinct(m.entries),
        forall|x: &K, b: Result<bool, E>| call_ensures(matches, (x,), b) ==> b == Ok::<bool, E>(*x == k),
        match r {
            Some(i) => {
                &&& i < m.entries.len()
                &&& call_ensures(matches, (&m.entries[i as int].0,), Ok::<bool, E>(true))
                &&& forall|j: int| 0 <= j < i ==> call_ensures(matches, (&#[trigger] m.entries[j].0,), Ok::<bool, E>(false))
            },
            None => forall|j: int|
                0 <= j < m.entries.len() ==> call_ensures(matches, (&#[trigger] m.entries[j].0,), Ok::<bool, E>(false)),
        },
    ensures
        ({
            let m2 = after_set(m, opt_int(r), k, v);
            &&& model_wf(m2)
            &&& keys_distinct(m2.entries)
            &&& m2.entries[0] == (k, v)
        }),
{
    law_exact_search(m.entries, k, matches, r);
    law_set_then_get(m, k, v);
    let s2 = after_set(m, opt_int(r), k, v).entries;
    lemma_key_pos(s2, k);
}

/// A write leaves every other key as it was, except the least recently used
/// entry, which a write of a new key into a full dictionary pushes out.
pub proof fn law_set_keeps_others<K, V>(m: LruModel<K, V>, k: K, v: V, other: K)
    requires
        model_wf(m),
        keys_distinct(m.entries),
        other != k,
    ensures
        ({
            let found = key_pos(m.entries, k);
            let s2 = set_entries(m.entries, m.size, found, k, v);
            let ev = set_evicted(m.entries, m.size, found);
            &&& (ev is Some <==> found is None && m.entries.len() == m.size)
            &&& (ev matches Some(e) ==> e == m.entries.last())
            &&& value_of(s2, other) == (if ev matches Some(e) && e.0 == other {
                None
            } else {
                value_of(m.entries, other)
            })
        }),
{
    let s = m.entries;
    let found = key_pos(s, k);
    law_set_then_get(m, k, v);
    lemma_key_pos(s, k);
    lemma_key_pos(s, other);
    let s2 = set_entries(s, m.size, found, k, v);
    let ev = set_evicted(s, m.size, found);
    match found {
        Some(i) => {
            let u = s.update(i, (s[i].0, v));
            assert(s2 =~= seq![u[i]] + u.remove(i));
            match key_pos(s, other) {
                Some(p) => {
                    let q = if p < i { p + 1 } else { p };
                    assert(s2[q] == s[p]);
                    lemma_key_pos_at(s2, other, q);
                },
                None => {
                    assert forall|j: int| 0 <= j < s2.len() implies s2[j].0 != other by {
                        if j > 0 {
                            let jj = if j - 1 < i { j - 1 } else { j };
                            assert(s2[j] == u[jj]);
                        }
                    }
                    lemma_key_pos_none(s2, other);
                },
            }
        },
        None => {
            let rest = if s.len() < m.size { s } else { s.drop_last() };
            assert(s2 =~= seq![(k, v)] + rest);
            match key_pos(s, other) {
                Some(p) => {
                    if p < rest.len() {
                        assert(s2[p + 1] == s[p]);
                        lemma_key_pos_at(s2, other, p + 1);
                    } else {
                        assert(ev == Some(s.last()));
                        assert forall|j: int| 0 <= j < s2.len() implies s2[j].0 != other by {
                            if j > 0 {
                                assert(s2[j] == s[j - 1]);
                            }
                        }
                        lemma_key_pos_none(s2, other);
                    }
                },
                None => {
                    assert forall|j: int| 0 <= j < s2.len() implies s2[j].0 != other by {
                        if j > 0 {
                            assert(s2[j] == s[j - 1]);
                        }
                    }
                    lemma_key_pos_none(s2, other);
                },
            }
        },
    }
}

/// A lookup changes no key's value and keeps keys distinct; a hit makes the
/// key the most recent and counts one hit, a miss counts one miss.
pub proof fn law_lookup_keeps_contents<K, V>(m: LruModel<K, V>, k: K, other: K)
    requires
        model_wf(m),
        keys_distinct(m.entries),
    ensures
        ({
            let found = key_pos(m.entries, k);
            let m2 = after_lookup(m, found);
            &&& model_wf(m2)
            &&& keys_distinct(m2.entries)
            &&& value_of(m2.entries, other) == value_of(m.entries, other)
            &&& m2.size == m.size
            &&& (found is Some ==> key_pos(m2.entries, k) == Some(0int) && m2.misses == m.misses)
            &&& (found is None ==> m2.entries == m.entries && m2.hits == m.hits)
        }),
{
    let s = m.entries;
    let found = key_pos(s, k);
    lemma_key_pos(s, k);
    lemma_key_pos(s, other);
    match found {
        Some(i) => {
            let s2 = seq![s[i]] + s.remove(i);
            assert(after_lookup(m, found).entries == s2);
            assert forall|a: int, b: int| 0 <= a < b < s2.len() implies s2[a].0 != s2[b].0 by {
                let bb = if b - 1 < i { b - 1 } else { b };
                assert(s2[b] == s[bb]);
                if a > 0 {
                    let aa = if a - 1 < i { a - 1 } else { a };
                    assert(s2[a] == s[aa]);
                }
            }
            lemma_key_pos_at(s2, k, 0);
            match key_pos(s, other) {
                Some(p) => {
                    let q = if p == i { 0 } else if p < i { p + 1 } else { p };
                    assert(s2[q] == s[p]);
                    lemma_key_pos_at(s2, other, q);
                },
                None => {
                    assert forall|j: int| 0 <= j < s2.len() implies s2[j].0 != other by {
                        if j > 0 {
                            let jj = if j - 1 < i { j - 1 } else { j };
                            assert(s2[j] == s[jj]);
                        }
                    }
                    lemma_key_pos_none(s2, other);
                },
            }
        },
        None => {},
    }
}

/// Removing the entry that a search for `k` finds leaves `k` absent and
/// every other key as it was.
pub proof fn law_pop_removes<K, V>(m: LruModel<K, V>, k: K, other: K, i: int)
    requires
        model_wf(m),
        keys_distinct(m.entries),
        key_pos(m.entries, k) == Some(i),
        other != k,
    ensures
        keys_distinct(m.entries.remove(i)),
        value_of(m.entries.remove(i), k) is None,
        value_of(m.entries.remove(i), other) == value_of(m.entries, other),
{
    let s = m.entries;
    let s2 = s.remove(i);
    lemma_key_pos(s, k);
    lemma_key_pos(s, other);
    assert forall|j: int| 0 <= j < s2.len() implies s2[j] == s[if j < i { j } else { j + 1 }] by {}
    assert forall|a: int, b: int| 0 <= a < b < s2.len() implies s2[a].0 != s2[b].0 by {
        assert(s2[a] == s[if a < i { a } else { a + 1 }]);
        assert(s2[b] == s[if b < i { b } else { b + 1 }]);
    }
    assert forall|j: int| 0 <= j < s2.len() implies s2[j].0 != k by {
        assert(s2[j] == s[if j < i { j } else { j + 1 }]);
    }
    lemma_key_pos_none(s2, k);
    match key_pos(s, other) {
        Some(p) => {
            let q = if p < i { p } else { p - 1 };
            assert(s2[q] == s[p]);
            lemma_key_pos_at(s2, other, q);
        },
        None => {
            assert forall|j: int| 0 <= j < s2.len() implies s2[j].0 != other by {
                assert(s2[j] == s[if j < i { j } else { j + 1 }]);
            }
            lemma_key_pos_none(s2, other);
        },
    }
}

/// Shrinking keeps exactly the `size` most recently used entries, with their
/// values, and the dictionary stays within the new size.
pub proof fn law_resize_keeps_recent<K, V>(m: LruModel<K, V>, size: nat, k: K)
    requires
        model_wf(m),
        keys_distinct(m.entries),
        1 <= size <= usize::MAX,
    ensures
        model_wf(resized(m, size)),
        keys_distinct(resized(m, size).entries),
        value_of(resized(m, size).entries, k) == (if key_pos(m.entries, k) matches Some(i) && i < size {
            value_of(m.entries, k)
        } else {
            None
        }),
{
    let s = m.entries;
    let s2 = resized(m, size).entries;
    lemma_key_pos(s, k);
    match key_pos(s, k) {
        Some(i) => {
            if i < s2.len() {
                lemma_key_pos_at(s2, k, i);
            } else {
                lemma_key_pos_none(s2, k);
            }
        },
        None => {
            lemma_key_pos_none(s2, k);
        },
    }
}

/// Writing at the position `i` of an existing entry: the entry, with its key
/// and the new value, becomes the most recent, and the other entries keep
/// their recency order; nothing is evicted, and the size and counters stay.
pub proof fn law_write_existing<K, V>(m: LruModel<K, V>, i: int, k: K, v: V)
    requires
        0 <= i < m.entries.len(),
    ensures
        after_set(m, Some(i), k, v).entries.len() == m.entries.len(),
        after_set(m, Some(i), k, v).entries[0] == (m.entries[i].0, v),
        after_set(m, Some(i), k, v).entries.drop_first() == m.entries.remove(i),
        set_evicted(m.entries, m.size, Some(i)) is None,
        after_set(m, Some(i), k, v).size == m.size,
        after_set(m, Some(i), k, v).hits == m.hits,
        after_set(m, Some(i), k, v).misses == m.misses,
{
    let s2 = after_set(m, Some(i), k, v).entries;
    assert(s2.drop_first() =~= m.entries.remove(i));
}

/// Writing a new key: `(k, v)` becomes the most recent entry and the others
/// follow in their recency order; when the dictionary was full, the least
/// recent entry is evicted and returned.
pub proof fn law_write_new<K, V>(m: LruModel<K, V>, k: K, v: V)
    requires
        model_wf(m),
    ensures
        after_set(m, None, k, v).entries[0] == (k, v),
        after_set(m, None, k, v).entries.drop_first() == (if m.entries.len() < m.size {
            m.entries
        } else {
            m.entries.take(m.size - 1)
        }),
        m.entries.len() < m.size ==> set_evicted(m.entries, m.size, None) is None,
        m.entries.len() == m.size ==> set_evicted(m.entries, m.size, None) == Some(m.entries[m.size - 1]),
        after_set(m, None, k, v).size == m.size,
        after_set(m, None, k, v).hits == m.hits,
        after_set(m, None, k, v).misses == m.misses,
{
    let s2 = after_set(m, None, k, v).entries;
    if m.entries.len() < m.size {
        assert(s2.drop_first() =~= m.entries);
    } else {
        assert(s2.drop_first() =~= m.entries.take(m.size - 1));
    }
}

/// A lookup that finds its key at position `i` makes that entry the most
/// recent and keeps the others in their recency order; it counts a hit
/// (wrapping around past `usize::MAX`).
pub proof fn law_lookup_hit<K, V>(m: LruModel<K, V>, i: int)
    requires
        model_wf(m),
        0 <= i < m.entries.len(),
    ensures
        after_lookup(m, Some(i)).entries.len() == m.entries.len(),
        after_lookup(m, Some(i)).entries[0] == m.entries[i],
        after_lookup(m, Some(i)).entries.drop_first() == m.entries.remove(i),
        after_lookup(m, Some(i)).hits == (m.hits + 1) % (usize::MAX as nat + 1),
        after_lookup(m, Some(i)).misses == m.misses,
        after_lookup(m, Some(i)).size == m.size,
{
    let s2 = after_lookup(m, Some(i)).entries;
    assert(s2.drop_first() =~= m.entries.remove(i));
    lemma_wrapping_count(m.hits);
}

/// A lookup that finds nothing leaves the entries as they are and counts a
/// miss (wrapping around past `usize::MAX`).
pub proof fn law_lookup_miss<K, V>(m: LruModel<K, V>)
    requires
        model_wf(m),
    ensures
        after_lookup(m, None).entries == m.entries,
        after_lookup(m, None).misses == (m.misses + 1) % (usize::MAX as nat + 1),
        after_lookup(m, None).hits == m.hits,
        after_lookup(m, None).size == m.size,
{
    lemma_wrapping_count(m.misses);
}

/// `bump` is an increment modulo `usize::MAX + 1`.
proof fn lemma_wrapping_count(n: nat)
    requires
        n <= usize::MAX,
    ensures
        bump(n) == (n + 1) % (usize::MAX as nat + 1),
{
    let m = usize::MAX as nat + 1;
    if n < usize::MAX {
        vstd::arithmetic::div_mod::lemma_small_mod((n + 1) as nat, m);
    } else {
        vstd::arithmetic::div_mod::lemma_mod_self_0(m as int);
    }
}

} // verus!
