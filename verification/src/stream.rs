//! Indexes over a recorded event stream, defined by folding over its prefix.
//! The audits in `analysis` build hash-map versions of these indexes in one
//! pass and are specified against them.
use vstd::prelude::*;

use crate::events::SimEvent;

verus! {

/// For each key, the value carried by the first event that `f` selects with that key.
pub open spec fn first_values<K, V>(s: Seq<SimEvent>, f: spec_fn(SimEvent) -> Option<(K, V)>) -> Map<
    K,
    V,
>
    decreases s.len(),
{
    if s.len() == 0 {
        Map::empty()
    } else {
        let m = first_values(s.drop_last(), f);
        match f(s.last()) {
            Some((k, v)) => if m.contains_key(k) {
                m
            } else {
                m.insert(k, v)
            },
            None => m,
        }
    }
}

/// For each key, the value carried by the last event that `f` selects with that key.
pub open spec fn last_values<K, V>(s: Seq<SimEvent>, f: spec_fn(SimEvent) -> Option<(K, V)>) -> Map<
    K,
    V,
>
    decreases s.len(),
{
    if s.len() == 0 {
        Map::empty()
    } else {
        let m = last_values(s.drop_last(), f);
        match f(s.last()) {
            Some((k, v)) => m.insert(k, v),
            None => m,
        }
    }
}

/// The keys of the events `f` selects, each once, in order of first appearance.
pub open spec fn distinct_keys<K, V>(s: Seq<SimEvent>, f: spec_fn(SimEvent) -> Option<(K, V)>) -> Seq<
    K,
>
    decreases s.len(),
{
    if s.len() == 0 {
        Seq::empty()
    } else {
        let ks = distinct_keys(s.drop_last(), f);
        match f(s.last()) {
            Some((k, v)) => if ks.contains(k) {
                ks
            } else {
                ks.push(k)
            },
            None => ks,
        }
    }
}

/// How many of the events `f` selects carry key `k`.
pub open spec fn key_count<K, V>(s: Seq<SimEvent>, f: spec_fn(SimEvent) -> Option<(K, V)>, k: K) -> nat
    decreases s.len(),
{
    if s.len() == 0 {
        0
    } else {
        let c = key_count(s.drop_last(), f, k);
        match f(s.last()) {
            Some((k2, v)) => if k2 == k {
                c + 1
            } else {
                c
            },
            None => c,
        }
    }
}

/// Stepping a prefix by one event: `s.take(i + 1)` is `s.take(i)` followed by `s[i]`.
pub proof fn lemma_take_step(s: Seq<SimEvent>, i: int)
    requires
        0 <= i < s.len(),
    ensures
        s.take(i + 1).drop_last() == s.take(i),
        s.take(i + 1).last() == s[i],
        s.take(i + 1).len() == i + 1,
{
    assert(s.take(i + 1).drop_last() =~= s.take(i));
}

/// Every key in the first-values index has been listed among the distinct keys, and back.
pub proof fn lemma_distinct_keys_dom<K, V>(s: Seq<SimEvent>, f: spec_fn(SimEvent) -> Option<(K, V)>)
    ensures
        forall|k: K| #[trigger] distinct_keys(s, f).contains(k) <==> first_values(s, f).contains_key(k),
        forall|k: K| #[trigger] first_values(s, f).contains_key(k) <==> last_values(s, f).contains_key(k),
        forall|k: K| #[trigger] last_values(s, f).contains_key(k) <==> key_count(s, f, k) > 0,
        distinct_keys(s, f).no_duplicates(),
    decreases s.len(),
{
    if s.len() > 0 {
        let t = s.drop_last();
        lemma_distinct_keys_dom(t, f);
        match f(s.last()) {
            Some((k0, v0)) => {
                assert forall|k: K| #[trigger] last_values(s, f).contains_key(k) <==> (last_values(t, f).contains_key(k) || k == k0) by {}
                assert forall|k: K| #[trigger] first_values(s, f).contains_key(k) <==> (first_values(t, f).contains_key(k) || k == k0) by {}
                assert forall|k: K| #[trigger] key_count(s, f, k) > 0 <==> (key_count(t, f, k) > 0 || k == k0) by {}
                let ks = distinct_keys(t, f);
                if !ks.contains(k0) {
                    assert forall|k: K| #[trigger] ks.push(k0).contains(k) <==> (ks.contains(k) || k == k0) by {
                        if ks.push(k0).contains(k) {
                            let j = choose|j: int| 0 <= j < ks.push(k0).len() && ks.push(k0)[j] == k;
                            if j < ks.len() {
                                assert(ks[j] == k);
                            }
                        }
                        if ks.contains(k) {
                            let j = choose|j: int| 0 <= j < ks.len() && ks[j] == k;
                            assert(ks.push(k0)[j] == k);
                        }
                        if k == k0 {
                            assert(ks.push(k0)[ks.len() as int] == k);
                        }
                    }
                    assert(ks.push(k0).no_duplicates()) by {
                        assert forall|a: int, b: int| 0 <= a < b < ks.push(k0).len() implies ks.push(k0)[a] != ks.push(k0)[b] by {
                            if b == ks.len() {
                                assert(ks[a] == ks.push(k0)[a]);
                            }
                        }
                    }
                }
            },
            None => {
                assert(first_values(s, f) == first_values(t, f));
                assert(last_values(s, f) == last_values(t, f));
                assert(distinct_keys(s, f) == distinct_keys(t, f));
                assert forall|k: K| #[trigger] key_count(s, f, k) == key_count(t, f, k) by {}
            },
        }
    }
}

/// A key is counted at most once per event.
pub proof fn lemma_key_count_bound<K, V>(s: Seq<SimEvent>, f: spec_fn(SimEvent) -> Option<(K, V)>, k: K)
    ensures
        key_count(s, f, k) <= s.len(),
    decreases s.len(),
{
    if s.len() > 0 {
        lemma_key_count_bound(s.drop_last(), f, k);
    }
}

/// Event `e` is selected by `f` with key `key`.
pub open spec fn selects<K, V>(f: spec_fn(SimEvent) -> Option<(K, V)>, e: SimEvent, key: K) -> bool {
    f(e) is Some && (f(e)->0).0 == key
}

/// A key is in the first-values index exactly when some event of the stream carries it.
pub proof fn lemma_first_values_keys<K, V>(s: Seq<SimEvent>, f: spec_fn(SimEvent) -> Option<(K, V)>, key: K)
    ensures
        first_values(s, f).contains_key(key) <==> exists|j: int| 0 <= j < s.len() && #[trigger] selects(f, s[j], key),
    decreases s.len(),
{
    if s.len() > 0 {
        let t = s.drop_last();
        lemma_first_values_keys(t, f, key);
        if exists|j: int| 0 <= j < t.len() && #[trigger] selects(f, t[j], key) {
            let j = choose|j: int| 0 <= j < t.len() && #[trigger] selects(f, t[j], key);
            assert(s[j] == t[j]);
        }
        if exists|j: int| 0 <= j < s.len() && #[trigger] selects(f, s[j], key) {
            let j = choose|j: int| 0 <= j < s.len() && #[trigger] selects(f, s[j], key);
            if j < t.len() {
                assert(t[j] == s[j]);
            }
        }
        let last = s[s.len() - 1];
        assert(s.last() == last);
        match f(last) {
            Some((k0, v0)) => {
                if k0 == key {
                    assert(selects(f, s[s.len() - 1], key));
                }
                if first_values(s, f).contains_key(key) && !first_values(t, f).contains_key(key) {
                    assert(k0 == key);
                    assert(selects(f, s[s.len() - 1], key));
                }
            },
            None => {},
        }
    }
}

/// The first-values index holds, for a key, the value of the first event carrying it.
pub proof fn lemma_first_value_at<K, V>(s: Seq<SimEvent>, f: spec_fn(SimEvent) -> Option<(K, V)>, k: int, key: K)
    requires
        0 <= k < s.len(),
        selects(f, s[k], key),
        forall|j: int| 0 <= j < k ==> !selects(f, #[trigger] s[j], key),
    ensures
        first_values(s, f).contains_key(key),
        first_values(s, f)[key] == (f(s[k])->0).1,
    decreases s.len(),
{
    let t = s.drop_last();
    if k == s.len() - 1 {
        lemma_first_values_keys(t, f, key);
        assert forall|j: int| 0 <= j < t.len() implies !selects(f, #[trigger] t[j], key) by {
            assert(t[j] == s[j]);
        }
    } else {
        assert forall|j: int| 0 <= j < k implies !selects(f, #[trigger] t[j], key) by {
            assert(t[j] == s[j]);
        }
        assert(t[k] == s[k]);
        lemma_first_value_at(t, f, k, key);
    }
}

/// The last-values index holds, for a key, the value of the last event carrying it.
pub proof fn lemma_last_value_at<K, V>(s: Seq<SimEvent>, f: spec_fn(SimEvent) -> Option<(K, V)>, k: int, key: K)
    requires
        0 <= k < s.len(),
        selects(f, s[k], key),
        forall|j: int| k < j < s.len() ==> !selects(f, #[trigger] s[j], key),
    ensures
        last_values(s, f).contains_key(key),
        last_values(s, f)[key] == (f(s[k])->0).1,
    decreases s.len(),
{
    let t = s.drop_last();
    if k < s.len() - 1 {
        assert(!selects(f, s[s.len() - 1], key));
        assert forall|j: int| k < j < t.len() implies !selects(f, #[trigger] t[j], key) by {
            assert(t[j] == s[j]);
        }
        assert(t[k] == s[k]);
        lemma_last_value_at(t, f, k, key);
    }
}

} // verus!
