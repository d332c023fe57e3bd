//! Finite maps kept as sequences of key/value pairs with distinct keys.

use vstd::prelude::*;

verus! {

/// No key occurs twice.
pub open spec fn unique_keys<K, V>(s: Seq<(K, V)>) -> bool {
    forall|i: int, j: int|
        0 <= i < s.len() && 0 <= j < s.len() && i != j ==> #[trigger] s[i].0 != #[trigger] s[j].0
}

/// `k` is the key of some pair of `s`.
pub open spec fn has_key<K, V>(s: Seq<(K, V)>, k: K) -> bool {
    exists|i: int| 0 <= i < s.len() && #[trigger] s[i].0 == k
}

/// The map that the pairs of `s` describe.
pub open spec fn assoc_map<K, V>(s: Seq<(K, V)>) -> Map<K, V> {
    Map::new(
        |k: K| has_key(s, k),
        |k: K| s[choose|i: int| 0 <= i < s.len() && #[trigger] s[i].0 == k].1,
    )
}

pub proof fn lemma_assoc_index<K, V>(s: Seq<(K, V)>, i: int)
    requires
        unique_keys(s),
        0 <= i < s.len(),
    ensures
        assoc_map(s).contains_key(s[i].0),
        assoc_map(s)[s[i].0] == s[i].1,
{
    assert(has_key(s, s[i].0));
    let j = choose|j: int| 0 <= j < s.len() && #[trigger] s[j].0 == s[i].0;
    assert(j == i);
}

/// Each key of the map is the key of a pair, and each pair gives a key's value.
pub proof fn lemma_assoc_facts<K, V>(s: Seq<(K, V)>)
    requires
        unique_keys(s),
    ensures
        forall|i: int|
            0 <= i < s.len() ==> #[trigger] assoc_map(s).contains_key(s[i].0) && assoc_map(s)[s[i].0]
                == s[i].1,
        forall|k: K| #[trigger]
            assoc_map(s).contains_key(k) ==> exists|i: int| 0 <= i < s.len() && #[trigger] s[i].0 == k,
{
    assert forall|i: int| 0 <= i < s.len() implies #[trigger] assoc_map(s).contains_key(s[i].0)
        && assoc_map(s)[s[i].0] == s[i].1 by {
        lemma_assoc_index(s, i);
    }
}

pub proof fn lemma_assoc_empty<K, V>()
    ensures
        unique_keys(Seq::<(K, V)>::empty()),
        assoc_map(Seq::<(K, V)>::empty()) == Map::<K, V>::empty(),
{
    assert(assoc_map(Seq::<(K, V)>::empty()) =~= Map::<K, V>::empty());
}

pub proof fn lemma_assoc_push<K, V>(s: Seq<(K, V)>, k: K, v: V)
    requires
        unique_keys(s),
        !assoc_map(s).contains_key(k),
    ensures
        unique_keys(s.push((k, v))),
        assoc_map(s.push((k, v))) == assoc_map(s).insert(k, v),
{
    let t = s.push((k, v));
    assert forall|i: int| 0 <= i < s.len() implies #[trigger] s[i].0 != k by {
        if s[i].0 == k {
            assert(has_key(s, k));
        }
    }
    assert(unique_keys(t)) by {
        assert forall|i: int, j: int|
            0 <= i < t.len() && 0 <= j < t.len() && i != j implies #[trigger] t[i].0
            != #[trigger] t[j].0 by {
            if i < s.len() && j < s.len() {
                assert(t[i] == s[i] && t[j] == s[j]);
            } else if i < s.len() {
                assert(t[i] == s[i]);
            } else {
                assert(t[j] == s[j]);
            }
        }
    }
    lemma_assoc_facts(s);
    lemma_assoc_facts(t);
    assert forall|key: K| #[trigger]
        assoc_map(t).contains_key(key) == assoc_map(s).insert(k, v).contains_key(key) by {
        if assoc_map(t).contains_key(key) {
            let i = choose|i: int| 0 <= i < t.len() && #[trigger] t[i].0 == key;
            if i < s.len() {
                assert(t[i] == s[i]);
            }
        }
        if assoc_map(s).contains_key(key) {
            let i = choose|i: int| 0 <= i < s.len() && #[trigger] s[i].0 == key;
            assert(t[i] == s[i]);
        }
        if key == k {
            assert(t[s.len() as int].0 == k);
        }
    }
    assert forall|key: K| #[trigger] assoc_map(t).contains_key(key) implies assoc_map(t)[key]
        == assoc_map(s).insert(k, v)[key] by {
        let i = choose|i: int| 0 <= i < t.len() && #[trigger] t[i].0 == key;
        if i < s.len() {
            assert(t[i] == s[i]);
        }
    }
    assert(assoc_map(t) =~= assoc_map(s).insert(k, v));
}

pub proof fn lemma_assoc_remove<K, V>(s: Seq<(K, V)>, i: int)
    requires
        unique_keys(s),
        0 <= i < s.len(),
    ensures
        unique_keys(s.remove(i)),
        assoc_map(s.remove(i)) == assoc_map(s).remove(s[i].0),
{
    let t = s.remove(i);
    assert forall|j: int| 0 <= j < t.len() implies #[trigger] t[j] == s[if j < i { j } else { j + 1 }] by {
    }
    assert(unique_keys(t)) by {
        assert forall|a: int, b: int|
            0 <= a < t.len() && 0 <= b < t.len() && a != b implies #[trigger] t[a].0
            != #[trigger] t[b].0 by {
            let a2 = if a < i { a } else { a + 1 };
            let b2 = if b < i { b } else { b + 1 };
            assert(t[a] == s[a2]);
            assert(t[b] == s[b2]);
        }
    }
    lemma_assoc_facts(s);
    lemma_assoc_facts(t);
    assert forall|key: K| #[trigger]
        assoc_map(t).contains_key(key) == assoc_map(s).remove(s[i].0).contains_key(key) by {
        if assoc_map(t).contains_key(key) {
            let j = choose|j: int| 0 <= j < t.len() && #[trigger] t[j].0 == key;
            let j2 = if j < i { j } else { j + 1 };
            assert(t[j] == s[j2]);
        }
        if assoc_map(s).contains_key(key) && key != s[i].0 {
            let j = choose|j: int| 0 <= j < s.len() && #[trigger] s[j].0 == key;
            assert(j != i);
            let j2 = if j < i { j } else { j - 1 };
            assert(t[j2] == s[j]);
        }
    }
    assert forall|key: K| #[trigger] assoc_map(t).contains_key(key) implies assoc_map(t)[key]
        == assoc_map(s).remove(s[i].0)[key] by {
        let j = choose|j: int| 0 <= j < t.len() && #[trigger] t[j].0 == key;
        let j2 = if j < i { j } else { j + 1 };
        assert(t[j] == s[j2]);
    }
    assert(assoc_map(t) =~= assoc_map(s).remove(s[i].0));
}

/// The keys of `s` in their order.
pub open spec fn keys_of<K, V>(s: Seq<(K, V)>) -> Seq<K> {
    s.map_values(|e: (K, V)| e.0)
}

pub proof fn lemma_assoc_dom<K, V>(s: Seq<(K, V)>)
    requires
        unique_keys(s),
    ensures
        assoc_map(s).dom() == keys_of(s).to_set(),
        keys_of(s).no_duplicates(),
        assoc_map(s).dom().finite(),
        assoc_map(s).dom().len() == s.len(),
{
    lemma_assoc_facts(s);
    let ks = keys_of(s);
    assert forall|k: K| #[trigger] assoc_map(s).dom().contains(k) == ks.to_set().contains(k) by {
        if assoc_map(s).dom().contains(k) {
            let i = choose|i: int| 0 <= i < s.len() && #[trigger] s[i].0 == k;
            assert(ks[i] == k);
        }
        if ks.to_set().contains(k) {
            let i = choose|i: int| 0 <= i < ks.len() && ks[i] == k;
            assert(s[i].0 == k);
        }
    }
    assert(assoc_map(s).dom() =~= ks.to_set());
    assert(ks.no_duplicates()) by {
        assert forall|a: int, b: int| 0 <= a < ks.len() && 0 <= b < ks.len() && a != b implies ks[a]
            != ks[b] by {
            assert(ks[a] == s[a].0 && ks[b] == s[b].0);
        }
    }
    ks.unique_seq_to_set();
}

} // verus!
