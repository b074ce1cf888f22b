//! Sequences of key/value pairs used as maps with unique keys.
//!
//! The library keeps its id-keyed tables in `Vec`s; their views are sequences of
//! pairs whose keys are unique. The functions here say what a key lookup means on
//! such a sequence and prove the facts that updates rely on.
use vstd::prelude::*;

verus! {

/// No key occurs twice.
pub open spec fn unique_keys<K, V>(s: Seq<(K, V)>) -> bool {
    forall|i: int, j: int| 0 <= i < s.len() && 0 <= j < s.len() && i != j ==> s[i].0 != s[j].0
}

/// Some pair has key `k`.
pub open spec fn has_key<K, V>(s: Seq<(K, V)>, k: K) -> bool {
    exists|i: int| 0 <= i < s.len() && s[i].0 == k
}

/// Position of the last pair with key `k`, or -1.
pub open spec fn index_of<K, V>(s: Seq<(K, V)>, k: K) -> int
    decreases s.len(),
{
    if s.len() == 0 {
        -1
    } else if s.last().0 == k {
        s.len() - 1
    } else {
        index_of(s.drop_last(), k)
    }
}

/// The value stored under `k` (meaningful when `has_key(s, k)`).
pub open spec fn value_of<K, V>(s: Seq<(K, V)>, k: K) -> V {
    s[index_of(s, k)].1
}

/// The keys, in order.
pub open spec fn keys_of<K, V>(s: Seq<(K, V)>) -> Seq<K> {
    s.map_values(|p: (K, V)| p.0)
}

/// Insert or overwrite the value under `k`, keeping the position of an existing key.
pub open spec fn upsert<K, V>(s: Seq<(K, V)>, k: K, v: V) -> Seq<(K, V)> {
    if has_key(s, k) {
        s.update(index_of(s, k), (k, v))
    } else {
        s.push((k, v))
    }
}

/// Remove the pair with key `k`, if any.
pub open spec fn remove_key<K, V>(s: Seq<(K, V)>, k: K) -> Seq<(K, V)> {
    if has_key(s, k) {
        s.remove(index_of(s, k))
    } else {
        s
    }
}

pub proof fn lemma_index_of<K, V>(s: Seq<(K, V)>, k: K)
    ensures
        has_key(s, k) <==> 0 <= index_of(s, k) < s.len(),
        has_key(s, k) ==> s[index_of(s, k)].0 == k,
        !has_key(s, k) ==> index_of(s, k) == -1,
    decreases s.len(),
{
    if s.len() > 0 {
        lemma_index_of(s.drop_last(), k);
        if s.last().0 != k {
            if has_key(s, k) {
                let i = choose|i: int| 0 <= i < s.len() && s[i].0 == k;
                assert(s.drop_last()[i].0 == k);
            }
            if has_key(s.drop_last(), k) {
                let i = choose|i: int| 0 <= i < s.drop_last().len() && s.drop_last()[i].0 == k;
                assert(s[i].0 == k);
            }
        }
    }
}

pub proof fn lemma_index_of_unique<K, V>(s: Seq<(K, V)>, i: int)
    requires
        unique_keys(s),
        0 <= i < s.len(),
    ensures
        index_of(s, s[i].0) == i,
        has_key(s, s[i].0),
        value_of(s, s[i].0) == s[i].1,
{
    lemma_index_of(s, s[i].0);
}

pub proof fn lemma_upsert<K, V>(s: Seq<(K, V)>, k: K, v: V)
    requires
        unique_keys(s),
    ensures
        unique_keys(upsert(s, k, v)),
        has_key(upsert(s, k, v), k),
        value_of(upsert(s, k, v), k) == v,
        forall|j: K| j != k ==> (has_key(upsert(s, k, v), j) <==> has_key(s, j)),
        forall|j: K| j != k && has_key(s, j) ==> value_of(upsert(s, k, v), j) == value_of(s, j),
{
    lemma_index_of(s, k);
    let t = upsert(s, k, v);
    assert(t[index_of(t, k)].0 == k) by {
        assert(has_key(t, k)) by {
            if has_key(s, k) {
                assert(t[index_of(s, k)].0 == k);
            } else {
                assert(t[s.len() as int].0 == k);
            }
        }
        lemma_index_of(t, k);
    }
    assert forall|j: K| j != k implies (has_key(t, j) <==> has_key(s, j)) by {
        if has_key(s, j) {
            let i = choose|i: int| 0 <= i < s.len() && s[i].0 == j;
            assert(t[i].0 == j);
        }
        if has_key(t, j) {
            let i = choose|i: int| 0 <= i < t.len() && t[i].0 == j;
            assert(s[i].0 == j);
        }
    }
    assert(unique_keys(t));
    if has_key(s, k) {
        lemma_index_of_unique(t, index_of(s, k));
    } else {
        lemma_index_of_unique(t, s.len() as int);
    }
    assert forall|j: K| j != k && has_key(s, j) implies value_of(t, j) == value_of(s, j) by {
        lemma_index_of(s, j);
        let i = index_of(s, j);
        lemma_index_of_unique(t, i);
    }
}

pub proof fn lemma_remove_key<K, V>(s: Seq<(K, V)>, k: K)
    requires
        unique_keys(s),
    ensures
        unique_keys(remove_key(s, k)),
        !has_key(remove_key(s, k), k),
        forall|j: K| j != k ==> (has_key(remove_key(s, k), j) <==> has_key(s, j)),
        forall|j: K| j != k && has_key(s, j) ==> value_of(remove_key(s, k), j) == value_of(s, j),
{
    lemma_index_of(s, k);
    let t = remove_key(s, k);
    if has_key(s, k) {
        let p = index_of(s, k);
        assert forall|i: int| 0 <= i < t.len() implies #[trigger] t[i] == s[if i < p {
            i
        } else {
            i + 1
        }] by {}
        assert forall|j: K| j != k implies (has_key(t, j) <==> has_key(s, j)) by {
            if has_key(s, j) {
                let i = choose|i: int| 0 <= i < s.len() && s[i].0 == j;
                if i < p {
                    assert(t[i].0 == j);
                } else {
                    assert(t[i - 1].0 == j);
                }
            }
            if has_key(t, j) {
                let i = choose|i: int| 0 <= i < t.len() && t[i].0 == j;
                if i < p {
                    assert(s[i].0 == j);
                } else {
                    assert(s[i + 1].0 == j);
                }
            }
        }
        assert(!has_key(t, k)) by {
            if has_key(t, k) {
                let i = choose|i: int| 0 <= i < t.len() && t[i].0 == k;
                if i < p {
                    assert(s[i].0 == k);
                } else {
                    assert(s[i + 1].0 == k);
                }
            }
        }
        assert forall|j: K| j != k && has_key(s, j) implies value_of(t, j) == value_of(s, j) by {
            lemma_index_of(s, j);
            let i = index_of(s, j);
            if i < p {
                lemma_index_of_unique(t, i);
            } else {
                lemma_index_of_unique(t, i - 1);
            }
        }
    }
}

} // verus!
