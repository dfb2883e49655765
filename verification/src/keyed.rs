//! Association lists: a sequence of distinct keys paired position by
//! position with a sequence of values, read as a finite map.
//!
//! The library keeps its keyed collections in vectors whose keys never
//! repeat. The spec function [`keyed`] gives the map such a pair of sequences
//! denotes, and the lemmas here relate the usual vector edits (push, in-place
//! update, removal, insertion) to the corresponding map operations.

use vstd::prelude::*;

verus! {

/// The position at which `k` occurs in `keys` (meaningful when it occurs).
pub open spec fn key_index<K>(keys: Seq<K>, k: K) -> int {
    choose|i: int| 0 <= i < keys.len() && keys[i] == k
}

/// The map that pairs each key of `keys` with the value at the same position.
pub open spec fn keyed<K, V>(keys: Seq<K>, vals: Seq<V>) -> Map<K, V> {
    Map::new(|k: K| keys.contains(k), |k: K| vals[key_index(keys, k)])
}

/// Whether `keys` and `vals` form an association list.
pub open spec fn assoc<K, V>(keys: Seq<K>, vals: Seq<V>) -> bool {
    &&& keys.no_duplicates()
    &&& keys.len() == vals.len()
}

pub proof fn lemma_key_index<K>(keys: Seq<K>, i: int)
    requires
        keys.no_duplicates(),
        0 <= i < keys.len(),
    ensures
        key_index(keys, keys[i]) == i,
{
    let j: int = key_index(keys, keys[i]);
    assert(0 <= j < keys.len() && keys[j] == keys[i]);
}

pub proof fn lemma_keyed_index<K, V>(keys: Seq<K>, vals: Seq<V>, i: int)
    requires
        assoc(keys, vals),
        0 <= i < keys.len(),
    ensures
        keyed(keys, vals).contains_key(keys[i]),
        keyed(keys, vals)[keys[i]] == vals[i],
{
    lemma_key_index(keys, i);
}

pub proof fn lemma_keyed_dom<K, V>(keys: Seq<K>, vals: Seq<V>)
    ensures
        keyed(keys, vals).dom() == keys.to_set(),
        keyed(keys, vals).dom().finite(),
{
    assert(keyed(keys, vals).dom() =~= keys.to_set());
    vstd::seq_lib::seq_to_set_is_finite(keys);
}

pub proof fn lemma_keyed_push<K, V>(keys: Seq<K>, vals: Seq<V>, k: K, v: V)
    requires
        assoc(keys, vals),
        !keys.contains(k),
    ensures
        assoc(keys.push(k), vals.push(v)),
        keyed(keys.push(k), vals.push(v)) == keyed(keys, vals).insert(k, v),
{
    let nk = keys.push(k);
    let nv = vals.push(v);
    assert(nk.no_duplicates()) by {
        assert forall|a: int, b: int| 0 <= a < nk.len() && 0 <= b < nk.len() && a != b implies nk[a]
            != nk[b] by {
            if a < keys.len() && b < keys.len() {
            } else if a < keys.len() {
                assert(keys.contains(keys[a]));
            } else {
                assert(keys.contains(keys[b]));
            }
        }
    }
    assert forall|x: K| #[trigger] keyed(nk, nv).contains_key(x) implies keyed(nk, nv)[x] == keyed(
        keys,
        vals,
    ).insert(k, v)[x] by {
        let j: int = choose|j: int| 0 <= j < nk.len() && nk[j] == x;
        lemma_key_index(nk, j);
        if j < keys.len() {
            lemma_key_index(keys, j);
        }
    }
    assert forall|x: K| #[trigger] keyed(keys, vals).insert(k, v).contains_key(x) implies keyed(
        nk,
        nv,
    ).contains_key(x) by {
        if x == k {
            assert(nk[keys.len() as int] == k);
        } else {
            let j: int = choose|j: int| 0 <= j < keys.len() && keys[j] == x;
            assert(nk[j] == x);
        }
    }
    assert(keyed(nk, nv) =~= keyed(keys, vals).insert(k, v));
}

pub proof fn lemma_keyed_update<K, V>(keys: Seq<K>, vals: Seq<V>, i: int, v: V)
    requires
        assoc(keys, vals),
        0 <= i < keys.len(),
    ensures
        assoc(keys, vals.update(i, v)),
        keyed(keys, vals.update(i, v)) == keyed(keys, vals).insert(keys[i], v),
{
    let nv = vals.update(i, v);
    assert forall|x: K| #[trigger] keyed(keys, nv).contains_key(x) implies keyed(keys, nv)[x]
        == keyed(keys, vals).insert(keys[i], v)[x] by {
        let j: int = choose|j: int| 0 <= j < keys.len() && keys[j] == x;
        lemma_key_index(keys, j);
    }
    assert forall|x: K| #[trigger] keyed(keys, vals).insert(keys[i], v).contains_key(x) implies keyed(
        keys,
        nv,
    ).contains_key(x) by {
        if x == keys[i] {
        } else {
        }
    }
    assert(keyed(keys, nv) =~= keyed(keys, vals).insert(keys[i], v));
}

pub proof fn lemma_keyed_remove<K, V>(keys: Seq<K>, vals: Seq<V>, i: int)
    requires
        assoc(keys, vals),
        0 <= i < keys.len(),
    ensures
        assoc(keys.remove(i), vals.remove(i)),
        keyed(keys.remove(i), vals.remove(i)) == keyed(keys, vals).remove(keys[i]),
{
    let nk = keys.remove(i);
    let nv = vals.remove(i);
    assert(nk.no_duplicates()) by {
        assert forall|a: int, b: int| 0 <= a < nk.len() && 0 <= b < nk.len() && a != b implies nk[a]
            != nk[b] by {
            let a2: int = if a < i {
                a
            } else {
                a + 1
            };
            let b2: int = if b < i {
                b
            } else {
                b + 1
            };
            assert(nk[a] == keys[a2]);
            assert(nk[b] == keys[b2]);
        }
    }
    assert forall|x: K| #[trigger] keyed(nk, nv).contains_key(x) implies keyed(keys, vals).remove(
        keys[i],
    ).contains_key(x) && keyed(nk, nv)[x] == keyed(keys, vals).remove(keys[i])[x] by {
        let j: int = choose|j: int| 0 <= j < nk.len() && nk[j] == x;
        lemma_key_index(nk, j);
        let j2: int = if j < i {
            j
        } else {
            j + 1
        };
        assert(keys[j2] == x);
        lemma_key_index(keys, j2);
        assert(j2 != i);
    }
    assert forall|x: K| #[trigger] keyed(keys, vals).remove(keys[i]).contains_key(x) implies keyed(
        nk,
        nv,
    ).contains_key(x) by {
        let j: int = choose|j: int| 0 <= j < keys.len() && keys[j] == x;
        assert(j != i);
        if j < i {
            assert(nk[j] == x);
        } else {
            assert(nk[j - 1] == x);
        }
    }
    assert(keyed(nk, nv) =~= keyed(keys, vals).remove(keys[i]));
}

pub proof fn lemma_keyed_insert<K, V>(keys: Seq<K>, vals: Seq<V>, i: int, k: K, v: V)
    requires
        assoc(keys, vals),
        0 <= i <= keys.len(),
        !keys.contains(k),
    ensures
        assoc(keys.insert(i, k), vals.insert(i, v)),
        keyed(keys.insert(i, k), vals.insert(i, v)) == keyed(keys, vals).insert(k, v),
{
    let nk = keys.insert(i, k);
    let nv = vals.insert(i, v);
    assert(nk.no_duplicates()) by {
        assert forall|a: int, b: int| 0 <= a < nk.len() && 0 <= b < nk.len() && a != b implies nk[a]
            != nk[b] by {
            if a == i {
                if b < i {
                    assert(keys.contains(keys[b]));
                } else {
                    assert(keys.contains(keys[b - 1]));
                }
            } else if b == i {
                if a < i {
                    assert(keys.contains(keys[a]));
                } else {
                    assert(keys.contains(keys[a - 1]));
                }
            } else {
                let a2: int = if a < i {
                    a
                } else {
                    a - 1
                };
                let b2: int = if b < i {
                    b
                } else {
                    b - 1
                };
                assert(nk[a] == keys[a2]);
                assert(nk[b] == keys[b2]);
            }
        }
    }
    assert forall|x: K| #[trigger] keyed(nk, nv).contains_key(x) implies keyed(keys, vals).insert(
        k,
        v,
    ).contains_key(x) && keyed(nk, nv)[x] == keyed(keys, vals).insert(k, v)[x] by {
        let j: int = choose|j: int| 0 <= j < nk.len() && nk[j] == x;
        lemma_key_index(nk, j);
        if j != i {
            let j2: int = if j < i {
                j
            } else {
                j - 1
            };
            assert(keys[j2] == x);
            lemma_key_index(keys, j2);
        }
    }
    assert forall|x: K| #[trigger] keyed(keys, vals).insert(k, v).contains_key(x) implies keyed(
        nk,
        nv,
    ).contains_key(x) by {
        if x == k {
            assert(nk[i] == k);
        } else {
            let j: int = choose|j: int| 0 <= j < keys.len() && keys[j] == x;
            if j < i {
                assert(nk[j] == x);
            } else {
                assert(nk[j + 1] == x);
            }
        }
    }
    assert(keyed(nk, nv) =~= keyed(keys, vals).insert(k, v));
}

} // verus!

verus! {

pub proof fn lemma_push_to_set<A>(s: Seq<A>, x: A)
    ensures
        s.push(x).to_set() == s.to_set().insert(x),
{
    assert forall|y: A| s.push(x).to_set().contains(y) == s.to_set().insert(x).contains(y) by {
        if y == x {
            assert(s.push(x)[s.len() as int] == x);
        }
        if s.contains(y) {
            let k: int = choose|k: int| 0 <= k < s.len() && s[k] == y;
            assert(s.push(x)[k] == y);
        }
        if s.push(x).contains(y) {
            let k: int = choose|k: int| 0 <= k < s.len() + 1 && s.push(x)[k] == y;
            if k < s.len() {
                assert(s[k] == y);
            }
        }
    }
    assert(s.push(x).to_set() =~= s.to_set().insert(x));
}

} // verus!
