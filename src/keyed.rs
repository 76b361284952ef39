//! Sequences kept in strictly increasing key order, read as maps.

use vstd::prelude::*;
use crate::text::{text_lt, lemma_text_lt_irreflexive, lemma_text_lt_transitive, lemma_text_lt_asymmetric};

verus! {

/// Keys in strictly increasing text order (hence without repetition).
pub open spec fn sorted(keys: Seq<Seq<char>>) -> bool {
    forall|i: int, j: int| 0 <= i < j < keys.len() ==> text_lt(#[trigger] keys[i], #[trigger] keys[j])
}

/// The map from each key to the value at the same position.
pub open spec fn keyed<V>(keys: Seq<Seq<char>>, vals: Seq<V>) -> Map<Seq<char>, V> {
    Map::new(|k: Seq<char>| keys.contains(k), |k: Seq<char>| vals[keys.index_of(k)])
}

/// In sorted keys, a key is found at its own position.
pub proof fn lemma_sorted_index_of(keys: Seq<Seq<char>>, i: int)
    requires
        sorted(keys),
        0 <= i < keys.len(),
    ensures
        keys.contains(keys[i]),
        keys.index_of(keys[i]) == i,
{
    assert(keys.contains(keys[i]));
    let j = keys.index_of(keys[i]);
    if j < i {
        lemma_text_lt_irreflexive(keys[i]);
    } else if j > i {
        lemma_text_lt_irreflexive(keys[i]);
    }
}

/// The value that sorted keys map their `i`-th key to.
pub proof fn lemma_keyed_at<V>(keys: Seq<Seq<char>>, vals: Seq<V>, i: int)
    requires
        sorted(keys),
        0 <= i < keys.len(),
    ensures
        keyed(keys, vals).contains_key(keys[i]),
        keyed(keys, vals)[keys[i]] == vals[i],
{
    lemma_sorted_index_of(keys, i);
}

/// Replacing the value at a position rebinds that position's key.
pub proof fn lemma_keyed_update<V>(keys: Seq<Seq<char>>, vals: Seq<V>, i: int, v: V)
    requires
        sorted(keys),
        keys.len() == vals.len(),
        0 <= i < keys.len(),
    ensures
        keyed(keys, vals.update(i, v)) =~= keyed(keys, vals).insert(keys[i], v),
{
    let a = keyed(keys, vals.update(i, v));
    let b = keyed(keys, vals).insert(keys[i], v);
    assert forall|k: Seq<char>| #[trigger] a.contains_key(k) implies a[k] == b[k] by {
        let j = keys.index_of(k);
        lemma_sorted_index_of(keys, j);
        if j == i {
        } else {
            assert(keys[j] != keys[i]) by {
                if j < i {
                    lemma_text_lt_irreflexive(keys[i]);
                } else {
                    lemma_text_lt_irreflexive(keys[i]);
                }
            }
        }
    }
    assert forall|k: Seq<char>| b.contains_key(k) implies #[trigger] a.contains_key(k) by {
        if k == keys[i] {
            assert(keys.contains(keys[i]));
        }
    }
}

/// A key placed between its neighbours keeps the keys sorted, is new, and is bound
/// to the value placed with it.
pub proof fn lemma_keyed_insert<V>(keys: Seq<Seq<char>>, vals: Seq<V>, i: int, k: Seq<char>, v: V)
    requires
        sorted(keys),
        keys.len() == vals.len(),
        0 <= i <= keys.len(),
        forall|j: int| 0 <= j < i ==> text_lt(#[trigger] keys[j], k),
        i < keys.len() ==> text_lt(k, keys[i]),
    ensures
        !keys.contains(k),
        sorted(keys.insert(i, k)),
        keyed(keys.insert(i, k), vals.insert(i, v)) =~= keyed(keys, vals).insert(k, v),
{
    let nk = keys.insert(i, k);
    let nv = vals.insert(i, v);
    assert forall|j: int| 0 <= j < keys.len() implies #[trigger] keys[j] != k by {
        if j < i {
            lemma_text_lt_irreflexive(k);
        } else {
            if j > i {
                lemma_text_lt_transitive(k, keys[i], keys[j]);
            }
            lemma_text_lt_irreflexive(k);
        }
    }
    assert forall|a: int, b: int| 0 <= a < b < nk.len() implies text_lt(
        #[trigger] nk[a],
        #[trigger] nk[b],
    ) by {
        if a < i && b == i {
        } else if a < i && b > i {
            assert(nk[b] == keys[b - 1]);
            if b - 1 > i {
                lemma_text_lt_transitive(k, keys[i], keys[b - 1]);
            }
            lemma_text_lt_transitive(keys[a], k, keys[b - 1]);
        } else if a == i {
            assert(nk[b] == keys[b - 1]);
            if b - 1 > i {
                lemma_text_lt_transitive(k, keys[i], keys[b - 1]);
            }
        } else if a < i {
        } else {
            assert(nk[a] == keys[a - 1]);
            assert(nk[b] == keys[b - 1]);
        }
    }
    let m1 = keyed(nk, nv);
    let m2 = keyed(keys, vals).insert(k, v);
    assert forall|x: Seq<char>| #[trigger] m1.contains_key(x) <==> m2.contains_key(x) by {
        if nk.contains(x) {
            let j = choose|j: int| 0 <= j < nk.len() && nk[j] == x;
            if j < i {
                assert(keys[j] == x);
            } else if j > i {
                assert(keys[j - 1] == x);
            }
        }
        if keys.contains(x) {
            let j = choose|j: int| 0 <= j < keys.len() && keys[j] == x;
            if j < i {
                assert(nk[j] == x);
            } else {
                assert(nk[j + 1] == x);
            }
        }
        if x == k {
            assert(nk[i] == k);
        }
    }
    assert forall|x: Seq<char>| #[trigger] m1.contains_key(x) implies m1[x] == m2[x] by {
        let j = nk.index_of(x);
        lemma_sorted_index_of(nk, j);
        if j == i {
        } else if j < i {
            lemma_sorted_index_of(keys, j);
        } else {
            lemma_sorted_index_of(keys, j - 1);
        }
    }
    assert(m1 =~= m2);
}

/// Sorted keys with values are determined by the map they describe.
pub proof fn lemma_keyed_unique<V>(k1: Seq<Seq<char>>, v1: Seq<V>, k2: Seq<Seq<char>>, v2: Seq<V>)
    requires
        sorted(k1),
        sorted(k2),
        k1.len() == v1.len(),
        k2.len() == v2.len(),
        keyed(k1, v1) == keyed(k2, v2),
    ensures
        k1 == k2,
        v1 == v2,
    decreases k1.len(),
{
    if k1.len() == 0 {
        if k2.len() > 0 {
            assert(keyed(k2, v2).contains_key(k2[0])) by {
                lemma_sorted_index_of(k2, 0);
            }
        }
        assert(k1 =~= k2);
        assert(v1 =~= v2);
    } else {
        assert(keyed(k1, v1).contains_key(k1[0])) by {
            lemma_sorted_index_of(k1, 0);
        }
        assert(k2.len() > 0);
        assert(keyed(k2, v2).contains_key(k2[0])) by {
            lemma_sorted_index_of(k2, 0);
        }
        let a = k2.index_of(k1[0]);
        let b = k1.index_of(k2[0]);
        lemma_sorted_index_of(k1, b);
        lemma_sorted_index_of(k2, a);
        if a > 0 {
            if b > 0 {
                lemma_text_lt_asymmetric(k1[0], k1[b]);
            } else {
                lemma_text_lt_irreflexive(k2[0]);
            }
        }
        assert(a == 0);
        lemma_keyed_at(k1, v1, 0);
        lemma_keyed_at(k2, v2, 0);
        let t1 = k1.drop_first();
        let t2 = k2.drop_first();
        let w1 = v1.drop_first();
        let w2 = v2.drop_first();
        assert(sorted(t1));
        assert(sorted(t2));
        assert forall|x: Seq<char>| #[trigger] keyed(t1, w1).contains_key(x) <==> keyed(
            t2,
            w2,
        ).contains_key(x) by {
            if t1.contains(x) {
                let j = choose|j: int| 0 <= j < t1.len() && t1[j] == x;
                assert(k1[j + 1] == x);
                assert(keyed(k1, v1).contains_key(x));
                let c = k2.index_of(x);
                if c == 0 {
                    lemma_text_lt_irreflexive(x);
                }
                assert(t2[c - 1] == x);
            }
            if t2.contains(x) {
                let j = choose|j: int| 0 <= j < t2.len() && t2[j] == x;
                assert(k2[j + 1] == x);
                assert(keyed(k2, v2).contains_key(x));
                let c = k1.index_of(x);
                if c == 0 {
                    lemma_text_lt_irreflexive(x);
                }
                assert(t1[c - 1] == x);
            }
        }
        assert forall|x: Seq<char>| #[trigger] keyed(t1, w1).contains_key(x) implies keyed(
            t1,
            w1,
        )[x] == keyed(t2, w2)[x] by {
            assert(keyed(t2, w2).contains_key(x));
            assert(t1.contains(x));
            assert(t2.contains(x));
            let j = t1.index_of(x);
            let c = t2.index_of(x);
            assert(k1[j + 1] == x);
            assert(k2[c + 1] == x);
            lemma_keyed_at(k1, v1, j + 1);
            lemma_keyed_at(k2, v2, c + 1);
            lemma_sorted_index_of(t1, j);
            lemma_sorted_index_of(t2, c);
        }
        assert(keyed(t1, w1) =~= keyed(t2, w2));
        lemma_keyed_unique(t1, w1, t2, w2);
        assert(k1 =~= seq![k1[0]] + t1);
        assert(k2 =~= seq![k2[0]] + t2);
        assert(v1 =~= seq![v1[0]] + w1);
        assert(v2 =~= seq![v2[0]] + w2);
    }
}

} // verus!
