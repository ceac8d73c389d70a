//! Maps held as two parallel sequences: distinct keys, and the value of
//! each key at the same position.
use vstd::prelude::*;

verus! {

/// The position of `k` among the keys `ks`.
pub closed spec fn position_of<K>(ks: Seq<K>, k: K) -> int {
    choose|i: int| 0 <= i < ks.len() && ks[i] == k
}

/// The map from each key of `ks` to the value at its position in `vs`.
pub open spec fn keyed_map<K, V>(ks: Seq<K>, vs: Seq<V>) -> Map<K, V> {
    Map::new(|k: K| ks.contains(k), |k: K| vs[position_of(ks, k)])
}

/// The value at position `i` is the value of the key at `i`.
pub proof fn lemma_keyed_at<K, V>(ks: Seq<K>, vs: Seq<V>, i: int)
    requires
        ks.no_duplicates(),
        0 <= i < ks.len(),
    ensures
        keyed_map(ks, vs).contains_key(ks[i]),
        keyed_map(ks, vs)[ks[i]] == vs[i],
{
    assert(ks.contains(ks[i]));
    let p = position_of(ks, ks[i]);
    assert(0 <= p < ks.len() && ks[p] == ks[i]);
}

/// No keys, no entries.
pub proof fn lemma_keyed_empty<K, V>()
    ensures
        keyed_map(Seq::<K>::empty(), Seq::<V>::empty()) == Map::<K, V>::empty(),
{
    assert(keyed_map(Seq::<K>::empty(), Seq::<V>::empty()) =~= Map::<K, V>::empty());
}

/// Changing the value at position `i` changes the value of the key at `i`.
pub proof fn lemma_keyed_update<K, V>(ks: Seq<K>, vs: Seq<V>, i: int, v: V)
    requires
        ks.no_duplicates(),
        ks.len() == vs.len(),
        0 <= i < ks.len(),
    ensures
        keyed_map(ks, vs.update(i, v)) == keyed_map(ks, vs).insert(ks[i], v),
{
    let m = keyed_map(ks, vs).insert(ks[i], v);
    let n = keyed_map(ks, vs.update(i, v));
    assert forall|k: K| #[trigger] n.contains_key(k) implies m.contains_key(k) && n[k] == m[k] by {
        let j = choose|j: int| 0 <= j < ks.len() && ks[j] == k;
        lemma_keyed_at(ks, vs.update(i, v), j);
        lemma_keyed_at(ks, vs, j);
    }
    assert forall|k: K| #[trigger] m.contains_key(k) implies n.contains_key(k) by {
        if k == ks[i] {
            lemma_keyed_at(ks, vs.update(i, v), i);
        } else {
            let j = choose|j: int| 0 <= j < ks.len() && ks[j] == k;
            lemma_keyed_at(ks, vs.update(i, v), j);
        }
    }
    assert(n =~= m);
}

/// Adding a new key with its value adds that entry.
pub proof fn lemma_keyed_push<K, V>(ks: Seq<K>, vs: Seq<V>, k: K, v: V)
    requires
        ks.no_duplicates(),
        ks.len() == vs.len(),
        !ks.contains(k),
    ensures
        ks.push(k).no_duplicates(),
        keyed_map(ks.push(k), vs.push(v)) == keyed_map(ks, vs).insert(k, v),
{
    let ks2 = ks.push(k);
    let vs2 = vs.push(v);
    let n = ks.len() as int;
    assert forall|i: int, j: int| 0 <= i < ks2.len() && 0 <= j < ks2.len() && i != j implies ks2[i]
        != ks2[j] by {
        if i == n {
            assert(ks.contains(ks[j]));
        } else if j == n {
            assert(ks.contains(ks[i]));
        }
    }
    let m = keyed_map(ks, vs).insert(k, v);
    let nm = keyed_map(ks2, vs2);
    assert forall|k2: K| #[trigger] nm.contains_key(k2) implies m.contains_key(k2) && nm[k2] == m[k2] by {
        let j = choose|j: int| 0 <= j < ks2.len() && ks2[j] == k2;
        lemma_keyed_at(ks2, vs2, j);
        if j < n {
            lemma_keyed_at(ks, vs, j);
        }
    }
    assert forall|k2: K| #[trigger] m.contains_key(k2) implies nm.contains_key(k2) by {
        if k2 == k {
            lemma_keyed_at(ks2, vs2, n);
        } else {
            let j = choose|j: int| 0 <= j < ks.len() && ks[j] == k2;
            lemma_keyed_at(ks2, vs2, j);
        }
    }
    assert(nm =~= m);
}

/// A map held with distinct keys has as many entries as keys.
pub proof fn lemma_keyed_len<K, V>(ks: Seq<K>, vs: Seq<V>)
    requires
        ks.no_duplicates(),
    ensures
        keyed_map(ks, vs).dom().finite(),
        keyed_map(ks, vs).dom().len() == ks.len(),
{
    assert(keyed_map(ks, vs).dom() =~= ks.to_set());
    ks.unique_seq_to_set();
}

} // verus!
