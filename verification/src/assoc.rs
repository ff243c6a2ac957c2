//! Association sequences as mathematical maps.
//!
//! Each store holds its entries as a vector of key/value pairs with pairwise
//! distinct keys; its mathematical model is the finite map built by inserting
//! the pairs in order. The lemmas here relate the sequence operations the
//! executable code performs (push, remove by index, lookup) to `Map`
//! operations on that model.

use vstd::prelude::*;

verus! {

/// The finite map an association sequence denotes: later entries win, though
/// under [`distinct_keys`] the order is irrelevant.
pub open spec fn assoc_map<K, V>(s: Seq<(K, V)>) -> Map<K, V>
    decreases s.len(),
{
    if s.len() == 0 {
        Map::empty()
    } else {
        assoc_map(s.drop_last()).insert(s.last().0, s.last().1)
    }
}

/// No two entries share a key.
pub open spec fn distinct_keys<K, V>(s: Seq<(K, V)>) -> bool {
    forall|i: int, j: int| 0 <= i < j < s.len() ==> (#[trigger] s[i]).0 != (#[trigger] s[j]).0
}

/// Some entry carries key `k`.
pub open spec fn has_key<K, V>(s: Seq<(K, V)>, k: K) -> bool {
    exists|i: int| 0 <= i < s.len() && (#[trigger] s[i]).0 == k
}

/// The model's domain is exactly the set of keys that occur in the sequence.
pub proof fn lemma_assoc_map_dom<K, V>(s: Seq<(K, V)>)
    ensures
        forall|k: K| #[trigger] assoc_map(s).dom().contains(k) <==> has_key(s, k),
    decreases s.len(),
{
    if s.len() > 0 {
        lemma_assoc_map_dom(s.drop_last());
        assert forall|k: K| #[trigger] assoc_map(s).dom().contains(k) implies has_key(s, k) by {
            if k == s.last().0 {
                assert(s[s.len() - 1].0 == k);
            } else {
                assert(assoc_map(s.drop_last()).dom().contains(k));
                assert(has_key(s.drop_last(), k));
                let i = choose|i: int| 0 <= i < s.drop_last().len() && (#[trigger] s.drop_last()[i]).0 == k;
                assert(s[i].0 == k);
            }
        }
        assert forall|k: K| has_key(s, k) implies #[trigger] assoc_map(s).dom().contains(k) by {
            let i = choose|i: int| 0 <= i < s.len() && (#[trigger] s[i]).0 == k;
            if i < s.len() - 1 {
                assert(s.drop_last()[i].0 == k);
                assert(has_key(s.drop_last(), k));
                assert(assoc_map(s.drop_last()).dom().contains(k));
            } else {
                assert(k == s.last().0);
            }
        }
    }
}

/// Under distinct keys, the model maps each occurring key to the value of
/// its (unique) entry.
pub proof fn lemma_assoc_map_get<K, V>(s: Seq<(K, V)>, i: int)
    requires
        distinct_keys(s),
        0 <= i < s.len(),
    ensures
        assoc_map(s).dom().contains(s[i].0),
        assoc_map(s)[s[i].0] == s[i].1,
    decreases s.len(),
{
    if i == s.len() - 1 {
        assert(s.last() == s[i]);
    } else {
        assert(distinct_keys(s.drop_last()));
        assert(s.drop_last()[i] == s[i]);
        lemma_assoc_map_get(s.drop_last(), i);
        assert(s[i].0 != s[s.len() - 1].0);
    }
}

/// Appending an entry inserts its pair into the model.
pub proof fn lemma_assoc_map_push<K, V>(s: Seq<(K, V)>, k: K, v: V)
    ensures
        assoc_map(s.push((k, v))) == assoc_map(s).insert(k, v),
{
    assert(s.push((k, v)).drop_last() =~= s);
    assert(s.push((k, v)).last() == (k, v));
}

/// Appending an entry with a fresh key keeps the keys distinct.
pub proof fn lemma_distinct_keys_push<K, V>(s: Seq<(K, V)>, k: K, v: V)
    requires
        distinct_keys(s),
        !has_key(s, k),
    ensures
        distinct_keys(s.push((k, v))),
{
    assert forall|i: int, j: int| 0 <= i < j < s.push((k, v)).len() implies
        (#[trigger] s.push((k, v))[i]).0 != (#[trigger] s.push((k, v))[j]).0 by {
        if j == s.len() {
            assert(s[i].0 != k);
        } else {
            assert(s.push((k, v))[i] == s[i]);
            assert(s.push((k, v))[j] == s[j]);
        }
    }
}

/// Deleting the entry at `i` removes its key from the model, and keeps the
/// keys distinct.
pub proof fn lemma_assoc_map_remove<K, V>(s: Seq<(K, V)>, i: int)
    requires
        distinct_keys(s),
        0 <= i < s.len(),
    ensures
        distinct_keys(s.remove(i)),
        assoc_map(s.remove(i)) == assoc_map(s).remove(s[i].0),
    decreases s.len(),
{
    assert forall|p: int, q: int| 0 <= p < q < s.remove(i).len() implies
        (#[trigger] s.remove(i)[p]).0 != (#[trigger] s.remove(i)[q]).0 by {
        let p0: int = if p < i { p } else { p + 1 };
        let q0: int = if q < i { q } else { q + 1 };
        assert(s.remove(i)[p] == s[p0]);
        assert(s.remove(i)[q] == s[q0]);
    }
    if i == s.len() - 1 {
        assert(s.remove(i) =~= s.drop_last());
        lemma_assoc_map_dom(s.drop_last());
        assert(!has_key(s.drop_last(), s[i].0)) by {
            assert forall|j: int| 0 <= j < s.drop_last().len() implies
                (#[trigger] s.drop_last()[j]).0 != s[i].0 by {
                assert(s[j].0 != s[i].0);
            }
        }
        assert(assoc_map(s.drop_last()).insert(s.last().0, s.last().1).remove(s[i].0)
            =~= assoc_map(s.drop_last()));
    } else {
        let t = s.drop_last();
        assert(distinct_keys(t));
        assert(t[i] == s[i]);
        lemma_assoc_map_remove(t, i);
        assert(s.remove(i).drop_last() =~= t.remove(i));
        assert(s.remove(i).last() == s.last());
        assert(assoc_map(s.remove(i))
            == assoc_map(t.remove(i)).insert(s.last().0, s.last().1));
        assert(s[i].0 != s.last().0);
        assert(assoc_map(t).remove(s[i].0).insert(s.last().0, s.last().1)
            =~= assoc_map(t).insert(s.last().0, s.last().1).remove(s[i].0));
    }
}

} // verus!
