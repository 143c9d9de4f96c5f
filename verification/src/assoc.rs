//! Maps that are held as a sequence of keys beside a sequence of values.

use vstd::prelude::*;

verus! {

/// The map that takes each key of `keys` to the value that stands at the
/// key's place in `values`.
pub open spec fn assoc<K, V>(keys: Seq<K>, values: Seq<V>) -> Map<K, V> {
    Map::new(|k: K| keys.contains(k), |k: K| values[keys.index_of(k)])
}

/// The keys of the map are those of the sequence.
pub proof fn lemma_assoc_dom<K, V>(keys: Seq<K>, values: Seq<V>)
    ensures
        assoc(keys, values).dom() == keys.to_set(),
        assoc(keys, values).dom().finite(),
{
    assert(assoc(keys, values).dom() =~= keys.to_set());
    vstd::seq_lib::seq_to_set_is_finite(keys);
}

/// Where no key stands twice, each key has the value at its own place.
pub proof fn lemma_assoc_at<K, V>(keys: Seq<K>, values: Seq<V>, i: int)
    requires
        keys.no_duplicates(),
        0 <= i < keys.len(),
    ensures
        assoc(keys, values).dom().contains(keys[i]),
        assoc(keys, values)[keys[i]] == values[i],
{
    let j = keys.index_of(keys[i]);
    assert(keys[j] == keys[i]);
}

/// Another value in the place of a key's value changes the value of that
/// key, and nothing else.
pub proof fn lemma_assoc_update<K, V>(keys: Seq<K>, values: Seq<V>, i: int, v: V)
    requires
        keys.no_duplicates(),
        keys.len() == values.len(),
        0 <= i < keys.len(),
    ensures
        assoc(keys, values.update(i, v)) == assoc(keys, values).insert(keys[i], v),
{
    let a = assoc(keys, values.update(i, v));
    let b = assoc(keys, values).insert(keys[i], v);
    assert forall|k: K| a.dom().contains(k) <==> b.dom().contains(k) by {}
    assert forall|k: K| a.dom().contains(k) implies a[k] == b[k] by {
        let j = keys.index_of(k);
        assert(keys[j] == k);
    }
    assert(a =~= b);
}

/// A key that is new, with its value, is one more key with that value.
pub proof fn lemma_assoc_push<K, V>(keys: Seq<K>, values: Seq<V>, k: K, v: V)
    requires
        keys.no_duplicates(),
        keys.len() == values.len(),
        !keys.contains(k),
    ensures
        keys.push(k).no_duplicates(),
        assoc(keys.push(k), values.push(v)) == assoc(keys, values).insert(k, v),
{
    let keys2 = keys.push(k);
    let a = assoc(keys2, values.push(v));
    let b = assoc(keys, values).insert(k, v);
    assert forall|x: K| a.dom().contains(x) <==> b.dom().contains(x) by {
        if keys.contains(x) {
            let j = keys.index_of(x);
            assert(keys2[j] == x);
        }
        if keys2.contains(x) && x != k {
            let j = keys2.index_of(x);
            assert(keys[j] == x);
        }
        assert(keys2[keys.len() as int] == k);
    }
    assert forall|x: K| a.dom().contains(x) implies a[x] == b[x] by {
        let j = keys2.index_of(x);
        assert(keys2[j] == x);
        if x != k {
            assert(keys[j] == x);
            let j2 = keys.index_of(x);
            assert(keys[j2] == x);
        }
    }
    assert(a =~= b);
}

} // verus!
