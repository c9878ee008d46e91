//! Two parallel sequences, of keys and of values, read as a map.

use vstd::prelude::*;

verus! {

/// The bytes of each of a sequence of byte strings.
pub open spec fn texts(items: Seq<Vec<u8>>) -> Seq<Seq<u8>> {
    Seq::new(items.len(), |i: int| items[i]@)
}

/// The map from each key to the value at its place.
pub open spec fn assoc<K, V>(keys: Seq<K>, values: Seq<V>) -> Map<K, V> {
    Map::new(|k: K| keys.contains(k), |k: K| values[keys.index_of(k)])
}

/// Keys and values that can be read as a map: as many of one as of the other,
/// and no key twice.
pub open spec fn paired<K, V>(keys: Seq<K>, values: Seq<V>) -> bool {
    &&& keys.len() == values.len()
    &&& keys.no_duplicates()
}

/// A map that holds each key with the value at its place, and nothing else, is
/// what the sequences are read as.
pub proof fn lemma_assoc_is<K, V>(keys: Seq<K>, values: Seq<V>, m: Map<K, V>)
    requires
        paired(keys, values),
        forall|i: int|
            0 <= i < keys.len() ==> m.contains_key(#[trigger] keys[i]) && m[keys[i]] == values[i],
        forall|k: K| #[trigger] m.contains_key(k) ==> keys.contains(k),
    ensures
        assoc(keys, values) == m,
{
    assert forall|k: K| keys.contains(k) implies m.contains_key(k) && m[k]
        == values[keys.index_of(k)] by {
        let i = keys.index_of(k);
        assert(0 <= i < keys.len() && keys[i] == k);
    }
    assert(assoc(keys, values) =~= m);
}

/// The map holds each key, with the value at its place.
pub proof fn lemma_assoc_at<K, V>(keys: Seq<K>, values: Seq<V>, i: int)
    requires
        paired(keys, values),
        0 <= i < keys.len(),
    ensures
        assoc(keys, values).contains_key(keys[i]),
        assoc(keys, values)[keys[i]] == values[i],
        keys.index_of(keys[i]) == i,
{
    assert(keys.contains(keys[i]));
    let j = keys.index_of(keys[i]);
    assert(0 <= j < keys.len() && keys[j] == keys[i]);
}

/// Putting in a new key with its value, at any place, adds it to the map.
pub proof fn lemma_assoc_insert<K, V>(
    keys: Seq<K>,
    values: Seq<V>,
    place: int,
    key: K,
    value: V,
)
    requires
        paired(keys, values),
        0 <= place <= keys.len(),
        !keys.contains(key),
    ensures
        paired(keys.insert(place, key), values.insert(place, value)),
        assoc(keys.insert(place, key), values.insert(place, value)) == assoc(keys, values).insert(
            key,
            value,
        ),
{
    let k2 = keys.insert(place, key);
    let v2 = values.insert(place, value);
    let m = assoc(keys, values).insert(key, value);
    assert forall|i: int, j: int| 0 <= i < k2.len() && 0 <= j < k2.len() && i != j implies k2[i]
        != k2[j] by {
        let i1 = if i < place { i } else { i - 1 };
        let j1 = if j < place { j } else { j - 1 };
        if i != place {
            assert(k2[i] == keys[i1]);
            assert(keys.contains(keys[i1]));
        }
        if j != place {
            assert(k2[j] == keys[j1]);
            assert(keys.contains(keys[j1]));
        }
    }
    assert forall|i: int| 0 <= i < k2.len() implies m.contains_key(#[trigger] k2[i]) && m[k2[i]]
        == v2[i] by {
        if i != place {
            let i1 = if i < place { i } else { i - 1 };
            assert(k2[i] == keys[i1]);
            lemma_assoc_at(keys, values, i1);
        }
    }
    assert forall|k: K| #[trigger] m.contains_key(k) implies k2.contains(k) by {
        if k == key {
            assert(k2[place] == key);
        } else {
            let i = keys.index_of(k);
            assert(keys[i] == k);
            assert(k2[if i < place { i } else { i + 1 }] == k);
        }
    }
    lemma_assoc_is(k2, v2, m);
}

/// Changing the value at a place changes what the map holds for its key.
pub proof fn lemma_assoc_update<K, V>(keys: Seq<K>, values: Seq<V>, place: int, value: V)
    requires
        paired(keys, values),
        0 <= place < keys.len(),
    ensures
        assoc(keys, values.update(place, value)) == assoc(keys, values).insert(keys[place], value),
{
    let v2 = values.update(place, value);
    let m = assoc(keys, values).insert(keys[place], value);
    assert forall|i: int| 0 <= i < keys.len() implies m.contains_key(#[trigger] keys[i])
        && m[keys[i]] == v2[i] by {
        lemma_assoc_at(keys, values, i);
    }
    assert forall|k: K| #[trigger] m.contains_key(k) implies keys.contains(k) by {
        if k == keys[place] {
            assert(keys.contains(keys[place]));
        }
    }
    lemma_assoc_is(keys, v2, m);
}

/// Taking out the key and the value at a place takes the key out of the map.
pub proof fn lemma_assoc_remove<K, V>(keys: Seq<K>, values: Seq<V>, place: int)
    requires
        paired(keys, values),
        0 <= place < keys.len(),
    ensures
        paired(keys.remove(place), values.remove(place)),
        assoc(keys.remove(place), values.remove(place)) == assoc(keys, values).remove(keys[place]),
{
    let k2 = keys.remove(place);
    let v2 = values.remove(place);
    let m = assoc(keys, values).remove(keys[place]);
    assert forall|i: int| 0 <= i < k2.len() implies m.contains_key(#[trigger] k2[i]) && m[k2[i]]
        == v2[i] by {
        let i1 = if i < place { i } else { i + 1 };
        assert(k2[i] == keys[i1]);
        lemma_assoc_at(keys, values, i1);
    }
    assert forall|k: K| #[trigger] m.contains_key(k) implies k2.contains(k) by {
        let i = keys.index_of(k);
        assert(keys[i] == k && i != place);
        assert(k2[if i < place { i } else { i - 1 }] == k);
    }
    lemma_assoc_is(k2, v2, m);
}

/// Taking out the key and the value at a place, with the last ones moved
/// there, takes the key out of the map.
pub proof fn lemma_assoc_swap_remove<K, V>(keys: Seq<K>, values: Seq<V>, place: int)
    requires
        paired(keys, values),
        0 <= place < keys.len(),
    ensures
        paired(
            keys.update(place, keys.last()).drop_last(),
            values.update(place, values.last()).drop_last(),
        ),
        assoc(
            keys.update(place, keys.last()).drop_last(),
            values.update(place, values.last()).drop_last(),
        ) == assoc(keys, values).remove(keys[place]),
{
    let k2 = keys.update(place, keys.last()).drop_last();
    let v2 = values.update(place, values.last()).drop_last();
    let m = assoc(keys, values).remove(keys[place]);
    assert forall|i: int| 0 <= i < k2.len() implies m.contains_key(#[trigger] k2[i]) && m[k2[i]]
        == v2[i] by {
        let i1 = if i == place { keys.len() - 1 } else { i };
        assert(k2[i] == keys[i1]);
        lemma_assoc_at(keys, values, i1);
    }
    assert forall|k: K| #[trigger] m.contains_key(k) implies k2.contains(k) by {
        let i = keys.index_of(k);
        assert(keys[i] == k && i != place);
        assert(k2[if i == keys.len() - 1 { place } else { i }] == k);
    }
    lemma_assoc_is(k2, v2, m);
}

/// The map has as many keys as the sequence of keys is long.
pub proof fn lemma_assoc_len<K, V>(keys: Seq<K>, values: Seq<V>)
    requires
        paired(keys, values),
    ensures
        assoc(keys, values).dom().finite(),
        assoc(keys, values).dom().len() == keys.len(),
        assoc(keys, values).dom() == keys.to_set(),
{
    keys.unique_seq_to_set();
    assert(assoc(keys, values).dom() =~= keys.to_set());
}

/// The bytes of byte strings come in the order of these, as many as there are.
pub proof fn texts_elements(items: Seq<Vec<u8>>, i: int)
    requires
        0 <= i < items.len(),
    ensures
        texts(items).len() == items.len(),
        texts(items)[i] == items[i]@,
{
}

/// Keys and values can be read as a map if there are as many of both and no
/// key stands at two places.
pub proof fn paired_exactly<K, V>(keys: Seq<K>, values: Seq<V>)
    ensures
        paired(keys, values) <==> keys.len() == values.len() && forall|i: int, j: int|
            0 <= i < j < keys.len() ==> #[trigger] keys[i] != #[trigger] keys[j],
{
    if keys.len() == values.len() && (forall|i: int, j: int| 0 <= i < j < keys.len() ==> #[trigger] keys[i] != #[trigger] keys[j]) {
        assert forall|i: int, j: int| 0 <= i < keys.len() && 0 <= j < keys.len() && i != j implies keys[i] != keys[j] by {
            if i < j {
                assert(keys[i] != keys[j]);
            } else {
                assert(keys[j] != keys[i]);
            }
        }
    }
}

} // verus!
