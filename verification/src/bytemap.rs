//! A map from byte strings, kept as a sorted vector of keys beside the values.

use vstd::prelude::*;

use crate::assoc::{assoc, lemma_assoc_at, lemma_assoc_insert, lemma_assoc_len, lemma_assoc_remove, lemma_assoc_update, paired, texts};
use crate::byteset::{lemma_ascending_distinct, lemma_ascending_insert, lemma_ascending_remove, ByteSet};

verus! {

/// A map from byte strings. The value of a key stands in `values` where the
/// key stands in `keys`.
#[derive(PartialEq, Debug)]
pub struct ByteMap<V> {
    pub keys: ByteSet,
    pub values: Vec<V>,
}

impl<V> View for ByteMap<V> {
    type V = Map<Seq<u8>, V>;

    open spec fn view(&self) -> Map<Seq<u8>, V> {
        assoc(texts(self.keys.items@), self.values@)
    }
}

impl<V> ByteMap<V> {
    /// The keys are a valid set, and there is a value for each.
    pub open spec fn wf(&self) -> bool {
        &&& self.keys.wf()
        &&& self.keys.items.len() == self.values.len()
    }

    /// What a valid map knows of itself.
    pub proof fn lemma_wf(&self)
        requires
            self.wf(),
        ensures
            paired(texts(self.keys.items@), self.values@),
            self@.dom() == self.keys@,
            self@.dom().finite(),
            self@.dom().len() == self.values.len(),
            forall|i: int|
                0 <= i < self.values.len() ==> self@.contains_key(
                    #[trigger] self.keys.items[i]@,
                ) && self@[self.keys.items[i]@] == self.values[i],
    {
        lemma_ascending_distinct(texts(self.keys.items@));
        lemma_assoc_len(texts(self.keys.items@), self.values@);
        assert forall|i: int| 0 <= i < self.values.len() implies self@.contains_key(
            #[trigger] self.keys.items[i]@,
        ) && self@[self.keys.items[i]@] == self.values[i] by {
            lemma_assoc_at(texts(self.keys.items@), self.values@, i);
            assert(texts(self.keys.items@)[i] == self.keys.items[i]@);
        }
    }

    /// The map with no key.
    pub fn new() -> (r: ByteMap<V>)
        ensures
            r.wf(),
            r@ == Map::<Seq<u8>, V>::empty(),
    {
        let r = ByteMap { keys: ByteSet::new(), values: Vec::new() };
        proof {
            r.lemma_wf();
            assert(r@ =~= Map::<Seq<u8>, V>::empty());
        }
        r
    }

    /// Whether the map has the key.
    pub fn contains_key(&self, key: &Vec<u8>) -> (r: bool)
        requires
            self.wf(),
        ensures
            r == self@.contains_key(key@),
    {
        proof {
            self.lemma_wf();
        }
        self.keys.contains(key)
    }

    /// The value of the key.
    pub fn get(&self, key: &Vec<u8>) -> (r: Option<&V>)
        requires
            self.wf(),
        ensures
            match r {
                Some(v) => self@.contains_key(key@) && *v == self@[key@],
                None => !self@.contains_key(key@),
            },
    {
        proof {
            self.lemma_wf();
        }
        let (found, place) = self.keys.search(key);
        if found {
            proof {
                assert(self.keys.items[place as int]@ == key@);
            }
            Some(&self.values[place])
        } else {
            None
        }
    }

    /// The value of the key, to be changed in place.
    pub fn get_mut(&mut self, key: &Vec<u8>) -> (r: Option<&mut V>)
        requires
            old(self).wf(),
        ensures
            final(self).wf(),
            match r {
                Some(v) => {
                    &&& old(self)@.contains_key(key@)
                    &&& *v == old(self)@[key@]
                    &&& final(self)@ == old(self)@.insert(key@, *final(v))
                },
                None => !old(self)@.contains_key(key@) && final(self)@ == old(self)@,
            },
    {
        proof {
            self.lemma_wf();
        }
        let (found, place) = self.keys.search(key);
        if found {
            let ghost all = texts(self.keys.items@);
            let ghost values = self.values@;
            proof {
                assert(self.keys.items[place as int]@ == key@);
                assert forall|v: V| #[trigger] assoc(all, values.update(place as int, v)) == assoc(all, values).insert(key@, v) by {
                    lemma_assoc_update(all, values, place as int, v);
                }
            }
            Some(&mut self.values[place])
        } else {
            None
        }
    }

    /// Sets the value of the key. Returns the value that it had.
    pub fn insert(&mut self, key: Vec<u8>, value: V) -> (r: Option<V>)
        requires
            old(self).wf(),
        ensures
            final(self).wf(),
            final(self)@ == old(self)@.insert(key@, value),
            match r {
                Some(v) => old(self)@.contains_key(key@) && v == old(self)@[key@],
                None => !old(self)@.contains_key(key@),
            },
    {
        proof {
            self.lemma_wf();
        }
        let (found, place) = self.keys.search(&key);
        let ghost all = texts(self.keys.items@);
        let ghost values = self.values@;
        let ghost text = key@;
        if found {
            let mut slot: V = value;
            proof {
                assert(self.keys.items[place as int]@ == key@);
                lemma_assoc_update(all, values, place as int, value);
            }
            core::mem::swap(&mut self.values[place], &mut slot);
            Some(slot)
        } else {
            self.keys.items.insert(place, key);
            self.values.insert(place, value);
            proof {
                lemma_ascending_insert(all, place as int, text);
                lemma_assoc_insert(all, values, place as int, text, value);
                assert(texts(self.keys.items@) =~= all.insert(place as int, text));
            }
            None
        }
    }

    /// Takes out the key. Returns the value that it had.
    pub fn remove(&mut self, key: &Vec<u8>) -> (r: Option<V>)
        requires
            old(self).wf(),
        ensures
            final(self).wf(),
            final(self)@ == old(self)@.remove(key@),
            match r {
                Some(v) => old(self)@.contains_key(key@) && v == old(self)@[key@],
                None => !old(self)@.contains_key(key@),
            },
    {
        proof {
            self.lemma_wf();
        }
        let (found, place) = self.keys.search(key);
        if found {
            let ghost all = texts(self.keys.items@);
            let ghost values = self.values@;
            self.keys.items.remove(place);
            let value = self.values.remove(place);
            proof {
                lemma_ascending_remove(all, place as int);
                lemma_assoc_at(all, values, place as int);
                lemma_assoc_remove(all, values, place as int);
                assert(texts(self.keys.items@) =~= all.remove(place as int));
            }
            Some(value)
        } else {
            proof {
                assert(self@.remove(key@) =~= self@);
            }
            None
        }
    }

    /// The number of keys.
    pub fn len(&self) -> (r: usize)
        requires
            self.wf(),
        ensures
            self@.dom().finite(),
            r == self@.dom().len(),
    {
        proof {
            self.lemma_wf();
        }
        self.values.len()
    }
}

/// A valid map holds each of its keys with the value at its place, and no other
/// key.
pub proof fn bytemap_reads<V>(map: ByteMap<V>, key: Seq<u8>)
    requires
        map.wf(),
    ensures
        map@.contains_key(key) <==> exists|i: int| 0 <= i < map.keys.items.len() && (#[trigger] map.keys.items@[i])@ == key,
        map.keys.items.len() == map.values.len(),
        forall|i: int|
            0 <= i < map.values.len() ==> map@.contains_key(#[trigger] map.keys.items@[i]@) && map@[map.keys.items@[i]@] == map.values@[i],
{
    map.lemma_wf();
    let all = texts(map.keys.items@);
    if map@.contains_key(key) {
        assert(all.contains(key));
        let i = all.index_of(key);
        assert(all[i] == map.keys.items@[i]@);
    }
    if exists|i: int| 0 <= i < map.keys.items.len() && (#[trigger] map.keys.items@[i])@ == key {
        let i = choose|i: int| 0 <= i < map.keys.items.len() && (#[trigger] map.keys.items@[i])@ == key;
        assert(all[i] == key);
        assert(map@.contains_key(map.keys.items[i]@));
    }
    assert forall|i: int| 0 <= i < map.values.len() implies map@.contains_key(#[trigger] map.keys.items@[i]@)
        && map@[map.keys.items@[i]@] == map.values@[i] by {
        assert(map@.contains_key(map.keys.items[i]@));
    }
}

} // verus!
