//! A map from byte strings for many keys: a hash map from each key to the
//! place of its value.

use rehashinghashmap::RehashingHashMap;
use vstd::prelude::*;

use crate::adapters::rehash::{index_backlog, index_capacity, index_clear, index_entries, index_get, index_insert, index_is_rehashing, index_new, index_rehash, index_remove, index_shrink_to_fit};
use crate::assoc::{assoc, lemma_assoc_at, lemma_assoc_insert, lemma_assoc_len, lemma_assoc_swap_remove, lemma_assoc_update, paired, texts};
use crate::lex::copy;

verus! {

/// A map from byte strings. `index` gives the place of a key, at which the key
/// stands in `keys` and its value in `values`.
pub struct Table<V> {
    pub index: RehashingHashMap<Vec<u8>, usize>,
    pub keys: Vec<Vec<u8>>,
    pub values: Vec<V>,
}

/// Whether the index gives the place of each key, and of nothing else.
pub open spec fn indexes(index: Map<Seq<u8>, usize>, keys: Seq<Seq<u8>>) -> bool {
    &&& forall|i: int| 0 <= i < keys.len() ==> index.contains_key(#[trigger] keys[i]) && index[keys[i]] == i
    &&& forall|k: Seq<u8>| #[trigger] index.contains_key(k) ==> index[k] < keys.len() && keys[index[k] as int] == k
}

/// How many steps of moving keys are left after one more, if any was.
pub open spec fn stepped(backlog: nat) -> nat {
    if backlog == 0 {
        0
    } else {
        (backlog - 1) as nat
    }
}

impl<V> View for Table<V> {
    type V = Map<Seq<u8>, V>;

    open spec fn view(&self) -> Map<Seq<u8>, V> {
        assoc(texts(self.keys@), self.values@)
    }
}

impl<V> Table<V> {
    /// There is a value for each key, and the index gives each key's place.
    pub open spec fn wf(&self) -> bool {
        &&& self.keys.len() == self.values.len()
        &&& indexes(index_entries(self.index), texts(self.keys@))
    }

    /// How many steps of moving the keys are left. None are when no move has
    /// begun.
    pub open spec fn backlog(&self) -> nat {
        index_backlog(self.index)
    }

    /// How many steps of moving the keys are left once a move has begun: those
    /// of the move that goes on or, if there is none, one for each key and one
    /// to end with.
    pub open spec fn backlog_begun(&self) -> nat {
        if self.backlog() == 0 {
            self@.dom().len() + 1
        } else {
            self.backlog()
        }
    }

    /// What a valid table knows of itself.
    proof fn lemma_wf(&self)
        requires
            self.wf(),
        ensures
            paired(texts(self.keys@), self.values@),
            self@.dom() == index_entries(self.index).dom(),
            self@.dom().finite(),
            self@.dom().len() == self.values.len(),
    {
        let keys = texts(self.keys@);
        let index = index_entries(self.index);
        assert forall|i: int, j: int| 0 <= i < keys.len() && 0 <= j < keys.len() && i != j implies keys[i] != keys[j] by {
            assert(index[keys[i]] == i && index[keys[j]] == j);
        }
        lemma_assoc_len(keys, self.values@);
        assert forall|k: Seq<u8>| self@.contains_key(k) implies index.contains_key(k) by {
            let i = keys.index_of(k);
            assert(keys[i] == k);
        }
        assert forall|k: Seq<u8>| index.contains_key(k) implies self@.contains_key(k) by {
            assert(keys[index[k] as int] == k);
        }
        assert(self@.dom() =~= index.dom());
    }

    /// The table with no key.
    pub fn new() -> (r: Table<V>)
        ensures
            r.wf(),
            r@ == Map::<Seq<u8>, V>::empty(),
    {
        let r = Table { index: index_new(), keys: Vec::new(), values: Vec::new() };
        proof {
            r.lemma_wf();
            assert(r@ =~= Map::<Seq<u8>, V>::empty());
        }
        r
    }

    /// Whether the table has the key.
    pub fn contains_key(&self, key: &Vec<u8>) -> (r: bool)
        requires
            self.wf(),
        ensures
            r == self@.contains_key(key@),
    {
        proof {
            self.lemma_wf();
        }
        index_get(&self.index, key).is_some()
    }

    /// The value of the key.
    pub fn get(&self, key: &Vec<u8>) -> (r: Option<&V>)
        requires
            self.wf(),
        ensures
            match r {
                Some(v) => self@.contains_key(key@) && *v == self@[key@],
                None => !self@.contains_key(key@),
            },
    {
        proof {
            self.lemma_wf();
        }
        match index_get(&self.index, key) {
            Some(place) => {
                proof {
                    lemma_assoc_at(texts(self.keys@), self.values@, place as int);
                }
                Some(&self.values[place])
            },
            None => None,
        }
    }

    /// The value of the key, to be changed in place. This also takes one step
    /// of moving the keys, if they are being moved.
    pub fn get_mut(&mut self, key: &Vec<u8>) -> (r: Option<&mut V>)
        requires
            old(self).wf(),
        ensures
            final(self).wf(),
            final(self).backlog() == stepped(old(self).backlog()),
            match r {
                Some(v) => {
                    &&& old(self)@.contains_key(key@)
                    &&& *v == old(self)@[key@]
                    &&& final(self)@ == old(self)@.insert(key@, *final(v))
                },
                None => !old(self)@.contains_key(key@) && final(self)@ == old(self)@,
            },
    {
        proof {
            self.lemma_wf();
        }
        index_rehash(&mut self.index);
        match index_get(&self.index, key) {
            Some(place) => {
                let ghost all = texts(self.keys@);
                let ghost values = self.values@;
                proof {
                    lemma_assoc_at(all, values, place as int);
                    assert forall|v: V| #[trigger] assoc(all, values.update(place as int, v)) == assoc(all, values).insert(key@, v) by {
                        lemma_assoc_update(all, values, place as int, v);
                    }
                }
                Some(&mut self.values[place])
            },
            None => None,
        }
    }

    /// Sets the value of the key. Returns the value that it had. This also takes
    /// at least one step of moving the keys, if they are being moved.
    pub fn insert(&mut self, key: Vec<u8>, value: V) -> (r: Option<V>)
        requires
            old(self).wf(),
        ensures
            final(self).wf(),
            final(self).backlog() <= stepped(old(self).backlog()),
            final(self)@ == old(self)@.insert(key@, value),
            match r {
                Some(v) => old(self)@.contains_key(key@) && v == old(self)@[key@],
                None => !old(self)@.contains_key(key@),
            },
    {
        proof {
            self.lemma_wf();
        }
        let ghost all = texts(self.keys@);
        let ghost values = self.values@;
        let ghost text = key@;
        match index_get(&self.index, &key) {
            Some(place) => {
                let mut slot: V = value;
                proof {
                    lemma_assoc_at(all, values, place as int);
                    lemma_assoc_update(all, values, place as int, value);
                }
                core::mem::swap(&mut self.values[place], &mut slot);
                index_rehash(&mut self.index);
                Some(slot)
            },
            None => {
                let place: usize = self.keys.len();
                proof {
                    assert(!all.contains(text)) by {
                        if all.contains(text) {
                            let i = all.index_of(text);
                            assert(all[i] == text);
                        }
                    }
                    lemma_assoc_insert(all, values, place as int, text, value);
                    assert(all.insert(place as int, text) =~= all.push(text));
                    assert(values.insert(place as int, value) =~= values.push(value));
                }
                index_insert(&mut self.index, copy(&key), place);
                self.keys.push(key);
                self.values.push(value);
                proof {
                    assert(texts(self.keys@) =~= all.push(text));
                    assert forall|k: Seq<u8>| #[trigger] index_entries(self.index).contains_key(k) implies index_entries(
                        self.index,
                    )[k] < texts(self.keys@).len() && texts(self.keys@)[index_entries(self.index)[k] as int] == k by {
                        if k != text {
                            assert(all[index_entries(self.index)[k] as int] == k);
                        }
                    }
                    assert forall|i: int| 0 <= i < texts(self.keys@).len() implies index_entries(self.index).contains_key(
                        #[trigger] texts(self.keys@)[i],
                    ) && index_entries(self.index)[texts(self.keys@)[i]] == i by {
                        if i < all.len() {
                            assert(texts(self.keys@)[i] == all[i]);
                            assert(all.contains(all[i]));
                        }
                    }
                }
                None
            },
        }
    }

    /// Takes out the key. Returns the value that it had. This also takes at
    /// least one step of moving the keys, if they are being moved.
    pub fn remove(&mut self, key: &Vec<u8>) -> (r: Option<V>)
        requires
            old(self).wf(),
        ensures
            final(self).wf(),
            final(self).backlog() <= stepped(old(self).backlog()),
            final(self)@ == old(self)@.remove(key@),
            match r {
                Some(v) => old(self)@.contains_key(key@) && v == old(self)@[key@],
                None => !old(self)@.contains_key(key@),
            },
    {
        proof {
            self.lemma_wf();
        }
        let ghost all = texts(self.keys@);
        let ghost values = self.values@;
        let ghost before = index_entries(self.index);
        match index_get(&self.index, key) {
            Some(place) => {
                proof {
                    lemma_assoc_at(all, values, place as int);
                    lemma_assoc_swap_remove(all, values, place as int);
                }
                index_remove(&mut self.index, key);
                self.keys.swap_remove(place);
                let value = self.values.swap_remove(place);
                if place < self.keys.len() {
                    index_insert(&mut self.index, copy(&self.keys[place]), place);
                }
                proof {
                    let left = all.update(place as int, all.last()).drop_last();
                    assert(texts(self.keys@) =~= left);
                    let index = index_entries(self.index);
                    assert forall|i: int| 0 <= i < left.len() implies index.contains_key(#[trigger] left[i]) && index[left[i]] == i by {
                        if i != place {
                            assert(left[i] == all[i]);
                        } else {
                            assert(left[i] == all.last());
                        }
                    }
                    assert forall|k: Seq<u8>| #[trigger] index.contains_key(k) implies index[k] < left.len() && left[index[k] as int] == k by {
                        if place < left.len() && k == left[place as int] {
                        } else {
                            assert(before.contains_key(k) && k != key@);
                            assert(all[before[k] as int] == k);
                            assert(before[k] != place);
                            if before[k] == all.len() - 1 {
                                assert(k == all.last());
                                assert(left[place as int] == k);
                            }
                        }
                    }
                }
                Some(value)
            },
            None => {
                index_rehash(&mut self.index);
                proof {
                    assert(self@.remove(key@) =~= self@);
                }
                None
            },
        }
    }

    /// The number of keys.
    pub fn len(&self) -> (r: usize)
        requires
            self.wf(),
        ensures
            self@.dom().finite(),
            r == self@.dom().len(),
    {
        proof {
            self.lemma_wf();
        }
        self.values.len()
    }

    /// How many keys the hash map has room for, which is at least as many as it
    /// has.
    pub fn capacity(&self) -> (r: usize)
        ensures
            self.wf() ==> self@.dom().len() <= r,
    {
        proof {
            if self.wf() {
                self.lemma_wf();
            }
        }
        index_capacity(&self.index)
    }

    /// Begins to move the keys to a hash map that is no larger than needed, and
    /// gives back the room that keys and values do not need, unless the keys are
    /// being moved already.
    pub fn shrink_to_fit(&mut self)
        requires
            old(self).wf(),
        ensures
            final(self).wf(),
            final(self)@ == old(self)@,
            final(self).backlog() == old(self).backlog_begun(),
    {
        proof {
            self.lemma_wf();
        }
        if !index_is_rehashing(&self.index) {
            let ghost keys = self.keys@;
            let ghost values = self.values@;
            let mut fewer_keys: Vec<Vec<u8>> = Vec::with_capacity(self.keys.len());
            fewer_keys.append(&mut self.keys);
            self.keys = fewer_keys;
            let mut fewer_values: Vec<V> = Vec::with_capacity(self.values.len());
            fewer_values.append(&mut self.values);
            self.values = fewer_values;
            proof {
                assert(self.keys@ =~= keys);
                assert(self.values@ =~= values);
            }
        }
        index_shrink_to_fit(&mut self.index)
    }

    /// Takes one step of moving the keys, if they are being moved.
    pub fn rehash(&mut self)
        requires
            old(self).wf(),
        ensures
            final(self).wf(),
            final(self)@ == old(self)@,
            final(self).backlog() == stepped(old(self).backlog()),
    {
        index_rehash(&mut self.index)
    }

    /// Takes out every key.
    pub fn clear(&mut self)
        requires
            old(self).wf(),
        ensures
            final(self).wf(),
            final(self).backlog() == 0,
            final(self)@ == Map::<Seq<u8>, V>::empty(),
    {
        while index_is_rehashing(&self.index)
            invariant
                self.wf(),
            decreases index_backlog(self.index),
        {
            index_rehash(&mut self.index);
        }
        index_clear(&mut self.index);
        self.keys.clear();
        self.values.clear();
        proof {
            self.lemma_wf();
            assert(self@ =~= Map::<Seq<u8>, V>::empty());
        }
    }
}

/// A valid table holds each of its keys with the value at its place, and no
/// other key.
pub proof fn table_reads<V>(table: Table<V>, key: Seq<u8>)
    requires
        table.wf(),
    ensures
        table@.contains_key(key) <==> exists|i: int| 0 <= i < table.keys.len() && (#[trigger] table.keys@[i])@ == key,
        table.keys.len() == table.values.len(),
        forall|i: int|
            0 <= i < table.keys.len() ==> table@.contains_key((#[trigger] table.keys@[i])@) && table@[table.keys@[i]@] == table.values@[i],
        table@.dom().len() == table.keys.len(),
{
    table.lemma_wf();
    let all = texts(table.keys@);
    if table@.contains_key(key) {
        let i = all.index_of(key);
        assert(all[i] == key);
        assert(table.keys@[i]@ == key);
    }
    assert forall|i: int| 0 <= i < table.keys.len() implies table@.contains_key((#[trigger] table.keys@[i])@)
        && table@[table.keys@[i]@] == table.values@[i] by {
        lemma_assoc_at(all, table.values@, i);
        assert(all[i] == table.keys@[i]@);
    }
}

/// Each step leaves one fewer until none is left. A move that begins has a step
/// for each key and one to end with, and one that goes on is not begun again.
pub proof fn steps_of_a_move<V>(table: Table<V>, n: nat)
    ensures
        stepped(0) == 0,
        stepped(n + 1) == n,
        table.backlog() == index_backlog(table.index),
        table.backlog() == 0 ==> table.backlog_begun() == table@.dom().len() + 1,
        table.backlog() > 0 ==> table.backlog_begun() == table.backlog(),
{
}

} // verus!
