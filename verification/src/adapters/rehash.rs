//! `rehashinghashmap::RehashingHashMap`, from byte strings to numbers.

use rehashinghashmap::RehashingHashMap;
use std::hash::Hash;
use vstd::prelude::*;

verus! {

/// The hash map of the `rehashinghashmap` crate, which shrinks in small steps.
#[verifier::external_type_specification]
#[verifier::external_body]
#[verifier::reject_recursive_types(K)]
#[verifier::reject_recursive_types(V)]
pub struct ExRehashingHashMap<K: Eq + Hash, V>(RehashingHashMap<K, V>);

/// What the map holds: the union of its two inner maps, which share no key.
pub uninterp spec fn index_entries(m: RehashingHashMap<Vec<u8>, usize>) -> Map<Seq<u8>, usize>;

/// How many steps of `rehash` it takes until the map is not rehashing: none
/// when it is not, else one more than the entries that still have to move.
pub uninterp spec fn index_backlog(m: RehashingHashMap<Vec<u8>, usize>) -> nat;

/// `RehashingHashMap::new`: an empty map that is not rehashing.
#[verifier::external_body]
pub(crate) fn index_new() -> (r: RehashingHashMap<Vec<u8>, usize>)
    ensures
        index_entries(r).dom() == Set::<Seq<u8>>::empty(),
        index_backlog(r) == 0,
{
    RehashingHashMap::new()
}

/// `RehashingHashMap::get`: the number that the map holds for the key.
#[verifier::external_body]
pub(crate) fn index_get(m: &RehashingHashMap<Vec<u8>, usize>, key: &Vec<u8>) -> (r: Option<usize>)
    ensures
        match r {
            Some(i) => index_entries(*m).contains_key(key@) && i == index_entries(*m)[key@],
            None => !index_entries(*m).contains_key(key@),
        },
{
    m.get(key).map(|i| *i)
}

/// `RehashingHashMap::insert`: sets the number of the key, whichever of the
/// two inner maps had it. While the map is rehashing this also takes one step,
/// and never makes more steps needed.
#[verifier::external_body]
pub(crate) fn index_insert(m: &mut RehashingHashMap<Vec<u8>, usize>, key: Vec<u8>, value: usize)
    ensures
        index_entries(*final(m)) == index_entries(*old(m)).insert(key@, value),
        index_backlog(*old(m)) == 0 ==> index_backlog(*final(m)) == 0,
        index_backlog(*old(m)) > 0 ==> index_backlog(*final(m)) < index_backlog(*old(m)),
{
    m.insert(key, value);
}

/// `RehashingHashMap::remove`: takes out the key, from whichever of the two
/// inner maps has it. While the map is rehashing this also takes one step, and
/// never makes more steps needed.
#[verifier::external_body]
pub(crate) fn index_remove(m: &mut RehashingHashMap<Vec<u8>, usize>, key: &Vec<u8>)
    ensures
        index_entries(*final(m)) == index_entries(*old(m)).remove(key@),
        index_backlog(*old(m)) == 0 ==> index_backlog(*final(m)) == 0,
        index_backlog(*old(m)) > 0 ==> index_backlog(*final(m)) < index_backlog(*old(m)),
{
    m.remove(key);
}

/// `RehashingHashMap::capacity`: how many entries the main inner map can hold
/// without allocating, and those that still have to move to it. That is at
/// least as many as there are entries; how many more rests on the allocation
/// and is not claimed.
#[verifier::external_body]
pub(crate) fn index_capacity(m: &RehashingHashMap<Vec<u8>, usize>) -> (r: usize)
    ensures
        r >= index_entries(*m).dom().len(),
{
    m.capacity()
}

/// `RehashingHashMap::is_rehashing`: whether a step of `rehash` does anything.
#[verifier::external_body]
pub(crate) fn index_is_rehashing(m: &RehashingHashMap<Vec<u8>, usize>) -> (r: bool)
    ensures
        r == (index_backlog(*m) > 0),
{
    m.is_rehashing()
}

/// `RehashingHashMap::rehash`: while the map is rehashing, moves one entry to
/// the new inner map, or gives up the old one when it is empty. The entries
/// stay the same.
#[verifier::external_body]
pub(crate) fn index_rehash(m: &mut RehashingHashMap<Vec<u8>, usize>)
    ensures
        index_entries(*final(m)) == index_entries(*old(m)),
        index_backlog(*old(m)) == 0 ==> index_backlog(*final(m)) == 0,
        index_backlog(*old(m)) > 0 ==> index_backlog(*final(m)) == index_backlog(*old(m)) - 1,
{
    m.rehash()
}

/// `RehashingHashMap::shrink_to_fit`: unless the map is rehashing, makes a new
/// inner map to which every entry has to move. The entries stay the same.
#[verifier::external_body]
pub(crate) fn index_shrink_to_fit(m: &mut RehashingHashMap<Vec<u8>, usize>)
    ensures
        index_entries(*final(m)) == index_entries(*old(m)),
        index_backlog(*old(m)) == 0 ==> index_backlog(*final(m)) == index_entries(*old(m)).dom().len() + 1,
        index_backlog(*old(m)) > 0 ==> index_backlog(*final(m)) == index_backlog(*old(m)),
{
    m.shrink_to_fit()
}

/// `RehashingHashMap::clear`: takes out every entry. It panics while entries
/// have to move, so it is called on a map that is not rehashing.
#[verifier::external_body]
pub(crate) fn index_clear(m: &mut RehashingHashMap<Vec<u8>, usize>)
    requires
        index_backlog(*old(m)) == 0,
    ensures
        index_entries(*final(m)).dom() == Set::<Seq<u8>>::empty(),
        index_backlog(*final(m)) == 0,
{
    m.clear()
}

} // verus!
