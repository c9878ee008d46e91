//! `skiplist::OrderedSkipList`, of pairs of a number and a byte string.

use skiplist::OrderedSkipList;
use vstd::prelude::*;

use crate::lex::lex_less;

verus! {

/// The ordered list of the `skiplist` crate.
#[verifier::external_type_specification]
#[verifier::external_body]
#[verifier::reject_recursive_types(T)]
pub struct ExOrderedSkipList<T>(OrderedSkipList<T>);

/// What the list holds, from the first item to the last.
pub uninterp spec fn ranking(list: OrderedSkipList<(i64, Vec<u8>)>) -> Seq<(i64, Seq<u8>)>;

/// Whether the list orders its items as they are ordered themselves, and not
/// by a comparison of its own.
pub uninterp spec fn ordered_by_item(list: OrderedSkipList<(i64, Vec<u8>)>) -> bool;

/// The order of the items: by the number first, by the bytes second.
pub open spec fn precedes(a: (i64, Seq<u8>), b: (i64, Seq<u8>)) -> bool {
    a.0 < b.0 || (a.0 == b.0 && lex_less(a.1, b.1))
}

/// Whether `after` is `before` with an item put in where the order has it:
/// after all that precede it, before all others.
pub open spec fn put_in(before: Seq<(i64, Seq<u8>)>, item: (i64, Seq<u8>), after: Seq<(i64, Seq<u8>)>) -> bool {
    exists|at: int| #[trigger] put_in_at(before, item, after, at)
}

/// Whether `after` is `before` with an item put in at a place that has all
/// that precede the item before it, and nothing else.
pub open spec fn put_in_at(before: Seq<(i64, Seq<u8>)>, item: (i64, Seq<u8>), after: Seq<(i64, Seq<u8>)>, at: int) -> bool {
    &&& 0 <= at <= before.len()
    &&& after == before.insert(at, item)
    &&& forall|i: int| 0 <= i < at ==> precedes(#[trigger] before[i], item)
    &&& forall|i: int| at <= i < before.len() ==> !precedes(#[trigger] before[i], item)
}

/// Whether `after` is `before` with one occurrence of an item taken out.
pub open spec fn taken_out(before: Seq<(i64, Seq<u8>)>, item: (i64, Seq<u8>), after: Seq<(i64, Seq<u8>)>) -> bool {
    exists|at: int| 0 <= at < before.len() && #[trigger] before[at] == item && after == before.remove(at)
}

/// `OrderedSkipList::new`: an empty list, ordered by `PartialOrd` of its items.
#[verifier::external_body]
pub(crate) fn ranking_new() -> (r: OrderedSkipList<(i64, Vec<u8>)>)
    ensures
        ranking(r).len() == 0,
        ordered_by_item(r),
{
    OrderedSkipList::new()
}

/// `OrderedSkipList::insert`: puts in an item where the order has it, before
/// any that is equal to it.
#[verifier::external_body]
pub(crate) fn ranking_insert(list: &mut OrderedSkipList<(i64, Vec<u8>)>, number: i64, bytes: Vec<u8>)
    requires
        ordered_by_item(*old(list)),
    ensures
        ordered_by_item(*final(list)),
        put_in(ranking(*old(list)), (number, bytes@), ranking(*final(list))),
{
    list.insert((number, bytes))
}

/// `OrderedSkipList::remove`: takes out one item that is equal to the given
/// one, if there is any.
#[verifier::external_body]
pub(crate) fn ranking_remove(list: &mut OrderedSkipList<(i64, Vec<u8>)>, number: i64, bytes: Vec<u8>)
    requires
        ordered_by_item(*old(list)),
    ensures
        ordered_by_item(*final(list)),
        ranking(*old(list)).contains((number, bytes@)) ==> taken_out(
            ranking(*old(list)),
            (number, bytes@),
            ranking(*final(list)),
        ),
        !ranking(*old(list)).contains((number, bytes@)) ==> ranking(*final(list)) == ranking(*old(list)),
{
    list.remove(&(number, bytes));
}

/// `OrderedSkipList::get`: the item at an index.
#[verifier::external_body]
pub(crate) fn ranking_get(list: &OrderedSkipList<(i64, Vec<u8>)>, index: usize) -> (r: Option<&(i64, Vec<u8>)>)
    ensures
        match r {
            Some(item) => index < ranking(*list).len() && (item.0, item.1@) == ranking(*list)[index as int],
            None => index >= ranking(*list).len(),
        },
{
    list.get(index)
}

/// `OrderedSkipList::index_of`: the index of the last item that is equal to
/// the given one.
#[verifier::external_body]
pub(crate) fn ranking_index_of(list: &OrderedSkipList<(i64, Vec<u8>)>, number: i64, bytes: Vec<u8>) -> (r: Option<usize>)
    requires
        ordered_by_item(*list),
    ensures
        match r {
            Some(i) => i < ranking(*list).len() && ranking(*list)[i as int] == (number, bytes@),
            None => !ranking(*list).contains((number, bytes@)),
        },
{
    list.index_of(&(number, bytes))
}

} // verus!
