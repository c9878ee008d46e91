//! A set of numbers, kept as a sorted vector.

use vstd::prelude::*;

use crate::number::{decimal_text, decimal_text_injective};

verus! {

/// A set of numbers. They stand in ascending order, each once.
#[derive(PartialEq, Debug)]
pub struct IntSet {
    pub items: Vec<i64>,
}

/// Whether the numbers stand in strictly ascending order.
pub open spec fn increasing(items: Seq<i64>) -> bool {
    forall|i: int, j: int| 0 <= i < j < items.len() ==> #[trigger] items[i] < #[trigger] items[j]
}

/// The texts of numbers.
pub open spec fn number_texts(items: Seq<i64>) -> Seq<Seq<u8>> {
    Seq::new(items.len(), |i: int| decimal_text(items[i] as int))
}

/// The texts of different numbers are different.
pub proof fn lemma_number_texts_distinct(items: Seq<i64>)
    requires
        increasing(items),
    ensures
        number_texts(items).no_duplicates(),
{
    let all = number_texts(items);
    assert forall|i: int, j: int| 0 <= i < all.len() && 0 <= j < all.len() && i != j implies all[i] != all[j] by {
        if all[i] == all[j] {
            decimal_text_injective(items[i] as int, items[j] as int);
        }
    }
}

/// The text of a number is among the texts of numbers if the number is.
pub proof fn lemma_number_texts_contains(items: Seq<i64>, n: i64)
    ensures
        number_texts(items).contains(decimal_text(n as int)) == items.contains(n),
{
    let all = number_texts(items);
    if items.contains(n) {
        let i = items.index_of(n);
        assert(items[i] == n);
        assert(all[i] == decimal_text(n as int));
    }
    if all.contains(decimal_text(n as int)) {
        let i = all.index_of(decimal_text(n as int));
        assert(all[i] == decimal_text(n as int));
        decimal_text_injective(items[i] as int, n as int);
        assert(items[i] == n);
    }
}

impl View for IntSet {
    type V = Set<i64>;

    open spec fn view(&self) -> Set<i64> {
        self.items@.to_set()
    }
}

impl IntSet {
    /// The numbers stand in strictly ascending order.
    pub open spec fn wf(&self) -> bool {
        increasing(self.items@)
    }

    /// The set with no number.
    pub fn new() -> (r: IntSet)
        ensures
            r.wf(),
            r.items@.len() == 0,
            r@ == Set::<i64>::empty(),
    {
        let r = IntSet { items: Vec::new() };
        proof {
            assert(r@ =~= Set::<i64>::empty());
        }
        r
    }

    /// Where a number stands, or where it would be put in.
    pub fn search(&self, item: i64) -> (r: (bool, usize))
        requires
            self.wf(),
        ensures
            r.0 == self@.contains(item),
            r.0 ==> r.1 < self.items.len() && self.items[r.1 as int] == item,
            !r.0 ==> r.1 <= self.items.len() && (forall|i: int| 0 <= i < r.1 ==> #[trigger] self.items@[i] < item) && (forall|
                i: int,
            |
                r.1 <= i < self.items.len() ==> item < #[trigger] self.items@[i]),
    {
        let mut low: usize = 0;
        let mut high: usize = self.items.len();
        while low < high
            invariant
                self.wf(),
                low <= high <= self.items.len(),
                forall|i: int| 0 <= i < low ==> #[trigger] self.items@[i] < item,
                forall|i: int| high <= i < self.items.len() ==> item < #[trigger] self.items@[i],
            decreases high - low,
        {
            let middle: usize = low + (high - low) / 2;
            if self.items[middle] < item {
                low = middle + 1;
            } else if self.items[middle] == item {
                proof {
                    assert(self.items@[middle as int] == item);
                    assert(self.items@.contains(item));
                }
                return (true, middle);
            } else {
                high = middle;
            }
        }
        (false, low)
    }

    /// Adds a number. Returns whether it was not there before.
    pub fn insert(&mut self, item: i64) -> (r: bool)
        requires
            old(self).wf(),
        ensures
            final(self).wf(),
            final(self)@ == old(self)@.insert(item),
            r == !old(self)@.contains(item),
            r ==> final(self).items.len() == old(self).items.len() + 1,
            !r ==> *final(self) == *old(self),
    {
        let (found, place) = self.search(item);
        if found {
            proof {
                assert(self@.insert(item) =~= self@);
            }
            return false;
        }
        let ghost all = self.items@;
        self.items.insert(place, item);
        proof {
            let after = all.insert(place as int, item);
            assert(self.items@ == after);
            assert forall|k: i64| all.to_set().insert(item).contains(k) implies after.contains(k) by {
                if k == item {
                    assert(after[place as int] == k);
                } else {
                    let j = all.index_of(k);
                    assert(all[j] == k);
                    assert(after[if j < place { j } else { j + 1 }] == k);
                }
            }
            assert forall|k: i64| after.contains(k) implies all.to_set().insert(item).contains(k) by {
                let j = after.index_of(k);
                assert(after[j] == k);
                if j < place {
                    assert(all[j] == k);
                } else if j > place {
                    assert(all[j - 1] == k);
                }
            }
            assert(self@ =~= all.to_set().insert(item));
        }
        true
    }

    /// Takes out a number. Returns whether it was there.
    pub fn remove(&mut self, item: i64) -> (r: bool)
        requires
            old(self).wf(),
        ensures
            final(self).wf(),
            final(self)@ == old(self)@.remove(item),
            r == old(self)@.contains(item),
    {
        let (found, place) = self.search(item);
        if !found {
            proof {
                assert(self@.remove(item) =~= self@);
            }
            return false;
        }
        let ghost all = self.items@;
        self.items.remove(place);
        proof {
            let after = all.remove(place as int);
            assert(self.items@ == after);
            assert forall|k: i64| all.to_set().remove(item).contains(k) implies after.contains(k) by {
                let j = all.index_of(k);
                assert(all[j] == k && j != place);
                assert(after[if j < place { j } else { j - 1 }] == k);
            }
            assert forall|k: i64| after.contains(k) implies all.to_set().remove(item).contains(k) by {
                let j = after.index_of(k);
                assert(after[j] == k);
                let j1 = if j < place { j } else { j + 1 };
                assert(all[j1] == k);
            }
            assert(self@ =~= all.to_set().remove(item));
        }
        true
    }
}

/// A set has the numbers that it keeps and no others, and keeps them in
/// ascending order if it is valid.
pub proof fn intset_reads(set: IntSet, n: i64)
    ensures
        set@.contains(n) <==> exists|i: int| 0 <= i < set.items.len() && #[trigger] set.items@[i] == n,
        set.wf() <==> forall|i: int, j: int| 0 <= i < j < set.items.len() ==> #[trigger] set.items@[i] < #[trigger] set.items@[j],
{
}

/// The texts of numbers come in the order of these, as many as there are.
pub proof fn number_texts_elements(items: Seq<i64>, i: int)
    requires
        0 <= i < items.len(),
    ensures
        number_texts(items).len() == items.len(),
        number_texts(items)[i] == decimal_text(items[i] as int),
{
}

} // verus!
