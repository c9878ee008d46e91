//! A set of byte strings, kept as a sorted vector.

use vstd::prelude::*;

use crate::assoc::texts;
use crate::lex::{compare, copy, lex_less, lex_less_irreflexive, lex_less_transitive, Order};

verus! {

/// A set of byte strings. The items stand in lexicographic order, each once.
#[derive(PartialEq, Debug)]
pub struct ByteSet {
    pub items: Vec<Vec<u8>>,
}

/// Whether the byte strings stand in strictly ascending order.
pub open spec fn ascending(items: Seq<Seq<u8>>) -> bool {
    forall|i: int, j: int| 0 <= i < j < items.len() ==> lex_less(#[trigger] items[i], #[trigger] items[j])
}

/// Byte strings in strictly ascending order are all different.
pub proof fn lemma_ascending_distinct(items: Seq<Seq<u8>>)
    requires
        ascending(items),
    ensures
        items.no_duplicates(),
{
    assert forall|i: int, j: int| 0 <= i < items.len() && 0 <= j < items.len() && i != j implies items[i]
        != items[j] by {
        lex_less_irreflexive(items[i]);
        if i < j {
            assert(lex_less(items[i], items[j]));
        } else {
            assert(lex_less(items[j], items[i]));
        }
    }
}

/// A byte string that comes after all before a place and before all from it on
/// is not among them, and put in there leaves them in order.
pub proof fn lemma_ascending_insert(items: Seq<Seq<u8>>, place: int, item: Seq<u8>)
    requires
        ascending(items),
        0 <= place <= items.len(),
        forall|i: int| 0 <= i < place ==> lex_less(#[trigger] items[i], item),
        forall|i: int| place <= i < items.len() ==> lex_less(item, #[trigger] items[i]),
    ensures
        !items.contains(item),
        ascending(items.insert(place, item)),
{
    lex_less_irreflexive(item);
    if items.contains(item) {
        let i = items.index_of(item);
        assert(items[i] == item);
    }
    let after = items.insert(place, item);
    assert forall|i: int, j: int| 0 <= i < j < after.len() implies lex_less(#[trigger] after[i], #[trigger] after[j]) by {
        let i1 = if i < place { i } else { i - 1 };
        let j1 = if j < place { j } else { j - 1 };
        if i != place {
            assert(after[i] == items[i1]);
        }
        if j != place {
            assert(after[j] == items[j1]);
        }
    }
}

/// Byte strings in order stay so when one is taken out.
pub proof fn lemma_ascending_remove(items: Seq<Seq<u8>>, place: int)
    requires
        ascending(items),
        0 <= place < items.len(),
    ensures
        ascending(items.remove(place)),
{
    let after = items.remove(place);
    assert forall|i: int, j: int| 0 <= i < j < after.len() implies lex_less(#[trigger] after[i], #[trigger] after[j]) by {
        let i1 = if i < place { i } else { i + 1 };
        let j1 = if j < place { j } else { j + 1 };
        assert(after[i] == items[i1]);
        assert(after[j] == items[j1]);
    }
}

impl View for ByteSet {
    type V = Set<Seq<u8>>;

    open spec fn view(&self) -> Set<Seq<u8>> {
        texts(self.items@).to_set()
    }
}

impl ByteSet {
    /// The items stand in strictly ascending order.
    pub open spec fn wf(&self) -> bool {
        ascending(texts(self.items@))
    }

    /// The set with no item.
    pub fn new() -> (r: ByteSet)
        ensures
            r.wf(),
            r.items@.len() == 0,
            r@ == Set::<Seq<u8>>::empty(),
    {
        let r = ByteSet { items: Vec::new() };
        proof {
            assert(r@ =~= Set::<Seq<u8>>::empty());
        }
        r
    }

    /// The set of the given items, of which any may be given more than once.
    pub fn from_vec(items: Vec<Vec<u8>>) -> (r: ByteSet)
        ensures
            r.wf(),
            r@ == texts(items@).to_set(),
    {
        let mut r = ByteSet::new();
        let mut i: usize = 0;
        proof {
            assert(texts(items@).take(0).to_set() =~= Set::<Seq<u8>>::empty());
        }
        while i < items.len()
            invariant
                i <= items.len(),
                r.wf(),
                r@ == texts(items@).take(i as int).to_set(),
            decreases items.len() - i,
        {
            r.insert(copy(&items[i]));
            proof {
                let before = texts(items@).take(i as int);
                let after = texts(items@).take(i + 1);
                assert(after =~= before.push(items@[i as int]@));
                assert forall|k: Seq<u8>| after.contains(k) implies before.to_set().insert(items@[i as int]@).contains(k) by {
                    let j = after.index_of(k);
                    assert(after[j] == k);
                    if j < i {
                        assert(before[j] == k);
                    }
                }
                assert forall|k: Seq<u8>| before.to_set().insert(items@[i as int]@).contains(k) implies after.contains(k) by {
                    if k == items@[i as int]@ {
                        assert(after[i as int] == k);
                    } else {
                        let j = before.index_of(k);
                        assert(before[j] == k);
                        assert(after[j] == k);
                    }
                }
                assert(after.to_set() =~= before.to_set().insert(items@[i as int]@));
            }
            i += 1;
        }
        proof {
            assert(texts(items@).take(i as int) =~= texts(items@));
        }
        r
    }

    /// Where an item stands, or where it would be put in.
    pub fn search(&self, item: &Vec<u8>) -> (r: (bool, usize))
        requires
            self.wf(),
        ensures
            r.0 == self@.contains(item@),
            r.0 ==> r.1 < self.items.len() && texts(self.items@)[r.1 as int] == item@,
            !r.0 ==> r.1 <= self.items.len()
                && (forall|i: int| 0 <= i < r.1 ==> lex_less(#[trigger] texts(self.items@)[i], item@))
                && (forall|i: int|
                    r.1 <= i < self.items.len() ==> lex_less(item@, #[trigger] texts(self.items@)[i])),
    {
        let mut low: usize = 0;
        let mut high: usize = self.items.len();
        let ghost all = texts(self.items@);
        while low < high
            invariant
                self.wf(),
                all == texts(self.items@),
                low <= high <= self.items.len(),
                forall|i: int| 0 <= i < low ==> lex_less(#[trigger] all[i], item@),
                forall|i: int| high <= i < all.len() ==> lex_less(item@, #[trigger] all[i]),
            decreases high - low,
        {
            let middle: usize = low + (high - low) / 2;
            match compare(&self.items[middle], item) {
                Order::Less => {
                    proof {
                        assert forall|i: int| 0 <= i <= middle implies lex_less(#[trigger] all[i], item@) by {
                            if i < middle {
                                lex_less_transitive(all[i], all[middle as int], item@);
                            }
                        }
                    }
                    low = middle + 1;
                },
                Order::Equal => {
                    proof {
                        assert(all[middle as int] == item@);
                        assert(all.contains(item@));
                    }
                    return (true, middle);
                },
                Order::Greater => {
                    proof {
                        assert forall|i: int| middle <= i < all.len() implies lex_less(item@, #[trigger] all[i]) by {
                            if middle < i {
                                lex_less_transitive(item@, all[middle as int], all[i]);
                            }
                        }
                    }
                    high = middle;
                },
            }
        }
        proof {
            lemma_ascending_insert(all, low as int, item@);
        }
        (false, low)
    }

    /// Whether the item is in the set.
    pub fn contains(&self, item: &Vec<u8>) -> (r: bool)
        requires
            self.wf(),
        ensures
            r == self@.contains(item@),
    {
        self.search(item).0
    }

    /// Adds an item. Returns whether it was not there before.
    pub fn insert(&mut self, item: Vec<u8>) -> (r: bool)
        requires
            old(self).wf(),
        ensures
            final(self).wf(),
            final(self)@ == old(self)@.insert(item@),
            r == !old(self)@.contains(item@),
    {
        let (found, place) = self.search(&item);
        if found {
            proof {
                assert(self@.insert(item@) =~= self@);
            }
            return false;
        }
        let ghost all = texts(self.items@);
        let ghost text = item@;
        self.items.insert(place, item);
        proof {
            lemma_ascending_insert(all, place as int, text);
            let after = all.insert(place as int, text);
            assert(texts(self.items@) =~= after);
            assert forall|k: Seq<u8>| all.to_set().insert(text).contains(k) implies after.contains(k) by {
                if k == text {
                    assert(after[place as int] == k);
                } else {
                    let j = all.index_of(k);
                    assert(all[j] == k);
                    assert(after[if j < place { j } else { j + 1 }] == k);
                }
            }
            assert forall|k: Seq<u8>| after.contains(k) implies all.to_set().insert(text).contains(k) by {
                let j = after.index_of(k);
                assert(after[j] == k);
                if j < place {
                    assert(all[j] == k);
                } else if j > place {
                    assert(all[j - 1] == k);
                }
            }
            assert(self@ =~= all.to_set().insert(text));
        }
        true
    }

    /// Takes out an item. Returns whether it was there.
    pub fn remove(&mut self, item: &Vec<u8>) -> (r: bool)
        requires
            old(self).wf(),
        ensures
            final(self).wf(),
            final(self)@ == old(self)@.remove(item@),
            r == old(self)@.contains(item@),
    {
        let (found, place) = self.search(item);
        if !found {
            proof {
                assert(self@.remove(item@) =~= self@);
            }
            return false;
        }
        let ghost all = texts(self.items@);
        self.items.remove(place);
        proof {
            lemma_ascending_remove(all, place as int);
            lemma_ascending_distinct(all);
            let after = all.remove(place as int);
            assert(texts(self.items@) =~= after);
            assert forall|k: Seq<u8>| all.to_set().remove(item@).contains(k) implies after.contains(k) by {
                let j = all.index_of(k);
                assert(all[j] == k && j != place);
                assert(after[if j < place { j } else { j - 1 }] == k);
            }
            assert forall|k: Seq<u8>| after.contains(k) implies all.to_set().remove(item@).contains(k) by {
                let j = after.index_of(k);
                assert(after[j] == k);
                let j1 = if j < place { j } else { j + 1 };
                assert(all[j1] == k);
            }
            assert(self@ =~= all.to_set().remove(item@));
        }
        true
    }

    /// The number of items.
    pub fn len(&self) -> (r: usize)
        requires
            self.wf(),
        ensures
            self@.finite(),
            r == self@.len(),
            r == self.items.len(),
    {
        proof {
            lemma_ascending_distinct(texts(self.items@));
            texts(self.items@).unique_seq_to_set();
        }
        self.items.len()
    }

    /// The items, in ascending order.
    pub fn to_vec(&self) -> (r: Vec<Vec<u8>>)
        requires
            self.wf(),
        ensures
            texts(r@) == texts(self.items@),
            ascending(texts(r@)),
            texts(r@).to_set() == self@,
            r.len() == self@.len(),
    {
        let mut r: Vec<Vec<u8>> = Vec::new();
        let mut i: usize = 0;
        while i < self.items.len()
            invariant
                i <= self.items.len(),
                r.len() == i,
                forall|j: int| 0 <= j < i ==> (#[trigger] r[j])@ == self.items[j]@,
            decreases self.items.len() - i,
        {
            r.push(copy(&self.items[i]));
            i += 1;
        }
        proof {
            assert(texts(r@) =~= texts(self.items@));
            lemma_ascending_distinct(texts(self.items@));
            texts(self.items@).unique_seq_to_set();
        }
        r
    }
}

/// A set that holds the same items in a valid form is the same set: the items
/// alone decide the order in which they stand.
pub proof fn byteset_canonical(a: ByteSet, b: ByteSet)
    requires
        a.wf(),
        b.wf(),
        a@ == b@,
    ensures
        texts(a.items@) == texts(b.items@),
{
    lemma_ascending_unique(texts(a.items@), texts(b.items@));
}

/// Byte strings in strictly ascending order are decided by which they are.
pub proof fn lemma_ascending_unique(a: Seq<Seq<u8>>, b: Seq<Seq<u8>>)
    requires
        ascending(a),
        ascending(b),
        a.to_set() == b.to_set(),
    ensures
        a == b,
    decreases a.len(),
{
    lemma_ascending_distinct(a);
    lemma_ascending_distinct(b);
    a.unique_seq_to_set();
    b.unique_seq_to_set();
    assert(a.len() == b.len());
    if a.len() == 0 {
        assert(a =~= b);
    } else {
        let last_a = a.last();
        let last_b = b.last();
        assert(a.contains(last_a) && b.contains(last_b));
        assert(b.to_set().contains(last_a) && a.to_set().contains(last_b));
        let i = b.index_of(last_a);
        let j = a.index_of(last_b);
        assert(b[i] == last_a && a[j] == last_b);
        if last_a != last_b {
            assert(lex_less(b[i], last_b));
            assert(lex_less(a[j], last_a));
            lex_less_transitive(last_a, last_b, last_a);
            lex_less_irreflexive(last_a);
        }
        let a1 = a.drop_last();
        let b1 = b.drop_last();
        assert forall|k: Seq<u8>| a1.to_set().contains(k) implies b1.to_set().contains(k) by {
            let n = a1.index_of(k);
            assert(a1[n] == k && a[n] == k);
            assert(a.to_set().contains(k));
            let m = b.index_of(k);
            assert(b[m] == k);
            assert(b1[m] == k);
        }
        assert forall|k: Seq<u8>| b1.to_set().contains(k) implies a1.to_set().contains(k) by {
            let n = b1.index_of(k);
            assert(b1[n] == k && b[n] == k);
            assert(b.to_set().contains(k));
            let m = a.index_of(k);
            assert(a[m] == k);
            assert(a1[m] == k);
        }
        assert(a1.to_set() =~= b1.to_set());
        lemma_ascending_unique(a1, b1);
        assert(a =~= a1.push(last_a));
        assert(b =~= b1.push(last_b));
    }
}

/// A set has the byte strings that it keeps and no others, and keeps them in
/// ascending order if it is valid.
pub proof fn byteset_reads(set: ByteSet, k: Seq<u8>)
    ensures
        set@.contains(k) <==> exists|i: int| 0 <= i < set.items.len() && (#[trigger] set.items@[i])@ == k,
        set.wf() <==> forall|i: int, j: int|
            0 <= i < j < set.items.len() ==> lex_less((#[trigger] set.items@[i])@, (#[trigger] set.items@[j])@),
{
    let all = texts(set.items@);
    if all.contains(k) {
        let i = all.index_of(k);
        assert(all[i] == set.items@[i]@);
    }
    if exists|i: int| 0 <= i < set.items.len() && (#[trigger] set.items@[i])@ == k {
        let i = choose|i: int| 0 <= i < set.items.len() && (#[trigger] set.items@[i])@ == k;
        assert(all[i] == k);
    }
    if set.wf() {
        assert forall|i: int, j: int| 0 <= i < j < set.items.len() implies lex_less((#[trigger] set.items@[i])@, (#[trigger] set.items@[j])@) by {
            assert(lex_less(all[i], all[j]));
        }
    }
    if forall|i: int, j: int| 0 <= i < j < set.items.len() ==> lex_less((#[trigger] set.items@[i])@, (#[trigger] set.items@[j])@) {
        assert forall|i: int, j: int| 0 <= i < j < all.len() implies lex_less(#[trigger] all[i], #[trigger] all[j]) by {
            assert(lex_less(set.items@[i]@, set.items@[j]@));
        }
    }
}

} // verus!
