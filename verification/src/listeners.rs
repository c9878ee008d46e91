//! Those who listen to something, each known by a number.

use std::sync::mpsc::Sender;
use vstd::prelude::*;

use crate::adapters::channel::send;
use crate::assoc::{assoc, lemma_assoc_at, lemma_assoc_insert, lemma_assoc_remove, paired};

verus! {

/// Listeners. The number of each stands in `ids` where its sender stands in
/// `senders`, in ascending order. They are not kept in a hash map, which each
/// process walks in an order of its own: here those who listened first are
/// reached first, and numbers only ever grow, so that a new one goes to the end.
#[verifier::reject_recursive_types(T)]
pub struct Listeners<T> {
    pub ids: Vec<usize>,
    pub senders: Vec<Sender<T>>,
}

/// Whether the numbers stand in strictly ascending order.
pub open spec fn climbing(ids: Seq<usize>) -> bool {
    forall|i: int, j: int| 0 <= i < j < ids.len() ==> #[trigger] ids[i] < #[trigger] ids[j]
}

/// The numbers from a place on whose outcome is not good.
pub open spec fn failed(ids: Seq<usize>, outcomes: Seq<bool>, from: int) -> Set<usize> {
    Set::new(|id: usize| exists|i: int| from <= i < ids.len() && #[trigger] ids[i] == id && !outcomes[i])
}

impl<T> View for Listeners<T> {
    type V = Map<usize, Sender<T>>;

    open spec fn view(&self) -> Map<usize, Sender<T>> {
        assoc(self.ids@, self.senders@)
    }
}

impl<T> Listeners<T> {
    /// The numbers ascend, and there is a sender for each.
    pub open spec fn wf(&self) -> bool {
        &&& self.ids.len() == self.senders.len()
        &&& climbing(self.ids@)
    }

    /// Whether all numbers are below another.
    pub open spec fn below(&self, id: usize) -> bool {
        forall|k: usize| #[trigger] self@.contains_key(k) ==> k < id
    }

    /// What valid listeners know of themselves.
    pub proof fn lemma_wf(&self)
        requires
            self.wf(),
        ensures
            paired(self.ids@, self.senders@),
            forall|i: int|
                0 <= i < self.ids.len() ==> self@.contains_key(#[trigger] self.ids@[i]) && self@[self.ids@[i]] == self.senders@[i],
    {
        assert forall|i: int| 0 <= i < self.ids.len() implies self@.contains_key(#[trigger] self.ids@[i])
            && self@[self.ids@[i]] == self.senders@[i] by {
            lemma_assoc_at(self.ids@, self.senders@, i);
        }
    }

    /// A sender is one of the senders if it is the sender of some listener.
    pub proof fn lemma_senders(&self, sender: Sender<T>)
        requires
            self.wf(),
        ensures
            self.senders@.contains(sender) == self@.contains_value(sender),
    {
        self.lemma_wf();
        if self.senders@.contains(sender) {
            let i = self.senders@.index_of(sender);
            assert(self@.contains_key(self.ids@[i]) && self@[self.ids@[i]] == sender);
        }
        if self@.contains_value(sender) {
            let id = choose|id: usize| #[trigger] self@.contains_key(id) && self@[id] == sender;
            let i = self.ids@.index_of(id);
            assert(self.ids@[i] == id);
            assert(self.senders@[i] == sender);
        }
    }

    /// No listeners.
    pub fn new() -> (r: Listeners<T>)
        ensures
            r.wf(),
            r@ == Map::<usize, Sender<T>>::empty(),
    {
        let r = Listeners { ids: Vec::new(), senders: Vec::new() };
        proof {
            assert(r@ =~= Map::<usize, Sender<T>>::empty());
        }
        r
    }

    /// Adds a listener whose number is above all others.
    pub fn insert(&mut self, id: usize, sender: Sender<T>)
        requires
            old(self).wf(),
            old(self).below(id),
        ensures
            final(self).wf(),
            final(self)@ == old(self)@.insert(id, sender),
    {
        let ghost ids = self.ids@;
        let ghost senders = self.senders@;
        proof {
            self.lemma_wf();
            assert forall|i: int| 0 <= i < ids.len() implies ids[i] < id by {
                assert(self@.contains_key(ids[i]));
            }
        }
        self.ids.push(id);
        self.senders.push(sender);
        proof {
            lemma_assoc_insert(ids, senders, ids.len() as int, id, sender);
            assert(self.ids@ =~= ids.insert(ids.len() as int, id));
            assert(self.senders@ =~= senders.insert(ids.len() as int, sender));
        }
    }

    /// Takes out the listener at a place.
    fn remove_at(&mut self, place: usize)
        requires
            old(self).wf(),
            place < old(self).ids.len(),
        ensures
            final(self).wf(),
            final(self).ids@ == old(self).ids@.remove(place as int),
            final(self)@ == old(self)@.remove(old(self).ids@[place as int]),
    {
        let ghost ids = self.ids@;
        proof {
            self.lemma_wf();
            lemma_assoc_remove(self.ids@, self.senders@, place as int);
        }
        self.ids.remove(place);
        self.senders.remove(place);
        proof {
            assert forall|i: int, j: int| 0 <= i < j < self.ids@.len() implies #[trigger] self.ids@[i] < #[trigger] self.ids@[j] by {
                assert(self.ids@[i] == ids[if i < place { i } else { i + 1 }]);
                assert(self.ids@[j] == ids[if j < place { j } else { j + 1 }]);
            }
        }
    }

    /// Takes out a listener. Returns whether it was there.
    pub fn remove(&mut self, id: usize) -> (r: bool)
        requires
            old(self).wf(),
        ensures
            final(self).wf(),
            final(self)@ == old(self)@.remove(id),
            r == old(self)@.contains_key(id),
    {
        proof {
            self.lemma_wf();
        }
        let mut i: usize = 0;
        while i < self.ids.len()
            invariant
                self.wf(),
                *self == *old(self),
                i <= self.ids.len(),
                forall|k: int|
                    0 <= k < self.ids.len() ==> self@.contains_key(#[trigger] self.ids@[k]) && self@[self.ids@[k]]
                        == self.senders@[k],
                forall|j: int| 0 <= j < i ==> #[trigger] self.ids@[j] != id,
            decreases self.ids.len() - i,
        {
            if self.ids[i] == id {
                self.remove_at(i);
                return true;
            }
            i += 1;
        }
        proof {
            assert(!self.ids@.contains(id));
            assert(self@.remove(id) =~= self@);
        }
        false
    }

    /// Takes out the listeners whose outcome is not good.
    pub fn keep(&mut self, outcomes: &Vec<bool>)
        requires
            old(self).wf(),
            outcomes.len() == old(self).ids.len(),
        ensures
            final(self).wf(),
            final(self)@ == old(self)@.remove_keys(failed(old(self).ids@, outcomes@, 0)),
    {
        let ghost before = self@;
        let ghost ids = self.ids@;
        let mut i: usize = self.ids.len();
        proof {
            assert(self@ =~= before.remove_keys(failed(ids, outcomes@, i as int)));
        }
        while i > 0
            invariant
                self.wf(),
                i <= self.ids.len(),
                i <= ids.len() == outcomes.len(),
                self.ids@.take(i as int) == ids.take(i as int),
                self@ == before.remove_keys(failed(ids, outcomes@, i as int)),
            decreases i,
        {
            i -= 1;
            proof {
                assert(self.ids@.take(i + 1)[i as int] == ids.take(i + 1)[i as int]);
            }
            if !outcomes[i] {
                let ghost held = self.ids@;
                self.remove_at(i);
                proof {
                    assert forall|j: int| 0 <= j < i implies self.ids@[j] == ids[j] by {
                        assert(held.take(i + 1)[j] == ids.take(i + 1)[j]);
                    }
                    assert(self.ids@.take(i as int) =~= ids.take(i as int));
                }
            } else {
                proof {
                    assert forall|j: int| 0 <= j < i implies self.ids@[j] == ids[j] by {
                        assert(self.ids@.take(i + 1)[j] == ids.take(i + 1)[j]);
                    }
                    assert(self.ids@.take(i as int) =~= ids.take(i as int));
                }
            }
            proof {
                let more = failed(ids, outcomes@, i as int);
                let fewer = failed(ids, outcomes@, i + 1);
                assert forall|id: usize| more.contains(id) implies fewer.contains(id) || (!outcomes@[i as int] && id == ids[i as int]) by {
                    let k = choose|k: int| i <= k < ids.len() && #[trigger] ids[k] == id && !outcomes@[k];
                    if k > i {
                        assert(fewer.contains(id));
                    }
                }
                assert forall|id: usize| fewer.contains(id) implies more.contains(id) by {
                    let k = choose|k: int| i + 1 <= k < ids.len() && #[trigger] ids[k] == id && !outcomes@[k];
                    assert(ids[k] == id);
                }
                if !outcomes@[i as int] {
                    assert(more.contains(ids[i as int]));
                }
                assert(self@ =~= before.remove_keys(more));
            }
        }
    }
}

impl Listeners<bool> {
    /// Sends a flag to every listener. Returns the outcome for each.
    pub fn notify(&self, flag: bool) -> (r: Vec<bool>)
        requires
            self.wf(),
        ensures
            r.len() == self.ids.len(),
            forall|i: int| 0 <= i < r.len() ==> call_ensures(send::<bool>, (&self.senders@[i], flag), #[trigger] r@[i]),
    {
        let mut r: Vec<bool> = Vec::new();
        let mut i: usize = 0;
        while i < self.senders.len()
            invariant
                self.wf(),
                i <= self.senders.len(),
                r.len() == i,
                forall|j: int| 0 <= j < i ==> call_ensures(send::<bool>, (&self.senders@[j], flag), #[trigger] r@[j]),
            decreases self.senders.len() - i,
        {
            r.push(send(&self.senders[i], flag));
            i += 1;
        }
        r
    }
}

/// Valid listeners have each number once, in ascending order, each with the
/// sender at its place, and no other number.
pub proof fn listeners_read<T>(l: Listeners<T>, id: usize)
    requires
        l.wf(),
    ensures
        l@.contains_key(id) <==> exists|i: int| 0 <= i < l.ids.len() && #[trigger] l.ids@[i] == id,
        l.ids.len() == l.senders.len(),
        forall|i: int| 0 <= i < l.ids.len() ==> l@.contains_key(#[trigger] l.ids@[i]) && l@[l.ids@[i]] == l.senders@[i],
        forall|i: int, j: int| 0 <= i < j < l.ids.len() ==> #[trigger] l.ids@[i] < #[trigger] l.ids@[j],
        l.below(id) <==> forall|i: int| 0 <= i < l.ids.len() ==> #[trigger] l.ids@[i] < id,
{
    l.lemma_wf();
    if l@.contains_key(id) {
        let i = l.ids@.index_of(id);
        assert(l.ids@[i] == id);
    }
    if l.below(id) {
        assert forall|i: int| 0 <= i < l.ids.len() implies #[trigger] l.ids@[i] < id by {
            assert(l@.contains_key(l.ids@[i]));
        }
    }
    if forall|i: int| 0 <= i < l.ids.len() ==> #[trigger] l.ids@[i] < id {
        assert forall|k: usize| #[trigger] l@.contains_key(k) implies k < id by {
            let i = l.ids@.index_of(k);
            assert(l.ids@[i] == k);
        }
    }
}

/// One more outcome adds its number to those that failed if it is not good, and
/// else none.
pub proof fn one_more_outcome(ids: Seq<usize>, outcomes: Seq<bool>, id: usize, good: bool)
    requires
        ids.len() == outcomes.len(),
    ensures
        failed(Seq::empty(), Seq::empty(), 0) == Set::<usize>::empty(),
        failed(ids.push(id), outcomes.push(good), 0) == if good {
            failed(ids, outcomes, 0)
        } else {
            failed(ids, outcomes, 0).insert(id)
        },
{
    assert(failed(Seq::empty(), Seq::empty(), 0) =~= Set::<usize>::empty());
    let a = failed(ids, outcomes, 0);
    let b = failed(ids.push(id), outcomes.push(good), 0);
    let n = ids.len() as int;
    assert forall|k: usize| a.contains(k) implies b.contains(k) by {
        let i = choose|i: int| 0 <= i < n && #[trigger] ids[i] == k && !outcomes[i];
        assert(ids.push(id)[i] == k && !outcomes.push(good)[i]);
    }
    assert forall|k: usize| b.contains(k) implies a.contains(k) || (!good && k == id) by {
        let i = choose|i: int| 0 <= i < n + 1 && #[trigger] ids.push(id)[i] == k && !outcomes.push(good)[i];
        if i < n {
            assert(ids[i] == k && !outcomes[i]);
        }
    }
    if !good {
        assert(ids.push(id)[n] == id && !outcomes.push(good)[n]);
        assert(b =~= a.insert(id));
    } else {
        assert(b =~= a);
    }
}

} // verus!
