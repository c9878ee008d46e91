//! Sets of byte strings, of which those that hold texts of numbers only can be
//! kept as sets of numbers.

use vstd::prelude::*;

use crate::assoc::texts;
use crate::byteset::{lemma_ascending_distinct, ByteSet};
use crate::draw::{chosen_at_random, draw, drawable, drawn, drawn_at_random, drawn_distinct, pick, picked, picked_at_random, random_draws, random_indexes};
use crate::error::OperationError;
use crate::intset::{lemma_number_texts_contains, lemma_number_texts_distinct, number_texts, IntSet};
use crate::lex::copy;
use crate::number::{decimal_text, decimal_text_numeric, decimal_text_shortest, number_of_text, numeric, to_text};
use crate::rdb::{intset_bytes, intset_code, length_code, length_fits, push_slice, push_slices, push_version, slice_code, slices_code, slices_fit, versioned, TYPE_SET, TYPE_SET_INTSET};

verus! {

/// A set: of numbers that stand for their decimal texts, or of byte strings.
#[derive(PartialEq, Debug)]
pub enum ValueSet {
    Integer(IntSet),
    Data(ByteSet),
}

/// Whether bytes are the text that stands for a number.
pub open spec fn is_number_text(s: Seq<u8>) -> bool {
    exists|n: i64| #[trigger] decimal_text(n as int) == s
}

/// What is in a set and in none of the others.
pub open spec fn difference_of(first: Set<Seq<u8>>, others: Seq<Set<Seq<u8>>>) -> Set<Seq<u8>> {
    Set::new(|k: Seq<u8>| first.contains(k) && forall|i: int| 0 <= i < others.len() ==> !(#[trigger] others[i]).contains(k))
}

/// What is in a set and in all of the others.
pub open spec fn intersection_of(first: Set<Seq<u8>>, others: Seq<Set<Seq<u8>>>) -> Set<Seq<u8>> {
    Set::new(|k: Seq<u8>| first.contains(k) && forall|i: int| 0 <= i < others.len() ==> (#[trigger] others[i]).contains(k))
}

/// What is in a set or in any of the others.
pub open spec fn union_of(first: Set<Seq<u8>>, others: Seq<Set<Seq<u8>>>) -> Set<Seq<u8>> {
    Set::new(|k: Seq<u8>| first.contains(k) || exists|i: int| 0 <= i < others.len() && (#[trigger] others[i]).contains(k))
}

/// The members of each of several sets.
pub open spec fn contents(sets: Seq<&ValueSet>) -> Seq<Set<Seq<u8>>> {
    Seq::new(sets.len(), |i: int| sets[i]@)
}

/// Taking the members of a set apart by other sets loses none: each is in the
/// difference, or in one of the others.
pub proof fn difference_covers(first: Set<Seq<u8>>, others: Seq<Set<Seq<u8>>>)
    ensures
        union_of(difference_of(first, others), others) == union_of(first, others),
{
    let d = difference_of(first, others);
    assert forall|k: Seq<u8>| union_of(first, others).contains(k) implies union_of(d, others).contains(k) by {
        if !d.contains(k) && first.contains(k) {
            let i = choose|i: int| 0 <= i < others.len() && (#[trigger] others[i]).contains(k);
            assert(others[i].contains(k));
        }
    }
    assert(union_of(d, others) =~= union_of(first, others));
}

/// The difference shares no member with any of the other sets.
pub proof fn difference_disjoint(first: Set<Seq<u8>>, others: Seq<Set<Seq<u8>>>, i: int)
    requires
        0 <= i < others.len(),
    ensures
        difference_of(first, others).disjoint(others[i]),
        difference_of(first, others).subset_of(first),
{
    assert forall|k: Seq<u8>| difference_of(first, others).contains(k) implies !others[i].contains(k) by {
        assert(!others[i].contains(k));
    }
}

/// The intersection is part of each of the sets, and each of them of the union.
pub proof fn intersection_within_union(first: Set<Seq<u8>>, others: Seq<Set<Seq<u8>>>, i: int)
    requires
        0 <= i < others.len(),
    ensures
        intersection_of(first, others).subset_of(first),
        intersection_of(first, others).subset_of(others[i]),
        first.subset_of(union_of(first, others)),
        others[i].subset_of(union_of(first, others)),
{
    assert forall|k: Seq<u8>| intersection_of(first, others).contains(k) implies others[i].contains(k) by {
        assert(others[i].contains(k));
    }
    assert forall|k: Seq<u8>| others[i].contains(k) implies union_of(first, others).contains(k) by {
        assert(others[i].contains(k));
    }
}

/// With no other set the difference, the intersection and the union are the
/// set itself.
pub proof fn alone(first: Set<Seq<u8>>)
    ensures
        difference_of(first, Seq::empty()) == first,
        intersection_of(first, Seq::empty()) == first,
        union_of(first, Seq::empty()) == first,
{
    assert(difference_of(first, Seq::empty()) =~= first);
    assert(intersection_of(first, Seq::empty()) =~= first);
    assert(union_of(first, Seq::empty()) =~= first);
}

/// Adding a number to a set of numbers adds its text to the texts.
pub proof fn lemma_texts_insert(a: Seq<i64>, b: Seq<i64>, n: i64)
    requires
        b.to_set() == a.to_set().insert(n),
    ensures
        number_texts(b).to_set() == number_texts(a).to_set().insert(decimal_text(n as int)),
{
    let after = number_texts(a).to_set().insert(decimal_text(n as int));
    assert forall|k: Seq<u8>| number_texts(b).contains(k) implies after.contains(k) by {
        let i = number_texts(b).index_of(k);
        assert(number_texts(b)[i] == k);
        assert(b.contains(b[i]));
        assert(a.to_set().insert(n).contains(b[i]));
        lemma_number_texts_contains(a, b[i]);
    }
    assert forall|k: Seq<u8>| after.contains(k) implies number_texts(b).contains(k) by {
        if k == decimal_text(n as int) {
            assert(b.to_set().contains(n));
            lemma_number_texts_contains(b, n);
        } else {
            let i = number_texts(a).index_of(k);
            assert(number_texts(a)[i] == k);
            assert(a.contains(a[i]));
            assert(b.to_set().contains(a[i]));
            lemma_number_texts_contains(b, a[i]);
        }
    }
    assert(number_texts(b).to_set() =~= after);
}

/// Taking a number out of a set of numbers takes its text out of the texts.
pub proof fn lemma_texts_remove(a: Seq<i64>, b: Seq<i64>, n: i64)
    requires
        b.to_set() == a.to_set().remove(n),
    ensures
        number_texts(b).to_set() == number_texts(a).to_set().remove(decimal_text(n as int)),
{
    let after = number_texts(a).to_set().remove(decimal_text(n as int));
    assert forall|k: Seq<u8>| number_texts(b).contains(k) implies after.contains(k) by {
        let i = number_texts(b).index_of(k);
        assert(number_texts(b)[i] == k);
        assert(b.contains(b[i]));
        assert(a.to_set().remove(n).contains(b[i]));
        lemma_number_texts_contains(a, b[i]);
        if k == decimal_text(n as int) {
            crate::number::decimal_text_injective(b[i] as int, n as int);
        }
    }
    assert forall|k: Seq<u8>| after.contains(k) implies number_texts(b).contains(k) by {
        let i = number_texts(a).index_of(k);
        assert(number_texts(a)[i] == k);
        assert(a.contains(a[i]));
        assert(a[i] != n);
        assert(b.to_set().contains(a[i]));
        lemma_number_texts_contains(b, a[i]);
    }
    assert(number_texts(b).to_set() =~= after);
}

impl View for ValueSet {
    type V = Set<Seq<u8>>;

    open spec fn view(&self) -> Set<Seq<u8>> {
        self.members().to_set()
    }
}

impl ValueSet {
    /// The members, in the order in which they are kept.
    pub open spec fn members(&self) -> Seq<Seq<u8>> {
        match self {
            ValueSet::Integer(set) => number_texts(set.items@),
            ValueSet::Data(set) => texts(set.items@),
        }
    }

    /// The inner set is valid.
    pub open spec fn wf(&self) -> bool {
        match self {
            ValueSet::Integer(set) => set.wf(),
            ValueSet::Data(set) => set.wf(),
        }
    }

    /// The serialized set. There is none if a length cannot be written.
    pub open spec fn serialized(&self) -> Option<Seq<u8>> {
        match self {
            ValueSet::Integer(set) => if length_fits(intset_code(set.items@).len()) {
                Some(versioned(seq![TYPE_SET_INTSET] + slice_code(intset_code(set.items@))))
            } else {
                None
            },
            ValueSet::Data(set) => if slices_fit(texts(set.items@)) {
                Some(versioned(seq![TYPE_SET] + length_code(set.items@.len()) + slices_code(texts(set.items@))))
            } else {
                None
            },
        }
    }

    /// No member is kept twice.
    pub proof fn lemma_members(&self)
        requires
            self.wf(),
        ensures
            self.members().no_duplicates(),
            self@.finite(),
            self@.len() == self.members().len(),
    {
        match self {
            ValueSet::Integer(set) => lemma_number_texts_distinct(set.items@),
            ValueSet::Data(set) => lemma_ascending_distinct(texts(set.items@)),
        }
        self.members().unique_seq_to_set();
    }

    /// The set with no member.
    pub fn new() -> (r: ValueSet)
        ensures
            r.wf(),
            r@ == Set::<Seq<u8>>::empty(),
            r is Integer,
    {
        let r = ValueSet::Integer(IntSet::new());
        proof {
            assert(r@ =~= Set::<Seq<u8>>::empty());
        }
        r
    }

    /// The set of the given byte strings, kept as such.
    pub fn create_with_hashset(set: ByteSet) -> (r: ValueSet)
        ensures
            r == ValueSet::Data(set),
            r@ == set@,
    {
        ValueSet::Data(set)
    }

    /// Adds a member. A set of numbers stays one if the member is the text of a
    /// number and there are fewer numbers than the given limit. Returns whether
    /// the member was not there before.
    pub fn sadd(&mut self, el: Vec<u8>, set_max_intset_entries: usize) -> (r: bool)
        requires
            old(self).wf(),
        ensures
            final(self).wf(),
            final(self)@ == old(self)@.insert(el@),
            r == !old(self)@.contains(el@),
            *final(self) is Integer <==> {
                &&& *old(self) is Integer
                &&& is_number_text(el@)
                &&& old(self)@.contains(el@) || old(self)@.len() < set_max_intset_entries
            },
    {
        proof {
            self.lemma_members();
        }
        let ghost text = el@;
        let ghost before = self@;
        let widen: bool = match self {
            ValueSet::Integer(set) => match number_of_text(&el) {
                Some(n) => {
                    let ghost items = set.items@;
                    proof {
                        lemma_number_texts_contains(items, n);
                    }
                    let (found, _) = set.search(n);
                    if found {
                        proof {
                            assert(before.insert(text) =~= before);
                        }
                        return false;
                    }
                    if set.items.len() < set_max_intset_entries {
                        set.insert(n);
                        proof {
                            lemma_texts_insert(items, set.items@, n);
                        }
                        return true;
                    }
                    true
                },
                None => {
                    proof {
                        let all = number_texts(set.items@);
                        if all.contains(text) {
                            let i = all.index_of(text);
                            assert(all[i] == text);
                            assert(decimal_text(set.items@[i] as int) == text);
                        }
                    }
                    true
                },
            },
            ValueSet::Data(_) => false,
        };
        if widen {
            let all = self.to_byteset();
            *self = ValueSet::Data(all);
        }
        match self {
            ValueSet::Data(set) => set.insert(el),
            ValueSet::Integer(_) => vstd::pervasive::unreached(),
        }
    }

    /// The members as a set of byte strings.
    fn to_byteset(&self) -> (r: ByteSet)
        requires
            self.wf(),
        ensures
            r.wf(),
            r@ == self@,
    {
        ByteSet::from_vec(self.smembers())
    }

    /// Takes out a member. Returns whether it was there.
    pub fn srem(&mut self, el: &Vec<u8>) -> (r: bool)
        requires
            old(self).wf(),
        ensures
            final(self).wf(),
            final(self)@ == old(self)@.remove(el@),
            r == old(self)@.contains(el@),
            *final(self) is Integer <==> *old(self) is Integer,
    {
        let ghost before = self@;
        match self {
            ValueSet::Integer(set) => {
                let ghost items = set.items@;
                match number_of_text(el) {
                    Some(n) => {
                        let r: bool = set.remove(n);
                        proof {
                            lemma_number_texts_contains(items, n);
                            lemma_texts_remove(items, set.items@, n);
                        }
                        r
                    },
                    None => {
                        proof {
                            let all = number_texts(items);
                            if all.contains(el@) {
                                let i = all.index_of(el@);
                                assert(all[i] == el@);
                                assert(decimal_text(items[i] as int) == el@);
                            }
                            assert(before.remove(el@) =~= before);
                        }
                        false
                    },
                }
            },
            ValueSet::Data(set) => set.remove(el),
        }
    }

    /// Whether a byte string is a member.
    pub fn sismember(&self, el: &Vec<u8>) -> (r: bool)
        requires
            self.wf(),
        ensures
            r == self@.contains(el@),
    {
        match self {
            ValueSet::Integer(set) => match number_of_text(el) {
                Some(n) => {
                    proof {
                        lemma_number_texts_contains(set.items@, n);
                    }
                    set.search(n).0
                },
                None => {
                    proof {
                        let all = number_texts(set.items@);
                        if all.contains(el@) {
                            let i = all.index_of(el@);
                            assert(all[i] == el@);
                            assert(decimal_text(set.items@[i] as int) == el@);
                        }
                    }
                    false
                },
            },
            ValueSet::Data(set) => set.contains(el),
        }
    }

    /// The number of members.
    pub fn scard(&self) -> (r: usize)
        requires
            self.wf(),
        ensures
            self@.finite(),
            r == self@.len(),
            r == self.members().len(),
    {
        proof {
            self.lemma_members();
        }
        match self {
            ValueSet::Integer(set) => set.items.len(),
            ValueSet::Data(set) => set.items.len(),
        }
    }

    /// All members.
    pub fn smembers(&self) -> (r: Vec<Vec<u8>>)
        requires
            self.wf(),
        ensures
            texts(r@) == self.members(),
            texts(r@).no_duplicates(),
            texts(r@).to_set() == self@,
            r.len() == self@.len(),
    {
        proof {
            self.lemma_members();
        }
        match self {
            ValueSet::Integer(set) => {
                let mut r: Vec<Vec<u8>> = Vec::new();
                let mut i: usize = 0;
                while i < set.items.len()
                    invariant
                        i <= set.items.len(),
                        r.len() == i,
                        forall|j: int| 0 <= j < i ==> (#[trigger] r[j])@ == decimal_text(set.items[j] as int),
                    decreases set.items.len() - i,
                {
                    r.push(to_text(set.items[i]));
                    i += 1;
                }
                proof {
                    assert(texts(r@) =~= number_texts(set.items@));
                }
                r
            },
            ValueSet::Data(set) => set.to_vec(),
        }
    }

    /// The members at the given places, of which any may be given more than
    /// once.
    pub fn members_at(&self, draws: &Vec<usize>) -> (r: Vec<Vec<u8>>)
        requires
            self.wf(),
            forall|i: int| 0 <= i < draws.len() ==> #[trigger] draws[i] < self@.len(),
        ensures
            texts(r@) == picked(self.members(), draws@),
    {
        let all = self.smembers();
        pick(&all, draws)
    }

    /// The members that the given numbers choose, none twice.
    pub fn members_drawn(&self, draws: &Vec<usize>) -> (r: Vec<Vec<u8>>)
        requires
            self.wf(),
            drawable(draws@, self@.len()),
        ensures
            texts(r@) == drawn(self.members(), draws@),
    {
        let all = self.smembers();
        draw(all, draws)
    }

    /// Random members: as many as asked for if a member may come more than
    /// once, else up to as many as there are.
    pub fn srandmember(&self, count: usize, allow_duplicates: bool) -> (r: Vec<Vec<u8>>)
        requires
            self.wf(),
        ensures
            forall|i: int| 0 <= i < r.len() ==> self@.contains((#[trigger] r[i])@),
            allow_duplicates ==> r.len() == if self@.len() == 0 {
                0
            } else {
                count as nat
            },
            !allow_duplicates ==> texts(r@).no_duplicates() && r.len() == if count < self@.len() {
                count as nat
            } else {
                self@.len()
            },
            chosen_at_random(self.members(), allow_duplicates, texts(r@)),
    {
        let n: usize = self.scard();
        proof {
            self.lemma_members();
        }
        if allow_duplicates {
            if n == 0 {
                let none: Vec<Vec<u8>> = Vec::new();
                proof {
                    let draws = Seq::<usize>::empty();
                    assert(picked_at_random(draws, self.members().len()));
                    assert(texts(none@) =~= picked(self.members(), draws));
                }
                return none;
            }
            let draws = random_indexes(count, n);
            proof {
                assert forall|i: int| 0 <= i < draws.len() implies #[trigger] draws[i] < n by {
                    assert(draws@[i] < n);
                }
            }
            let r = self.members_at(&draws);
            proof {
                assert(picked_at_random(draws@, self.members().len()));
                assert(texts(r@).len() == r@.len());
                assert forall|i: int| 0 <= i < r.len() implies self@.contains((#[trigger] r[i])@) by {
                    assert(texts(r@)[i] == r[i]@);
                    assert(draws[i] < n);
                    assert(self.members().contains(self.members()[draws@[i] as int]));
                }
            }
            r
        } else {
            let draws = random_draws(count, n);
            let r = self.members_drawn(&draws);
            proof {
                assert(drawn_at_random(draws@, self.members().len()));
                drawn_distinct(self.members(), draws@);
                assert(texts(r@).len() == r@.len());
                assert forall|i: int| 0 <= i < r.len() implies self@.contains((#[trigger] r[i])@) by {
                    assert(texts(r@)[i] == r[i]@);
                    assert(self.members().contains(drawn(self.members(), draws@)[i]));
                }
            }
            r
        }
    }

    /// Takes out the members that the given numbers choose.
    pub fn remove_drawn(&mut self, draws: &Vec<usize>) -> (r: Vec<Vec<u8>>)
        requires
            old(self).wf(),
            drawable(draws@, old(self)@.len()),
        ensures
            final(self).wf(),
            texts(r@) == drawn(old(self).members(), draws@),
            final(self)@ == old(self)@.difference(texts(r@).to_set()),
            *final(self) is Integer <==> *old(self) is Integer,
    {
        let ghost before = *self;
        let r = self.members_drawn(draws);
        let mut i: usize = 0;
        proof {
            assert(self@ =~= before@.difference(texts(r@).take(0).to_set()));
        }
        while i < r.len()
            invariant
                i <= r.len(),
                self.wf(),
                self@ == before@.difference(texts(r@).take(i as int).to_set()),
                *self is Integer <==> before is Integer,
            decreases r.len() - i,
        {
            self.srem(&r[i]);
            proof {
                let shorter = texts(r@).take(i as int);
                let longer = texts(r@).take(i + 1);
                assert(longer =~= shorter.push(r@[i as int]@));
                assert forall|k: Seq<u8>| longer.contains(k) implies k == r@[i as int]@ || shorter.contains(k) by {
                    let j = longer.index_of(k);
                    assert(longer[j] == k);
                    if j < i {
                        assert(shorter[j] == k);
                    }
                }
                assert forall|k: Seq<u8>| k == r@[i as int]@ || shorter.contains(k) implies longer.contains(k) by {
                    if k == r@[i as int]@ {
                        assert(longer[i as int] == k);
                    } else {
                        let j = shorter.index_of(k);
                        assert(shorter[j] == k);
                        assert(longer[j] == k);
                    }
                }
                assert(self@ =~= before@.difference(longer.to_set()));
            }
            i += 1;
        }
        proof {
            assert(texts(r@).take(i as int) =~= texts(r@));
        }
        r
    }

    /// Takes out random members: as many as asked for, or all.
    pub fn spop(&mut self, count: usize) -> (r: Vec<Vec<u8>>)
        requires
            old(self).wf(),
        ensures
            final(self).wf(),
            forall|i: int| 0 <= i < r.len() ==> old(self)@.contains((#[trigger] r[i])@),
            texts(r@).no_duplicates(),
            r.len() == if count < old(self)@.len() {
                count as nat
            } else {
                old(self)@.len()
            },
            final(self)@ == old(self)@.difference(texts(r@).to_set()),
            *final(self) is Integer <==> *old(self) is Integer,
            chosen_at_random(old(self).members(), false, texts(r@)),
    {
        let n: usize = self.scard();
        let ghost members = self.members();
        proof {
            self.lemma_members();
        }
        let draws = random_draws(count, n);
        let r = self.remove_drawn(&draws);
        proof {
            assert(drawn_at_random(draws@, members.len()));
            drawn_distinct(members, draws@);
            assert(texts(r@).len() == r@.len());
            assert forall|i: int| 0 <= i < r.len() implies members.contains((#[trigger] r[i])@) by {
                assert(texts(r@)[i] == r[i]@);
                assert(members.contains(drawn(members, draws@)[i]));
            }
        }
        r
    }

    /// The members that are in none of the other sets.
    pub fn sdiff(&self, sets: Vec<&ValueSet>) -> (r: ByteSet)
        requires
            self.wf(),
            forall|i: int| 0 <= i < sets.len() ==> (#[trigger] sets[i]).wf(),
        ensures
            r.wf(),
            r@ == difference_of(self@, contents(sets@)),
    {
        self.select(&sets, false)
    }

    /// The members that are in all of the other sets.
    pub fn sinter(&self, sets: Vec<&ValueSet>) -> (r: ByteSet)
        requires
            self.wf(),
            forall|i: int| 0 <= i < sets.len() ==> (#[trigger] sets[i]).wf(),
        ensures
            r.wf(),
            r@ == intersection_of(self@, contents(sets@)),
    {
        self.select(&sets, true)
    }

    /// The members that are in all of the other sets, or in none of them.
    fn select(&self, sets: &Vec<&ValueSet>, all: bool) -> (r: ByteSet)
        requires
            self.wf(),
            forall|i: int| 0 <= i < sets.len() ==> (#[trigger] sets[i]).wf(),
        ensures
            r.wf(),
            r@ == if all {
                intersection_of(self@, contents(sets@))
            } else {
                difference_of(self@, contents(sets@))
            },
    {
        let ghost want = if all {
            intersection_of(self@, contents(sets@))
        } else {
            difference_of(self@, contents(sets@))
        };
        let members = self.smembers();
        let ghost names = texts(members@);
        let mut r = ByteSet::new();
        let mut i: usize = 0;
        while i < members.len()
            invariant
                i <= members.len(),
                names == texts(members@),
                names.to_set() == self@,
                r.wf(),
                forall|j: int| 0 <= j < sets.len() ==> (#[trigger] sets[j]).wf(),
                want == if all {
                    intersection_of(self@, contents(sets@))
                } else {
                    difference_of(self@, contents(sets@))
                },
                forall|k: Seq<u8>| #[trigger] r@.contains(k) ==> want.contains(k),
                forall|j: int| 0 <= j < i && want.contains(#[trigger] names[j]) ==> r@.contains(names[j]),
            decreases members.len() - i,
        {
            let mut fits: bool = true;
            let mut j: usize = 0;
            let ghost name = names[i as int];
            while j < sets.len() && fits
                invariant
                    j <= sets.len(),
                    i < members.len(),
                    name == members@[i as int]@,
                    forall|n: int| 0 <= n < sets.len() ==> (#[trigger] sets[n]).wf(),
                    fits ==> forall|n: int| 0 <= n < j ==> (#[trigger] contents(sets@)[n]).contains(name) == all,
                    !fits ==> exists|n: int| 0 <= n < sets.len() && (#[trigger] contents(sets@)[n]).contains(name) != all,
                decreases sets.len() - j,
            {
                if sets[j].sismember(&members[i]) != all {
                    proof {
                        assert(contents(sets@)[j as int].contains(name) != all);
                    }
                    fits = false;
                }
                j += 1;
            }
            proof {
                assert(names.contains(name));
                assert(self@.contains(name));
                assert(fits == want.contains(name));
            }
            if fits {
                r.insert(copy(&members[i]));
            }
            i += 1;
        }
        proof {
            assert forall|k: Seq<u8>| want.contains(k) implies r@.contains(k) by {
                assert(self@.contains(k));
                let j = names.index_of(k);
                assert(names[j] == k);
            }
            assert(r@ =~= want);
        }
        r
    }

    /// The members of this set and of all the others.
    pub fn sunion(&self, sets: Vec<&ValueSet>) -> (r: ByteSet)
        requires
            self.wf(),
            forall|i: int| 0 <= i < sets.len() ==> (#[trigger] sets[i]).wf(),
        ensures
            r.wf(),
            r@ == union_of(self@, contents(sets@)),
    {
        let mut r = self.to_byteset();
        let mut i: usize = 0;
        proof {
            assert(r@ =~= union_of(self@, contents(sets@).take(0)));
        }
        while i < sets.len()
            invariant
                i <= sets.len(),
                forall|n: int| 0 <= n < sets.len() ==> (#[trigger] sets[n]).wf(),
                r.wf(),
                r@ == union_of(self@, contents(sets@).take(i as int)),
            decreases sets.len() - i,
        {
            let members = sets[i].smembers();
            let ghost names = texts(members@);
            let ghost before = r@;
            let mut j: usize = 0;
            proof {
                assert(r@ =~= before.union(names.take(0).to_set()));
            }
            while j < members.len()
                invariant
                    j <= members.len(),
                    names == texts(members@),
                    r.wf(),
                    r@ == before.union(names.take(j as int).to_set()),
                decreases members.len() - j,
            {
                r.insert(copy(&members[j]));
                proof {
                    let shorter = names.take(j as int);
                    let longer = names.take(j + 1);
                    assert(longer =~= shorter.push(names[j as int]));
                    assert forall|k: Seq<u8>| longer.contains(k) implies k == names[j as int] || shorter.contains(k) by {
                        let m = longer.index_of(k);
                        assert(longer[m] == k);
                        if m < j {
                            assert(shorter[m] == k);
                        }
                    }
                    assert forall|k: Seq<u8>| k == names[j as int] || shorter.contains(k) implies longer.contains(k) by {
                        if k == names[j as int] {
                            assert(longer[j as int] == k);
                        } else {
                            let m = shorter.index_of(k);
                            assert(shorter[m] == k);
                            assert(longer[m] == k);
                        }
                    }
                    assert(r@ =~= before.union(longer.to_set()));
                }
                j += 1;
            }
            proof {
                assert(names.take(j as int) =~= names);
                let fewer = contents(sets@).take(i as int);
                let more = contents(sets@).take(i + 1);
                assert(more =~= fewer.push(sets@[i as int]@));
                assert forall|k: Seq<u8>| union_of(self@, more).contains(k) implies r@.contains(k) by {
                    if !self@.contains(k) {
                        let m = choose|m: int| 0 <= m < more.len() && (#[trigger] more[m]).contains(k);
                        if m < i {
                            assert(fewer[m].contains(k));
                        }
                    }
                }
                assert forall|k: Seq<u8>| r@.contains(k) implies union_of(self@, more).contains(k) by {
                    if !self@.contains(k) {
                        if before.contains(k) {
                            let m = choose|m: int| 0 <= m < fewer.len() && (#[trigger] fewer[m]).contains(k);
                            assert(more[m].contains(k));
                        } else {
                            assert(more[i as int].contains(k));
                        }
                    }
                }
                assert(r@ =~= union_of(self@, more));
            }
            i += 1;
        }
        proof {
            assert(contents(sets@).take(i as int) =~= contents(sets@));
        }
        r
    }

    /// Serializes the set. Fails if a length cannot be written.
    pub fn dump(&self) -> (r: Result<Vec<u8>, OperationError>)
        ensures
            match r {
                Ok(v) => self.serialized() == Some(v@),
                Err(e) => self.serialized() is None && e == OperationError::OverflowError,
            },
    {
        let mut out: Vec<u8> = Vec::new();
        match self {
            ValueSet::Integer(set) => {
                out.push(TYPE_SET_INTSET);
                proof {
                    assert(out@ =~= seq![TYPE_SET_INTSET]);
                }
                let bytes = intset_bytes(&set.items);
                if !push_slice(&mut out, &bytes) {
                    return Err(OperationError::OverflowError);
                }
            },
            ValueSet::Data(set) => {
                out.push(TYPE_SET);
                proof {
                    assert(out@ =~= seq![TYPE_SET]);
                }
                if !push_slices(&mut out, &set.items) {
                    return Err(OperationError::OverflowError);
                }
            },
        }
        push_version(&mut out);
        Ok(out)
    }
}

/// One more set takes its members out of a difference, leaves those that it has
/// in an intersection, and adds its own to a union.
pub proof fn one_more_set(first: Set<Seq<u8>>, others: Seq<Set<Seq<u8>>>, last: Set<Seq<u8>>)
    ensures
        difference_of(first, others.push(last)) == difference_of(first, others).difference(last),
        intersection_of(first, others.push(last)) == intersection_of(first, others).intersect(last),
        union_of(first, others.push(last)) == union_of(first, others).union(last),
{
    let more = others.push(last);
    let n = others.len() as int;
    assert(more[n] == last);
    assert forall|i: int| 0 <= i < n implies more[i] == #[trigger] others[i] by {}
    assert forall|k: Seq<u8>| difference_of(first, more).contains(k) implies difference_of(first, others).contains(k) && !last.contains(k) by {
        assert(!more[n].contains(k));
        assert forall|i: int| 0 <= i < n implies !(#[trigger] others[i]).contains(k) by {
            assert(!more[i].contains(k));
        }
    }
    assert(difference_of(first, more) =~= difference_of(first, others).difference(last));
    assert forall|k: Seq<u8>| intersection_of(first, more).contains(k) implies intersection_of(first, others).contains(k) && last.contains(k) by {
        assert(more[n].contains(k));
        assert forall|i: int| 0 <= i < n implies (#[trigger] others[i]).contains(k) by {
            assert(more[i].contains(k));
        }
    }
    assert(intersection_of(first, more) =~= intersection_of(first, others).intersect(last));
    assert forall|k: Seq<u8>| union_of(first, others).union(last).contains(k) implies union_of(first, more).contains(k) by {
        if !first.contains(k) {
            if last.contains(k) {
                assert(more[n].contains(k));
            } else {
                let i = choose|i: int| 0 <= i < n && (#[trigger] others[i]).contains(k);
                assert(more[i].contains(k));
            }
        }
    }
    assert(union_of(first, more) =~= union_of(first, others).union(last));
}

/// The members of several sets come in the order of the sets.
pub proof fn contents_elements(sets: Seq<&ValueSet>, i: int)
    requires
        0 <= i < sets.len(),
    ensures
        contents(sets).len() == sets.len(),
        contents(sets)[i] == sets[i]@,
{
}

/// A set of byte strings has these as its members, and a set of numbers has
/// their texts.
pub proof fn set_reads(bytes: ByteSet, numbers: IntSet, k: Seq<u8>)
    ensures
        ValueSet::Data(bytes)@.contains(k) <==> exists|i: int| 0 <= i < bytes.items.len() && (#[trigger] bytes.items@[i])@ == k,
        ValueSet::Integer(numbers)@.contains(k) <==> exists|i: int|
            0 <= i < numbers.items.len() && decimal_text((#[trigger] numbers.items@[i]) as int) == k,
        ValueSet::Data(bytes).members().len() == bytes.items.len(),
        ValueSet::Integer(numbers).members().len() == numbers.items.len(),
        forall|i: int| 0 <= i < bytes.items.len() ==> ValueSet::Data(bytes).members()[i] == (#[trigger] bytes.items@[i])@,
        forall|i: int|
            0 <= i < numbers.items.len() ==> ValueSet::Integer(numbers).members()[i] == decimal_text((#[trigger] numbers.items@[i]) as int),
        ValueSet::Data(bytes).wf() == bytes.wf(),
        ValueSet::Integer(numbers).wf() == numbers.wf(),
{
    crate::byteset::byteset_reads(bytes, k);
    let all = number_texts(numbers.items@);
    if all.contains(k) {
        let i = all.index_of(k);
        assert(decimal_text(numbers.items@[i] as int) == k);
    }
    if exists|i: int| 0 <= i < numbers.items.len() && decimal_text((#[trigger] numbers.items@[i]) as int) == k {
        let i = choose|i: int| 0 <= i < numbers.items.len() && decimal_text((#[trigger] numbers.items@[i]) as int) == k;
        assert(all[i] == k);
    }
}

/// The text of every machine number is one, and what is one stands for such a
/// number and is written as this number is: no sign but a minus, and no zero
/// that could be left out.
pub proof fn number_text_exactly(s: Seq<u8>, n: i64)
    ensures
        is_number_text(decimal_text(n as int)),
        is_number_text(s) ==> {
            &&& numeric(s) matches Some(v) && i64::MIN <= v <= i64::MAX
            &&& s.len() > 0 && s[0] != 43
            &&& s[0] == 48 ==> s.len() == 1
            &&& s[0] == 45 ==> s.len() > 1 && s[1] != 48
        },
{
    if is_number_text(s) {
        let v = choose|v: i64| #[trigger] decimal_text(v as int) == s;
        decimal_text_numeric(v as int);
        decimal_text_shortest(v as int);
    }
}

/// A serialized set is a type byte, the content, and the version in two bytes.
/// A set of numbers is written as one byte string, one of byte strings as their
/// number and each of them.
pub proof fn set_layout(bytes: ByteSet, numbers: IntSet)
    ensures
        match ValueSet::Data(bytes).serialized() {
            Some(d) => {
                &&& slices_fit(texts(bytes.items@))
                &&& d == seq![2u8] + length_code(bytes.items@.len()) + slices_code(texts(bytes.items@)) + seq![7u8, 0u8]
            },
            None => !slices_fit(texts(bytes.items@)),
        },
        match ValueSet::Integer(numbers).serialized() {
            Some(d) => {
                &&& intset_code(numbers.items@).len() <= 0xffff_ffff
                &&& d == seq![11u8] + slice_code(intset_code(numbers.items@)) + seq![7u8, 0u8]
            },
            None => intset_code(numbers.items@).len() > 0xffff_ffff,
        },
{
}

} // verus!
