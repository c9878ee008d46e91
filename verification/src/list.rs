//! Lists of byte strings.

use std::collections::VecDeque;
use vstd::prelude::*;

use crate::assoc::texts;
use crate::dbutil::{between, bounds, lemma_between, normalize_position, place};
use crate::error::OperationError;
use crate::lex::same;
use crate::rdb::{length_code, push_length, push_slice, push_version, slices_code, slices_fit, versioned, TYPE_LIST};

verus! {

/// A list of byte strings.
#[derive(PartialEq, Debug)]
pub enum ValueList {
    Data(VecDeque<Vec<u8>>),
}

/// The sequence with an element added at its end or at its start.
pub open spec fn pushed<A>(s: Seq<A>, el: A, right: bool) -> Seq<A> {
    if right {
        s.push(el)
    } else {
        seq![el] + s
    }
}

/// Whether an index is the first at which a sequence has an element.
pub open spec fn is_first<A>(s: Seq<A>, el: A, i: int) -> bool {
    &&& 0 <= i < s.len()
    &&& s[i] == el
    &&& forall|j: int| 0 <= j < i ==> #[trigger] s[j] != el
}

/// Whether `after` is the sequence with an element put in before or after the
/// first that is equal to the pivot.
pub open spec fn put_beside<A>(s: Seq<A>, pivot: A, before: bool, el: A, after: Seq<A>) -> bool {
    exists|i: int| #[trigger]
        is_first(s, pivot, i) && after == s.insert(
            if before {
                i
            } else {
                i + 1
            },
            el,
        )
}

/// There is one way to put an element beside the pivot.
pub proof fn put_beside_unique<A>(s: Seq<A>, pivot: A, before: bool, el: A, a: Seq<A>, b: Seq<A>)
    requires
        put_beside(s, pivot, before, el, a),
        put_beside(s, pivot, before, el, b),
    ensures
        a == b,
        a.len() == s.len() + 1,
{
    let i = choose|i: int| #[trigger]
        is_first(s, pivot, i) && a == s.insert(
            if before {
                i
            } else {
                i + 1
            },
            el,
        );
    let j = choose|j: int| #[trigger]
        is_first(s, pivot, j) && b == s.insert(
            if before {
                j
            } else {
                j + 1
            },
            el,
        );
    if i < j {
        assert(s[i] != pivot);
    } else if j < i {
        assert(s[j] != pivot);
    }
}

/// The sequence without the first occurrences of an element, up to a number of
/// them.
pub open spec fn without<A>(s: Seq<A>, el: A, most: nat) -> Seq<A>
    decreases s.len(),
{
    if s.len() == 0 {
        s
    } else if s[0] == el && most > 0 {
        without(s.skip(1), el, (most - 1) as nat)
    } else {
        seq![s[0]] + without(s.skip(1), el, most)
    }
}

/// The sequence without occurrences of an element, which are taken out from
/// the start or from the end. A limit of zero is none.
pub open spec fn stripped<A>(s: Seq<A>, el: A, left: bool, limit: nat) -> Seq<A> {
    let most = if limit == 0 { s.len() } else { limit };
    if left {
        without(s, el, most)
    } else {
        without(s.reverse(), el, most).reverse()
    }
}

/// How often a sequence has an element.
pub open spec fn occurrences<A>(s: Seq<A>, el: A) -> nat
    decreases s.len(),
{
    if s.len() == 0 {
        0
    } else {
        occurrences(s.skip(1), el) + if s[0] == el { 1nat } else { 0nat }
    }
}

/// What is taken from a side of a list is what was added there last, and what
/// is left is what was there before.
pub proof fn push_then_pop<A>(s: Seq<A>, el: A, right: bool, left_over: Seq<A>, taken: A)
    requires
        pushed(s, el, right) == pushed(left_over, taken, right),
    ensures
        left_over == s,
        taken == el,
{
    if right {
        assert(s =~= pushed(s, el, right).drop_last());
        assert(left_over =~= pushed(left_over, taken, right).drop_last());
        assert(pushed(s, el, right).last() == el);
        assert(pushed(left_over, taken, right).last() == taken);
    } else {
        assert(s =~= pushed(s, el, right).skip(1));
        assert(left_over =~= pushed(left_over, taken, right).skip(1));
        assert(pushed(s, el, right)[0] == el);
        assert(pushed(left_over, taken, right)[0] == taken);
    }
}

/// As many occurrences are taken out as there are, or as the number allows.
pub proof fn lemma_without_len<A>(s: Seq<A>, el: A, most: nat)
    ensures
        without(s, el, most).len() + (if occurrences(s, el) < most {
            occurrences(s, el)
        } else {
            most
        }) == s.len(),
        occurrences(s, el) <= s.len(),
    decreases s.len(),
{
    if s.len() > 0 {
        if s[0] == el && most > 0 {
            lemma_without_len(s.skip(1), el, (most - 1) as nat);
        } else {
            lemma_without_len(s.skip(1), el, most);
        }
    }
}

/// How often a sequence has an element is how often its parts have it.
pub proof fn lemma_occurrences_add<A>(a: Seq<A>, b: Seq<A>, el: A)
    ensures
        occurrences(a + b, el) == occurrences(a, el) + occurrences(b, el),
    decreases a.len(),
{
    if a.len() == 0 {
        assert(a + b =~= b);
    } else {
        assert((a + b).skip(1) =~= a.skip(1) + b);
        lemma_occurrences_add(a.skip(1), b, el);
    }
}

/// A sequence has an element as often as the same sequence backwards.
pub proof fn lemma_occurrences_reverse<A>(s: Seq<A>, el: A)
    ensures
        occurrences(s.reverse(), el) == occurrences(s, el),
    decreases s.len(),
{
    if s.len() == 0 {
        assert(s.reverse() =~= s);
    } else {
        let one = seq![s[0]];
        assert(s.reverse() =~= s.skip(1).reverse() + one);
        lemma_occurrences_add(s.skip(1).reverse(), one, el);
        lemma_occurrences_reverse(s.skip(1), el);
        assert(one.skip(1) =~= Seq::<A>::empty());
        assert(occurrences(one.skip(1), el) == 0);
        assert(occurrences(one, el) == if s[0] == el { 1nat } else { 0nat });
    }
}

/// From either side, as many occurrences are taken out of a list as it has, or
/// as the limit allows. Without a limit all are.
pub proof fn stripped_len<A>(s: Seq<A>, el: A, left: bool, limit: nat)
    ensures
        stripped(s, el, left, limit).len() + (if limit == 0 || occurrences(s, el) < limit {
            occurrences(s, el)
        } else {
            limit
        }) == s.len(),
{
    let most = if limit == 0 { s.len() } else { limit };
    if left {
        lemma_without_len(s, el, most);
    } else {
        lemma_without_len(s.reverse(), el, most);
        lemma_occurrences_reverse(s, el);
    }
}

/// Taking out occurrences of an element leaves every other element where it
/// was among the others.
pub proof fn lemma_without_others<A>(s: Seq<A>, el: A, most: nat)
    ensures
        without(s, el, most).filter(|x: A| x != el) == s.filter(|x: A| x != el),
    decreases s.len(),
{
    let p = |x: A| x != el;
    if s.len() > 0 {
        let one = seq![s[0]];
        assert(s =~= one + s.skip(1));
        Seq::filter_distributes_over_add(one, s.skip(1), p);
        if s[0] == el && most > 0 {
            lemma_without_others(s.skip(1), el, (most - 1) as nat);
            reveal_with_fuel(Seq::filter, 2);
            assert(one.drop_last() =~= Seq::<A>::empty());
            assert(one.filter(p) =~= Seq::<A>::empty());
            assert(s.filter(p) =~= s.skip(1).filter(p));
        } else {
            lemma_without_others(s.skip(1), el, most);
            Seq::filter_distributes_over_add(one, without(s.skip(1), el, most), p);
        }
    }
}

/// Keeping some elements of a sequence backwards is keeping them of the
/// sequence, backwards.
pub proof fn lemma_filter_reverse<A>(s: Seq<A>, p: spec_fn(A) -> bool)
    ensures
        s.reverse().filter(p) == s.filter(p).reverse(),
    decreases s.len(),
{
    if s.len() == 0 {
        assert(s.reverse() =~= s);
        reveal(Seq::filter);
        assert(s.filter(p) =~= s.filter(p).reverse());
    } else {
        let one = seq![s[0]];
        assert(s =~= one + s.skip(1));
        assert(s.reverse() =~= s.skip(1).reverse() + one);
        Seq::filter_distributes_over_add(one, s.skip(1), p);
        Seq::filter_distributes_over_add(s.skip(1).reverse(), one, p);
        lemma_filter_reverse(s.skip(1), p);
        one.lemma_filter_len(p);
        assert(one.filter(p) =~= one.filter(p).reverse());
        assert((one.filter(p) + s.skip(1).filter(p)).reverse() =~= s.skip(1).filter(p).reverse() + one.filter(p).reverse());
    }
}

/// Taking occurrences of an element out of a list, from either side, keeps all
/// other elements, in their order.
pub proof fn stripped_others<A>(s: Seq<A>, el: A, left: bool, limit: nat)
    ensures
        stripped(s, el, left, limit).filter(|x: A| x != el) == s.filter(|x: A| x != el),
{
    let most = if limit == 0 { s.len() } else { limit };
    let p = |x: A| x != el;
    if left {
        lemma_without_others(s, el, most);
    } else {
        lemma_without_others(s.reverse(), el, most);
        lemma_filter_reverse(without(s.reverse(), el, most), p);
        lemma_filter_reverse(s.reverse(), p);
        assert(s.reverse().reverse() =~= s);
    }
}

impl View for ValueList {
    type V = Seq<Seq<u8>>;

    open spec fn view(&self) -> Seq<Seq<u8>> {
        match self {
            ValueList::Data(d) => texts(d@),
        }
    }
}

/// The byte strings that references lead to.
pub open spec fn referred(refs: Seq<&Vec<u8>>) -> Seq<Seq<u8>> {
    Seq::new(refs.len(), |i: int| refs[i]@)
}

impl ValueList {
    /// The serialized list. There is none if a length cannot be written.
    pub open spec fn serialized(&self) -> Option<Seq<u8>> {
        if slices_fit(self@) {
            Some(versioned(seq![TYPE_LIST] + length_code(self@.len()) + slices_code(self@)))
        } else {
            None
        }
    }

    /// The list with no element.
    pub fn new() -> (r: ValueList)
        ensures
            r@ == Seq::<Seq<u8>>::empty(),
    {
        let r = ValueList::Data(VecDeque::new());
        proof {
            assert(r@ =~= Seq::<Seq<u8>>::empty());
        }
        r
    }

    /// Adds an element at the end or at the start.
    pub fn push(&mut self, el: Vec<u8>, right: bool)
        ensures
            final(self)@ == pushed(old(self)@, el@, right),
    {
        let ghost before = self@;
        let ghost text = el@;
        match self {
            ValueList::Data(d) => {
                if right {
                    d.push_back(el);
                } else {
                    d.push_front(el);
                }
                proof {
                    assert(texts(d@) =~= pushed(before, text, right));
                }
            },
        }
    }

    /// Takes the element at the end or at the start.
    pub fn pop(&mut self, right: bool) -> (r: Option<Vec<u8>>)
        ensures
            match r {
                Some(el) => old(self)@ == pushed(final(self)@, el@, right),
                None => old(self)@.len() == 0 && final(self)@ == old(self)@,
            },
    {
        let ghost before = self@;
        match self {
            ValueList::Data(d) => {
                let r = if right {
                    d.pop_back()
                } else {
                    d.pop_front()
                };
                proof {
                    if r is Some {
                        assert(before =~= pushed(texts(d@), r->0@, right));
                    }
                }
                r
            },
        }
    }

    /// The element at a position. A negative position counts from the end.
    pub fn lindex(&self, index: i64) -> (r: Option<&Vec<u8>>)
        ensures
            match r {
                Some(el) => 0 <= place(index as int, self@.len()) < self@.len() && el@ == self@[place(
                    index as int,
                    self@.len(),
                )],
                None => !(0 <= place(index as int, self@.len()) < self@.len()),
            },
    {
        match self {
            ValueList::Data(d) => match normalize_position(index, d.len()) {
                Ok(i) => Some(&d[i]),
                Err(_) => None,
            },
        }
    }

    /// Puts in an element before or after the first that is equal to the
    /// pivot. Returns the new length, or nothing if there is no such element.
    pub fn linsert(&mut self, before: bool, pivot: Vec<u8>, newvalue: Vec<u8>) -> (r: Option<usize>)
        ensures
            match r {
                Some(n) => n == final(self)@.len() && put_beside(old(self)@, pivot@, before, newvalue@, final(self)@),
                None => !old(self)@.contains(pivot@) && final(self)@ == old(self)@,
            },
    {
        let ghost all = self@;
        let ghost text = newvalue@;
        match self {
            ValueList::Data(d) => {
                let mut i: usize = 0;
                while i < d.len()
                    invariant
                        all == texts(d@),
                        i <= all.len(),
                        forall|j: int| 0 <= j < i ==> #[trigger] all[j] != pivot@,
                    ensures
                        all == texts(d@),
                        i <= all.len(),
                        i == all.len() ==> !all.contains(pivot@),
                        i < all.len() ==> is_first(all, pivot@, i as int),
                    decreases d.len() - i,
                {
                    if same(&d[i], &pivot) {
                        break;
                    }
                    i += 1;
                }
                if i == d.len() {
                    return None;
                }
                let at: usize = if before { i } else { i + 1 };
                d.insert(at, newvalue);
                proof {
                    assert(texts(d@) =~= all.insert(at as int, text));
                    assert(is_first(all, pivot@, i as int));
                }
                Some(d.len())
            },
        }
    }

    /// The number of elements.
    pub fn llen(&self) -> (r: usize)
        ensures
            r == self@.len(),
    {
        match self {
            ValueList::Data(d) => d.len(),
        }
    }

    /// The elements between two positions, both included.
    pub fn lrange(&self, start: i64, stop: i64) -> (r: Vec<&Vec<u8>>)
        ensures
            referred(r@) == between(self@, start as int, stop as int),
    {
        match self {
            ValueList::Data(d) => {
                let (low, high) = bounds(start, stop, d.len());
                let mut r: Vec<&Vec<u8>> = Vec::new();
                let mut i: usize = low;
                while i < high
                    invariant
                        low <= i <= high <= d.len(),
                        referred(r@) == texts(d@).subrange(low as int, i as int),
                    decreases high - i,
                {
                    let ghost before = r@;
                    r.push(&d[i]);
                    i += 1;
                    proof {
                        assert(referred(r@) =~= referred(before).push(d@[i - 1]@));
                        assert(texts(d@).subrange(low as int, i as int) =~= texts(d@).subrange(low as int, i - 1).push(
                            d@[i - 1]@,
                        ));
                    }
                }
                proof {
                    lemma_between(self@, start as int, stop as int, low as int, high as int);
                    if low == high {
                        assert(referred(r@) =~= self@.subrange(low as int, high as int));
                    }
                }
                r
            },
        }
    }

    /// Takes out elements that are equal to the given one, from the start or
    /// from the end, up to a limit. A limit of zero is none. Returns how many
    /// were taken out.
    pub fn lrem(&mut self, left: bool, limit: usize, newvalue: Vec<u8>) -> (r: usize)
        ensures
            final(self)@ == stripped(old(self)@, newvalue@, left, limit as nat),
            r == old(self)@.len() - final(self)@.len(),
    {
        let ghost s = self@;
        let ghost v = newvalue@;
        match self {
            ValueList::Data(d) => {
                let len: usize = d.len();
                let mut left_over: usize = if limit == 0 { len } else { limit };
                let ghost most = left_over as nat;
                let ghost dir = if left { s } else { s.reverse() };
                let ghost mut kept: Seq<Seq<u8>> = Seq::empty();
                let mut i: usize = 0;
                proof {
                    assert(dir.skip(0) =~= dir);
                    assert(kept + without(dir.skip(0), v, most) =~= without(dir, v, most));
                    if left {
                        assert(texts(d@) =~= dir.skip(0) + kept);
                    } else {
                        assert(texts(d@) =~= kept.reverse() + dir.skip(0).reverse());
                    }
                }
                while i < len
                    invariant
                        v == newvalue@,
                        i <= len == dir.len(),
                        left ==> texts(d@) == dir.skip(i as int) + kept,
                        !left ==> texts(d@) == kept.reverse() + dir.skip(i as int).reverse(),
                        kept + without(dir.skip(i as int), v, left_over as nat) == without(dir, v, most),
                    decreases len - i,
                {
                    let ghost now = texts(d@);
                    let ghost rest = dir.skip(i as int);
                    let taken = if left {
                        d.pop_front()
                    } else {
                        d.pop_back()
                    };
                    proof {
                        assert(rest.skip(1) =~= dir.skip(i + 1));
                        assert(rest.len() > 0 && now.len() > 0);
                        if left {
                            assert(now[0] == rest[0]);
                            assert(texts(d@) =~= now.skip(1));
                            assert(texts(d@) =~= rest.skip(1) + kept);
                        } else {
                            assert(now.last() == rest[0]);
                            assert(texts(d@) =~= now.drop_last());
                            assert(texts(d@) =~= kept.reverse() + rest.skip(1).reverse());
                        }
                    }
                    match taken {
                        Some(el) => {
                            if left_over > 0 && same(&el, &newvalue) {
                                left_over -= 1;
                            } else {
                                let ghost held = texts(d@);
                                if left {
                                    d.push_back(el);
                                } else {
                                    d.push_front(el);
                                }
                                proof {
                                    let longer = kept.push(rest[0]);
                                    if left {
                                        assert(texts(d@) =~= held.push(rest[0]));
                                        assert(texts(d@) =~= rest.skip(1) + longer);
                                    } else {
                                        assert(texts(d@) =~= seq![rest[0]] + held);
                                        assert(texts(d@) =~= longer.reverse() + rest.skip(1).reverse());
                                    }
                                    assert(kept + (seq![rest[0]] + without(rest.skip(1), v, left_over as nat)) =~= longer
                                        + without(rest.skip(1), v, left_over as nat));
                                    kept = longer;
                                }
                            }
                        },
                        None => {
                            proof {
                                assert(now.len() > 0);
                                assert(false);
                            }
                        },
                    }
                    i += 1;
                }
                proof {
                    assert(dir.skip(i as int) =~= Seq::<Seq<u8>>::empty());
                    assert(kept =~= without(dir, v, most));
                    if left {
                        assert(texts(d@) =~= kept);
                    } else {
                        assert(texts(d@) =~= kept.reverse());
                    }
                    lemma_without_len(dir, v, most);
                }
                len - d.len()
            },
        }
    }

    /// Replaces the element at a position. Fails if there is none.
    pub fn lset(&mut self, index: i64, newvalue: Vec<u8>) -> (r: Result<(), OperationError>)
        ensures
            match r {
                Ok(_) => 0 <= place(index as int, old(self)@.len()) < old(self)@.len() && final(self)@ == old(self)@.update(
                    place(index as int, old(self)@.len()),
                    newvalue@,
                ),
                Err(e) => !(0 <= place(index as int, old(self)@.len()) < old(self)@.len()) && final(self)@ == old(self)@ && e
                    == OperationError::OutOfBoundsError,
            },
    {
        let ghost before = self@;
        let ghost text = newvalue@;
        match self {
            ValueList::Data(d) => match normalize_position(index, d.len()) {
                Ok(i) => {
                    d.remove(i);
                    d.insert(i, newvalue);
                    proof {
                        assert(texts(d@) =~= before.update(i as int, text));
                    }
                    Ok(())
                },
                Err(_) => Err(OperationError::OutOfBoundsError),
            },
        }
    }

    /// Keeps the elements between two positions, both included, and no other.
    pub fn ltrim(&mut self, start: i64, stop: i64) -> (r: Result<(), OperationError>)
        ensures
            r is Ok,
            final(self)@ == between(old(self)@, start as int, stop as int),
    {
        let ghost before = self@;
        match self {
            ValueList::Data(d) => {
                let (low, high) = bounds(start, stop, d.len());
                d.truncate(high);
                let kept = d.split_off(low);
                *d = kept;
                proof {
                    lemma_between(before, start as int, stop as int, low as int, high as int);
                    assert(texts(d@) =~= before.subrange(low as int, high as int));
                }
            },
        }
        Ok(())
    }

    /// Serializes the list. Fails if a length cannot be written.
    pub fn dump(&self) -> (r: Result<Vec<u8>, OperationError>)
        ensures
            match r {
                Ok(v) => self.serialized() == Some(v@),
                Err(e) => self.serialized() is None && e == OperationError::OverflowError,
            },
    {
        let ghost all = self@;
        let mut out: Vec<u8> = Vec::new();
        out.push(TYPE_LIST);
        proof {
            assert(out@ =~= seq![TYPE_LIST]);
        }
        match self {
            ValueList::Data(d) => {
                if !push_length(&mut out, d.len()) {
                    return Err(OperationError::OverflowError);
                }
                let ghost head = out@;
                let mut i: usize = 0;
                proof {
                    assert(out@ =~= head + slices_code(all.take(0)));
                }
                while i < d.len()
                    invariant
                        i <= d.len(),
                        all == texts(d@),
                        all == self@,
                        out@ == head + slices_code(all.take(i as int)),
                        forall|j: int| 0 <= j < i ==> crate::rdb::length_fits(#[trigger] all[j].len()),
                    decreases d.len() - i,
                {
                    if !push_slice(&mut out, &d[i]) {
                        proof {
                            assert(!crate::rdb::length_fits(all[i as int].len()));
                        }
                        return Err(OperationError::OverflowError);
                    }
                    i += 1;
                    proof {
                        assert(all.take(i as int).drop_last() =~= all.take(i - 1));
                        assert(out@ =~= head + slices_code(all.take(i as int)));
                    }
                }
                proof {
                    assert(all.take(i as int) =~= all);
                }
            },
        }
        push_version(&mut out);
        Ok(out)
    }
}

/// What is pushed to the right is last and what is pushed to the left is first,
/// and the others keep their order.
pub proof fn push_at_the_side<A>(s: Seq<A>, el: A, i: int)
    requires
        0 <= i < s.len(),
    ensures
        pushed(s, el, true).len() == s.len() + 1,
        pushed(s, el, false).len() == s.len() + 1,
        pushed(s, el, true)[i] == s[i],
        pushed(s, el, true)[s.len() as int] == el,
        pushed(s, el, false)[i + 1] == s[i],
        pushed(s, el, false)[0] == el,
{
}

/// What is pushed to an empty list is alone in it.
pub proof fn push_alone<A>(el: A, right: bool)
    ensures
        pushed(Seq::<A>::empty(), el, right) == seq![el],
{
    assert(pushed(Seq::<A>::empty(), el, right) =~= seq![el]);
}

/// An element is put right before or right after the first that is equal to
/// the pivot, and nowhere else.
pub proof fn put_beside_first<A>(a: Seq<A>, pivot: A, b: Seq<A>, el: A, after: Seq<A>)
    requires
        !a.contains(pivot),
    ensures
        put_beside(a + seq![pivot] + b, pivot, true, el, after) <==> after == a + seq![el, pivot] + b,
        put_beside(a + seq![pivot] + b, pivot, false, el, after) <==> after == a + seq![pivot, el] + b,
{
    let s = a + seq![pivot] + b;
    let n = a.len() as int;
    assert(s[n] == pivot);
    assert forall|j: int| 0 <= j < n implies #[trigger] s[j] != pivot by {
        assert(a[j] == s[j]);
    }
    assert(is_first(s, pivot, n));
    assert(s.insert(n, el) =~= a + seq![el, pivot] + b);
    assert(s.insert(n + 1, el) =~= a + seq![pivot, el] + b);
    if put_beside(s, pivot, true, el, after) {
        put_beside_unique(s, pivot, true, el, after, s.insert(n, el));
    }
    if put_beside(s, pivot, false, el, after) {
        put_beside_unique(s, pivot, false, el, after, s.insert(n + 1, el));
    }
}

/// Nothing is put beside a pivot that is not there.
pub proof fn put_beside_needs_pivot<A>(s: Seq<A>, pivot: A, before: bool, el: A, after: Seq<A>)
    requires
        put_beside(s, pivot, before, el, after),
    ensures
        s.contains(pivot),
{
}

/// How often a sequence has an element is how many of its elements are equal
/// to it.
pub proof fn occurrences_are_equal_elements<A>(s: Seq<A>, el: A)
    ensures
        occurrences(s, el) == s.filter(|x: A| x == el).len(),
    decreases s.len(),
{
    let p = |x: A| x == el;
    reveal_with_fuel(Seq::filter, 2);
    if s.len() > 0 {
        let one = seq![s[0]];
        assert(s =~= one + s.skip(1));
        Seq::filter_distributes_over_add(one, s.skip(1), p);
        occurrences_are_equal_elements(s.skip(1), el);
        assert(one.drop_last() =~= Seq::<A>::empty());
        assert(one.filter(p).len() == if s[0] == el { 1nat } else { 0nat });
    }
}

/// When the first elements have all that is to be taken out, those are taken
/// out of them and the rest stays.
proof fn lemma_without_front<A>(a: Seq<A>, b: Seq<A>, el: A)
    ensures
        without(a + b, el, occurrences(a, el)) == a.filter(|x: A| x != el) + b,
    decreases a.len(),
{
    let p = |x: A| x != el;
    reveal_with_fuel(Seq::filter, 2);
    if a.len() == 0 {
        assert(a + b =~= b);
        lemma_without_none(b, el);
        assert(a.filter(p) + b =~= b);
    } else {
        let one = seq![a[0]];
        assert(a =~= one + a.skip(1));
        Seq::filter_distributes_over_add(one, a.skip(1), p);
        assert(one.drop_last() =~= Seq::<A>::empty());
        assert((a + b).skip(1) =~= a.skip(1) + b);
        lemma_without_front(a.skip(1), b, el);
        if a[0] == el {
            assert(one.filter(p) =~= Seq::<A>::empty());
            assert(a.filter(p) =~= a.skip(1).filter(p));
        } else {
            assert(one.filter(p) =~= one);
            assert(one + (a.skip(1).filter(p) + b) =~= a.filter(p) + b);
        }
    }
}

/// Taking out none leaves all.
proof fn lemma_without_none<A>(s: Seq<A>, el: A)
    ensures
        without(s, el, 0) == s,
    decreases s.len(),
{
    if s.len() > 0 {
        lemma_without_none(s.skip(1), el);
        assert(seq![s[0]] + s.skip(1) =~= s);
    }
}

/// Taking out more than there are takes out all.
proof fn lemma_without_all<A>(s: Seq<A>, el: A, most: nat)
    requires
        occurrences(s, el) <= most,
    ensures
        without(s, el, most) == s.filter(|x: A| x != el),
    decreases s.len(),
{
    let p = |x: A| x != el;
    reveal_with_fuel(Seq::filter, 2);
    if s.len() > 0 {
        let one = seq![s[0]];
        assert(s =~= one + s.skip(1));
        Seq::filter_distributes_over_add(one, s.skip(1), p);
        assert(one.drop_last() =~= Seq::<A>::empty());
        if s[0] == el {
            lemma_without_all(s.skip(1), el, (most - 1) as nat);
            assert(one.filter(p) =~= Seq::<A>::empty());
            assert(s.filter(p) =~= s.skip(1).filter(p));
        } else {
            lemma_without_all(s.skip(1), el, most);
            assert(one.filter(p) =~= one);
        }
    } else {
        assert(s.filter(p) =~= s);
    }
}

/// From the left the first occurrences go and from the right the last: where
/// one part of a list has as many as the limit allows, that part loses all of
/// its own and the other part keeps all of its.
pub proof fn stripped_from_the_side<A>(a: Seq<A>, b: Seq<A>, el: A, limit: nat)
    requires
        limit > 0,
    ensures
        a.filter(|x: A| x == el).len() == limit ==> stripped(a + b, el, true, limit) == a.filter(|x: A| x != el) + b,
        b.filter(|x: A| x == el).len() == limit ==> stripped(a + b, el, false, limit) == a + b.filter(|x: A| x != el),
{
    occurrences_are_equal_elements(a, el);
    occurrences_are_equal_elements(b, el);
    if occurrences(a, el) == limit {
        lemma_without_front(a, b, el);
    }
    if occurrences(b, el) == limit {
        let p = |x: A| x != el;
        lemma_occurrences_reverse(b, el);
        assert((a + b).reverse() =~= b.reverse() + a.reverse());
        lemma_without_front(b.reverse(), a.reverse(), el);
        lemma_filter_reverse(b, p);
        assert((b.filter(p).reverse() + a.reverse()).reverse() =~= a + b.filter(p));
    }
}

/// One occurrence that is taken out is the first from the left and the last
/// from the right.
pub proof fn stripped_one<A>(a: Seq<A>, el: A, b: Seq<A>)
    ensures
        !a.contains(el) ==> stripped(a + seq![el] + b, el, true, 1) == a + b,
        !b.contains(el) ==> stripped(a + seq![el] + b, el, false, 1) == a + b,
{
    let p = |x: A| x != el;
    let q = |x: A| x == el;
    reveal_with_fuel(Seq::filter, 2);
    let one = seq![el];
    assert(one.drop_last() =~= Seq::<A>::empty());
    assert(one.filter(p) =~= Seq::<A>::empty());
    assert(one.filter(q).len() == 1);
    if !a.contains(el) {
        lemma_filter_none(a, el);
        Seq::filter_distributes_over_add(a, one, p);
        Seq::filter_distributes_over_add(a, one, q);
        stripped_from_the_side(a + one, b, el, 1);
        assert((a + one).filter(p) =~= a);
        assert((a + one).filter(q).len() == 1);
    }
    if !b.contains(el) {
        lemma_filter_none(b, el);
        Seq::filter_distributes_over_add(one, b, p);
        Seq::filter_distributes_over_add(one, b, q);
        stripped_from_the_side(a, one + b, el, 1);
        assert((one + b).filter(p) =~= b);
        assert((one + b).filter(q).len() == 1);
        assert(a + (one + b) =~= a + one + b);
    }
}

/// A sequence that does not have an element has no equal ones and loses none.
proof fn lemma_filter_none<A>(s: Seq<A>, el: A)
    requires
        !s.contains(el),
    ensures
        s.filter(|x: A| x != el) == s,
        s.filter(|x: A| x == el).len() == 0,
    decreases s.len(),
{
    reveal(Seq::filter);
    let p = |x: A| x != el;
    if s.len() > 0 {
        let front = s.drop_last();
        assert(s[s.len() - 1] != el);
        assert forall|i: int| 0 <= i < front.len() implies front[i] != el by {
            assert(s[i] != el);
        }
        lemma_filter_none(front, el);
        assert(front.push(s.last()) =~= s);
    } else {
        assert(s.filter(p) =~= s);
    }
}

/// Without a limit, or with one that is not reached, all occurrences go.
pub proof fn stripped_of_all<A>(s: Seq<A>, el: A, left: bool, limit: nat)
    requires
        limit == 0 || s.filter(|x: A| x == el).len() <= limit,
    ensures
        stripped(s, el, left, limit) == s.filter(|x: A| x != el),
{
    let p = |x: A| x != el;
    let most = if limit == 0 { s.len() } else { limit };
    occurrences_are_equal_elements(s, el);
    lemma_without_len(s, el, most);
    if left {
        lemma_without_all(s, el, most);
    } else {
        lemma_occurrences_reverse(s, el);
        lemma_without_all(s.reverse(), el, most);
        lemma_filter_reverse(s, p);
        assert(s.filter(p).reverse().reverse() =~= s.filter(p));
    }
}

/// References lead to the byte strings that they refer to, in their order, and
/// a list has the byte strings that its queue has.
pub proof fn list_reads(refs: Seq<&Vec<u8>>, queue: VecDeque<Vec<u8>>, i: int)
    ensures
        referred(refs).len() == refs.len(),
        0 <= i < refs.len() ==> referred(refs)[i] == refs[i]@,
        ValueList::Data(queue)@.len() == queue@.len(),
        0 <= i < queue@.len() ==> ValueList::Data(queue)@[i] == queue@[i]@,
{
}

/// A serialized list is a type byte, the number of elements, the elements, and
/// the version in two bytes. There is none if one of these is too long.
pub proof fn list_layout(l: ValueList)
    ensures
        match l.serialized() {
            Some(d) => {
                &&& l@.len() <= 0xffff_ffff
                &&& forall|i: int| 0 <= i < l@.len() ==> #[trigger] l@[i].len() <= 0xffff_ffff
                &&& d == seq![1u8] + length_code(l@.len()) + slices_code(l@) + seq![7u8, 0u8]
            },
            None => l@.len() > 0xffff_ffff || exists|i: int| 0 <= i < l@.len() && #[trigger] l@[i].len() > 0xffff_ffff,
        },
{
    crate::rdb::slices_limit(l@);
}

} // verus!
