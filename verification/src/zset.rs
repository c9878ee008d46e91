//! Sorted sets: members with scores, ranked by score and then by member.

use skiplist::OrderedSkipList;
use vstd::prelude::*;

use crate::adapters::ranking::{ordered_by_item, precedes, put_in, put_in_at, ranking, ranking_get, ranking_index_of, ranking_insert, ranking_new, ranking_remove, taken_out};
use crate::assoc::texts;
use crate::bytemap::ByteMap;
use crate::dbutil::{between, bounds, lemma_between};
use crate::error::OperationError;
use crate::lex::{copy, lex_less, lex_less_irreflexive, lex_less_total, lex_less_transitive};
use crate::rdb::{length_code, length_fits, push_length, push_score, push_slice, push_version, score_code, score_fits, slice_code, versioned, TYPE_ZSET};
use crate::score::{rank_orders_numbers, scaled, score_ranked_by_bits, Score};

verus! {

/// A sorted set. The list ranks the members, each beside the rank of its
/// score; the map gives the score of each member.
#[derive(PartialEq, Debug)]
pub enum ValueSortedSet {
    Data(OrderedSkipList<(i64, Vec<u8>)>, ByteMap<Score>),
}

/// An end of a range of scores.
#[derive(PartialEq, Debug)]
pub enum Bound {
    Included(Score),
    Excluded(Score),
    Unbounded,
}

impl Bound {
    /// Whether a score of the given rank is not below this lower end.
    pub open spec fn admits_above(&self, rank: int) -> bool {
        match self {
            Bound::Included(s) => s.rank() <= rank,
            Bound::Excluded(s) => s.rank() < rank,
            Bound::Unbounded => true,
        }
    }

    /// Whether a score of the given rank is not above this upper end.
    pub open spec fn admits_below(&self, rank: int) -> bool {
        match self {
            Bound::Included(s) => rank <= s.rank(),
            Bound::Excluded(s) => rank < s.rank(),
            Bound::Unbounded => true,
        }
    }

    fn above(&self, rank: i64) -> (r: bool)
        ensures
            r == self.admits_above(rank as int),
    {
        match self {
            Bound::Included(s) => s.rank_key() <= rank,
            Bound::Excluded(s) => s.rank_key() < rank,
            Bound::Unbounded => true,
        }
    }

    fn below(&self, rank: i64) -> (r: bool)
        ensures
            r == self.admits_below(rank as int),
    {
        match self {
            Bound::Included(s) => rank <= s.rank_key(),
            Bound::Excluded(s) => rank < s.rank_key(),
            Bound::Unbounded => true,
        }
    }
}

/// Whether a sequence ranks the members of a map: it holds each member once,
/// beside the rank of its score, and is in order.
pub open spec fn is_ranking(r: Seq<(i64, Seq<u8>)>, m: Map<Seq<u8>, Score>) -> bool {
    &&& forall|i: int, j: int| 0 <= i < j < r.len() ==> precedes(#[trigger] r[i], #[trigger] r[j])
    &&& forall|i: int| 0 <= i < r.len() ==> m.contains_key((#[trigger] r[i]).1) && m[r[i].1].rank() == r[i].0
    &&& forall|k: Seq<u8>| #[trigger] m.contains_key(k) ==> r.contains((m[k].rank() as i64, k))
}

/// The rank of a score fits in a machine number.
pub proof fn lemma_rank_fits(s: Score)
    ensures
        i64::MIN <= s.rank() <= i64::MAX,
{
}

/// The order of ranked members is strict and total.
pub proof fn lemma_precedes(a: (i64, Seq<u8>), b: (i64, Seq<u8>), c: (i64, Seq<u8>))
    ensures
        !precedes(a, a),
        precedes(a, b) && precedes(b, c) ==> precedes(a, c),
        a == b || precedes(a, b) || precedes(b, a),
{
    lex_less_irreflexive(a.1);
    if a.0 == b.0 && b.0 == c.0 && precedes(a, b) && precedes(b, c) {
        lex_less_transitive(a.1, b.1, c.1);
    }
    if a.0 == b.0 {
        lex_less_total(a.1, b.1);
    }
}

/// A ranking is as long as the map has members.
pub proof fn lemma_ranking_len(r: Seq<(i64, Seq<u8>)>, m: Map<Seq<u8>, Score>)
    requires
        is_ranking(r, m),
    ensures
        m.dom().finite(),
        m.dom().len() == r.len(),
{
    let names = Seq::new(r.len(), |i: int| r[i].1);
    assert(names.no_duplicates()) by {
        assert forall|i: int, j: int| 0 <= i < names.len() && 0 <= j < names.len() && i != j implies names[i] != names[j] by {
            if names[i] == names[j] {
                assert(r[i] == r[j]);
                lemma_precedes(r[i], r[j], r[j]);
                if i < j {
                    assert(precedes(r[i], r[j]));
                } else {
                    assert(precedes(r[j], r[i]));
                }
            }
        }
    }
    assert(names.to_set() =~= m.dom()) by {
        assert forall|k: Seq<u8>| names.to_set().contains(k) implies m.dom().contains(k) by {
            let i = names.index_of(k);
            assert(names[i] == k);
            assert(m.contains_key(r[i].1));
        }
        assert forall|k: Seq<u8>| m.dom().contains(k) implies names.to_set().contains(k) by {
            assert(m.contains_key(k));
            let i = r.index_of((m[k].rank() as i64, k));
            assert(r[i] == (m[k].rank() as i64, k));
            assert(names[i] == k);
        }
    }
    names.unique_seq_to_set();
}

/// Putting a new member in where the order has it ranks the larger map.
pub proof fn lemma_ranking_put_in(r: Seq<(i64, Seq<u8>)>, m: Map<Seq<u8>, Score>, s: Score, k: Seq<u8>, r2: Seq<(i64, Seq<u8>)>)
    requires
        is_ranking(r, m),
        !m.contains_key(k),
        put_in(r, (s.rank() as i64, k), r2),
    ensures
        is_ranking(r2, m.insert(k, s)),
{
    lemma_rank_fits(s);
    let item = (s.rank() as i64, k);
    let at = choose|at: int| #[trigger] put_in_at(r, item, r2, at);
    let m2 = m.insert(k, s);
    assert forall|i: int| at <= i < r.len() implies precedes(item, #[trigger] r[i]) by {
        assert(m.contains_key(r[i].1));
        lemma_precedes(item, r[i], r[i]);
    }
    assert forall|i: int, j: int| 0 <= i < j < r2.len() implies precedes(#[trigger] r2[i], #[trigger] r2[j]) by {
        let i1 = if i < at { i } else { i - 1 };
        let j1 = if j < at { j } else { j - 1 };
        if i != at {
            assert(r2[i] == r[i1]);
        }
        if j != at {
            assert(r2[j] == r[j1]);
        }
    }
    assert forall|i: int| 0 <= i < r2.len() implies m2.contains_key((#[trigger] r2[i]).1) && m2[r2[i].1].rank() == r2[i].0 by {
        if i != at {
            let i1 = if i < at { i } else { i - 1 };
            assert(r2[i] == r[i1]);
            assert(m.contains_key(r[i1].1));
        }
    }
    assert forall|n: Seq<u8>| #[trigger] m2.contains_key(n) implies r2.contains((m2[n].rank() as i64, n)) by {
        if n == k {
            assert(r2[at] == item);
        } else {
            assert(m.contains_key(n));
            let i = r.index_of((m[n].rank() as i64, n));
            assert(r[i] == (m[n].rank() as i64, n));
            assert(r2[if i < at { i } else { i + 1 }] == r[i]);
        }
    }
}

/// Taking a member out of its ranking ranks the smaller map.
pub proof fn lemma_ranking_taken_out(r: Seq<(i64, Seq<u8>)>, m: Map<Seq<u8>, Score>, k: Seq<u8>, r2: Seq<(i64, Seq<u8>)>)
    requires
        is_ranking(r, m),
        m.contains_key(k),
        taken_out(r, (m[k].rank() as i64, k), r2),
    ensures
        is_ranking(r2, m.remove(k)),
{
    let item = (m[k].rank() as i64, k);
    let at = choose|at: int| 0 <= at < r.len() && #[trigger] r[at] == item && r2 == r.remove(at);
    let m2 = m.remove(k);
    assert forall|i: int, j: int| 0 <= i < j < r2.len() implies precedes(#[trigger] r2[i], #[trigger] r2[j]) by {
        let i1 = if i < at { i } else { i + 1 };
        let j1 = if j < at { j } else { j + 1 };
        assert(r2[i] == r[i1]);
        assert(r2[j] == r[j1]);
    }
    assert forall|i: int| 0 <= i < r2.len() implies m2.contains_key((#[trigger] r2[i]).1) && m2[r2[i].1].rank() == r2[i].0 by {
        let i1 = if i < at { i } else { i + 1 };
        assert(r2[i] == r[i1]);
        assert(m.contains_key(r[i1].1));
        if r[i1].1 == k {
            assert(r[i1] == r[at]);
            lemma_precedes(r[i1], r[at], r[at]);
            if i1 < at {
                assert(precedes(r[i1], r[at]));
            } else {
                assert(precedes(r[at], r[i1]));
            }
        }
    }
    assert forall|n: Seq<u8>| #[trigger] m2.contains_key(n) implies r2.contains((m2[n].rank() as i64, n)) by {
        assert(m.contains_key(n));
        let i = r.index_of((m[n].rank() as i64, n));
        assert(r[i] == (m[n].rank() as i64, n));
        assert(i != at);
        assert(r2[if i < at { i } else { i - 1 }] == r[i]);
    }
}

/// There is one ranking of the members of a map.
pub proof fn ranking_unique(a: Seq<(i64, Seq<u8>)>, b: Seq<(i64, Seq<u8>)>, m: Map<Seq<u8>, Score>)
    requires
        is_ranking(a, m),
        is_ranking(b, m),
    ensures
        a == b,
    decreases a.len(),
{
    lemma_ranking_len(a, m);
    lemma_ranking_len(b, m);
    if a.len() == 0 {
        assert(a =~= b);
    } else {
        let x = a.last();
        let y = b.last();
        assert(m.contains_key(x.1) && m.contains_key(y.1));
        let i = b.index_of(x);
        let j = a.index_of(y);
        assert(b[i] == x && a[j] == y);
        if x != y {
            assert(precedes(b[i], b[b.len() - 1]));
            assert(precedes(a[j], a[a.len() - 1]));
            lemma_precedes(x, y, x);
        }
        assert(a.remove(a.len() - 1) =~= a.drop_last());
        assert(b.remove(b.len() - 1) =~= b.drop_last());
        assert(a[a.len() - 1] == x && b[b.len() - 1] == x);
        lemma_ranking_taken_out(a, m, x.1, a.drop_last());
        lemma_ranking_taken_out(b, m, x.1, b.drop_last());
        ranking_unique(a.drop_last(), b.drop_last(), m.remove(x.1));
        assert(a =~= a.drop_last().push(x));
        assert(b =~= b.drop_last().push(x));
    }
}

/// The reply that lists ranked members: each member, followed by the text of
/// its score if the scores are asked for.
pub open spec fn listing(items: Seq<(i64, Seq<u8>)>, m: Map<Seq<u8>, Score>, withscores: bool) -> Seq<Seq<u8>> {
    if withscores {
        Seq::new(
            2 * items.len(),
            |i: int| if i % 2 == 0 { items[i / 2].1 } else { m[items[i / 2].1].text@ },
        )
    } else {
        Seq::new(items.len(), |i: int| items[i].1)
    }
}

/// The ranked members whose scores lie between two ends.
pub open spec fn within(r: Seq<(i64, Seq<u8>)>, min: Bound, max: Bound) -> Seq<(i64, Seq<u8>)> {
    r.filter(|e: (i64, Seq<u8>)| min.admits_above(e.0 as int) && max.admits_below(e.0 as int))
}

/// The elements that follow the first `offset` ones, at most `count` of them.
pub open spec fn page<A>(s: Seq<A>, offset: int, count: int) -> Seq<A> {
    let low = if offset < s.len() { offset } else { s.len() as int };
    let high = if offset + count < s.len() { offset + count } else { s.len() as int };
    s.subrange(low, high)
}

/// The sequence, or the same backwards.
pub open spec fn directed<A>(s: Seq<A>, rev: bool) -> Seq<A> {
    if rev {
        s.reverse()
    } else {
        s
    }
}

/// Filtering a sequence by what holds of one stretch of it gives that stretch.
pub proof fn lemma_filter_stretch<A>(s: Seq<A>, p: spec_fn(A) -> bool, low: int, high: int)
    requires
        0 <= low <= high <= s.len(),
        forall|i: int| 0 <= i < s.len() ==> (p(#[trigger] s[i]) <==> low <= i < high),
    ensures
        s.filter(p) == s.subrange(low, high),
    decreases s.len(),
{
    reveal(Seq::filter);
    if s.len() == 0 {
        assert(s.filter(p) =~= s.subrange(low, high));
    } else {
        let front = s.drop_last();
        let n = s.len() - 1;
        assert forall|i: int| 0 <= i < front.len() implies (p(#[trigger] front[i]) <==> (if low < n { low } else { n }) <= i < (if high < n { high } else { n })) by {
            assert(front[i] == s[i]);
        }
        lemma_filter_stretch(front, p, if low < n { low } else { n }, if high < n { high } else { n });
        assert(s.filter(p) =~= s.subrange(low, high));
    }
}

/// Ranked members, one after the other, each followed by its score.
pub open spec fn entries_code(items: Seq<(i64, Seq<u8>)>, m: Map<Seq<u8>, Score>) -> Seq<u8>
    decreases items.len(),
{
    if items.len() == 0 {
        Seq::empty()
    } else {
        entries_code(items.drop_last(), m) + slice_code(items.last().1) + score_code(m[items.last().1])
    }
}

/// Whether a ranked member and its score can be written.
pub open spec fn entry_fits(item: (i64, Seq<u8>), m: Map<Seq<u8>, Score>) -> bool {
    length_fits(item.1.len()) && score_fits(m[item.1])
}

/// Whether adding a member changes nothing: it is there and only new ones are
/// added, or it is not there and only present ones are changed.
pub open spec fn zadd_refused(m: Map<Seq<u8>, Score>, member: Seq<u8>, nx: bool, xx: bool) -> bool {
    if m.contains_key(member) {
        nx
    } else {
        xx
    }
}

impl View for ValueSortedSet {
    type V = Map<Seq<u8>, Score>;

    open spec fn view(&self) -> Map<Seq<u8>, Score> {
        match self {
            ValueSortedSet::Data(_, scores) => scores@,
        }
    }
}

impl ValueSortedSet {
    /// The members in rank order, each beside the rank of its score.
    pub open spec fn ranked(&self) -> Seq<(i64, Seq<u8>)> {
        match self {
            ValueSortedSet::Data(list, _) => ranking(*list),
        }
    }

    /// The list ranks the members of the map, and every score is a number.
    pub open spec fn wf(&self) -> bool {
        match self {
            ValueSortedSet::Data(list, scores) => {
                &&& ordered_by_item(*list)
                &&& scores.wf()
                &&& is_ranking(ranking(*list), scores@)
                &&& forall|k: Seq<u8>| #[trigger] scores@.contains_key(k) ==> scores@[k].wf()
            },
        }
    }

    /// The sorted set with no member.
    pub fn new() -> (r: ValueSortedSet)
        ensures
            r.wf(),
            r@ == Map::<Seq<u8>, Score>::empty(),
    {
        ValueSortedSet::Data(ranking_new(), ByteMap::new())
    }

    /// Adds a member, or changes its score. With `nx` only a new member is
    /// added; with `xx` only a present one is changed. With `incr` the score of
    /// a present member becomes what `sum` makes of the given score and its
    /// own. Returns whether the member is new or, with `ch`, whether it is new
    /// or has another score.
    pub fn zadd<F: Fn(&Score, &Score) -> Score>(&mut self, s: Score, el: Vec<u8>, nx: bool, xx: bool, ch: bool, incr: bool, sum: F) -> (r: bool)
        requires
            old(self).wf(),
            s.wf(),
            old(self)@.contains_key(el@) && !nx && incr ==> {
                &&& call_requires(sum, (&s, &old(self)@[el@]))
                &&& forall|t: Score| #[trigger] call_ensures(sum, (&s, &old(self)@[el@]), t) ==> t.wf()
            },
        ensures
            final(self).wf(),
            zadd_refused(old(self)@, el@, nx, xx) ==> !r && final(self)@ == old(self)@,
            !zadd_refused(old(self)@, el@, nx, xx) ==> {
                &&& final(self)@.contains_key(el@)
                &&& final(self)@ == old(self)@.insert(el@, final(self)@[el@])
                &&& if incr && old(self)@.contains_key(el@) {
                    call_ensures(sum, (&s, &old(self)@[el@]), final(self)@[el@])
                } else {
                    final(self)@[el@] == s
                }
                &&& r == if old(self)@.contains_key(el@) {
                    ch && final(self)@[el@].rank() != old(self)@[el@].rank()
                } else {
                    true
                }
            },
    {
        let ghost text = el@;
        let ghost r0 = self.ranked();
        let ghost m0 = self@;
        match self {
            ValueSortedSet::Data(list, scores) => {
                let (present, before, score): (bool, i64, Score) = match scores.get(&el) {
                    Some(own) => {
                        if nx {
                            return false;
                        }
                        (true, own.rank_key(), if incr {
                            sum(&s, own)
                        } else {
                            s
                        })
                    },
                    None => {
                        if xx {
                            return false;
                        }
                        (false, 0, s)
                    },
                };
                let after: i64 = score.rank_key();
                if present {
                    ranking_remove(list, before, copy(&el));
                    scores.remove(&el);
                    proof {
                        lemma_rank_fits(m0[text]);
                        assert(r0.contains((m0[text].rank() as i64, text)));
                        lemma_ranking_taken_out(r0, m0, text, ranking(*list));
                    }
                }
                let ghost r1 = ranking(*list);
                let ghost m1 = scores@;
                ranking_insert(list, after, copy(&el));
                scores.insert(el, score);
                proof {
                    lemma_rank_fits(score);
                    lemma_ranking_put_in(r1, m1, score, text, ranking(*list));
                    assert(scores@ =~= m0.insert(text, score));
                }
                if present {
                    ch && after != before
                } else {
                    true
                }
            },
        }
    }

    /// Takes out a member. Returns whether it was there.
    pub fn zrem(&mut self, member: &Vec<u8>) -> (r: bool)
        requires
            old(self).wf(),
        ensures
            final(self).wf(),
            final(self)@ == old(self)@.remove(member@),
            r == old(self)@.contains_key(member@),
    {
        let ghost r0 = self.ranked();
        let ghost m0 = self@;
        match self {
            ValueSortedSet::Data(list, scores) => {
                match scores.remove(member) {
                    Some(score) => {
                        ranking_remove(list, score.rank_key(), copy(member));
                        proof {
                            lemma_rank_fits(score);
                            assert(r0.contains((m0[member@].rank() as i64, member@)));
                            lemma_ranking_taken_out(r0, m0, member@, ranking(*list));
                        }
                        true
                    },
                    None => {
                        proof {
                            assert(m0.remove(member@) =~= m0);
                        }
                        false
                    },
                }
            },
        }
    }

    /// The number of members.
    pub fn zcard(&self) -> (r: usize)
        requires
            self.wf(),
        ensures
            self@.dom().finite(),
            r == self@.dom().len(),
            r == self.ranked().len(),
    {
        proof {
            lemma_ranking_len(self.ranked(), self@);
        }
        match self {
            ValueSortedSet::Data(_, scores) => scores.len(),
        }
    }

    /// The score of a member.
    pub fn zscore(&self, element: &Vec<u8>) -> (r: Option<&Score>)
        requires
            self.wf(),
        ensures
            match r {
                Some(s) => self@.contains_key(element@) && *s == self@[element@],
                None => !self@.contains_key(element@),
            },
    {
        match self {
            ValueSortedSet::Data(_, scores) => scores.get(element),
        }
    }

    /// Adds to the score of a member, which is put in if it is not there.
    /// Returns the score that it then has.
    pub fn zincrby<F: Fn(&Score, &Score) -> Score>(&mut self, increment: Score, member: Vec<u8>, sum: F) -> (r: Score)
        requires
            old(self).wf(),
            increment.wf(),
            old(self)@.contains_key(member@) ==> {
                &&& call_requires(sum, (&increment, &old(self)@[member@]))
                &&& forall|t: Score| #[trigger] call_ensures(sum, (&increment, &old(self)@[member@]), t) ==> t.wf()
            },
        ensures
            final(self).wf(),
            final(self)@.contains_key(member@),
            final(self)@ == old(self)@.insert(member@, final(self)@[member@]),
            if old(self)@.contains_key(member@) {
                call_ensures(sum, (&increment, &old(self)@[member@]), final(self)@[member@])
            } else {
                final(self)@[member@] == increment
            },
            r.bits == final(self)@[member@].bits,
            r.text@ == final(self)@[member@].text@,
    {
        let name = copy(&member);
        self.zadd(increment, member, false, false, false, true, sum);
        match self.zscore(&name) {
            Some(score) => score.duplicate(),
            None => {
                proof {
                    assert(false);
                }
                Score { bits: 0, text: Vec::new() }
            },
        }
    }

    /// The place of a member in the ranking.
    pub fn zrank(&self, el: &Vec<u8>) -> (r: Option<usize>)
        requires
            self.wf(),
        ensures
            match r {
                Some(i) => self@.contains_key(el@) && i < self.ranked().len() && self.ranked()[i as int].1 == el@,
                None => !self@.contains_key(el@),
            },
    {
        match self {
            ValueSortedSet::Data(list, scores) => match scores.get(el) {
                Some(score) => {
                    proof {
                        lemma_rank_fits(*score);
                        assert(ranking(*list).contains((scores@[el@].rank() as i64, el@)));
                    }
                    ranking_index_of(list, score.rank_key(), copy(el))
                },
                None => None,
            },
        }
    }

    /// Where the members begin whose scores the lower end admits.
    fn first_above(&self, min: &Bound) -> (r: usize)
        requires
            self.wf(),
        ensures
            r <= self.ranked().len(),
            forall|i: int| 0 <= i < self.ranked().len() ==> (min.admits_above((#[trigger] self.ranked()[i]).0 as int) <==> r <= i),
    {
        let mut low: usize = 0;
        let mut high: usize = self.zcard();
        let ghost all = self.ranked();
        match self {
            ValueSortedSet::Data(list, _) => {
                while low < high
                    invariant
                        all == ranking(*list),
                        is_ranking(all, self@),
                        low <= high <= all.len(),
                        forall|i: int| 0 <= i < low ==> !min.admits_above((#[trigger] all[i]).0 as int),
                        forall|i: int| high <= i < all.len() ==> min.admits_above((#[trigger] all[i]).0 as int),
                    decreases high - low,
                {
                    let middle: usize = low + (high - low) / 2;
                    let admitted: bool = match ranking_get(list, middle) {
                        Some(item) => min.above(item.0),
                        None => false,
                    };
                    if admitted {
                        proof {
                            assert forall|i: int| middle <= i < all.len() implies min.admits_above((#[trigger] all[i]).0 as int) by {
                                if middle < i {
                                    assert(precedes(all[middle as int], all[i]));
                                }
                            }
                        }
                        high = middle;
                    } else {
                        proof {
                            assert forall|i: int| 0 <= i <= middle implies !min.admits_above((#[trigger] all[i]).0 as int) by {
                                if i < middle {
                                    assert(precedes(all[i], all[middle as int]));
                                }
                            }
                        }
                        low = middle + 1;
                    }
                }
            },
        }
        low
    }

    /// Where the members end whose scores the upper end admits.
    fn past_below(&self, max: &Bound) -> (r: usize)
        requires
            self.wf(),
        ensures
            r <= self.ranked().len(),
            forall|i: int| 0 <= i < self.ranked().len() ==> (max.admits_below((#[trigger] self.ranked()[i]).0 as int) <==> i < r),
    {
        let mut low: usize = 0;
        let mut high: usize = self.zcard();
        let ghost all = self.ranked();
        match self {
            ValueSortedSet::Data(list, _) => {
                while low < high
                    invariant
                        all == ranking(*list),
                        is_ranking(all, self@),
                        low <= high <= all.len(),
                        forall|i: int| 0 <= i < low ==> max.admits_below((#[trigger] all[i]).0 as int),
                        forall|i: int| high <= i < all.len() ==> !max.admits_below((#[trigger] all[i]).0 as int),
                    decreases high - low,
                {
                    let middle: usize = low + (high - low) / 2;
                    let admitted: bool = match ranking_get(list, middle) {
                        Some(item) => max.below(item.0),
                        None => false,
                    };
                    if admitted {
                        proof {
                            assert forall|i: int| 0 <= i <= middle implies max.admits_below((#[trigger] all[i]).0 as int) by {
                                if i < middle {
                                    assert(precedes(all[i], all[middle as int]));
                                }
                            }
                        }
                        low = middle + 1;
                    } else {
                        proof {
                            assert forall|i: int| middle <= i < all.len() implies !max.admits_below((#[trigger] all[i]).0 as int) by {
                                if middle < i {
                                    assert(precedes(all[middle as int], all[i]));
                                }
                            }
                        }
                        high = middle;
                    }
                }
            },
        }
        low
    }

    /// Where the members begin and end whose scores lie between two ends.
    fn span(&self, min: &Bound, max: &Bound) -> (r: (usize, usize))
        requires
            self.wf(),
        ensures
            r.0 <= r.1 <= self.ranked().len(),
            within(self.ranked(), *min, *max) == self.ranked().subrange(r.0 as int, r.1 as int),
    {
        let low: usize = self.first_above(min);
        let past: usize = self.past_below(max);
        let high: usize = if low < past { past } else { low };
        proof {
            lemma_filter_stretch(
                self.ranked(),
                |e: (i64, Seq<u8>)| min.admits_above(e.0 as int) && max.admits_below(e.0 as int),
                low as int,
                high as int,
            );
        }
        (low, high)
    }

    /// The number of members whose scores lie between two ends.
    pub fn zcount(&self, min: &Bound, max: &Bound) -> (r: usize)
        requires
            self.wf(),
        ensures
            r == within(self.ranked(), *min, *max).len(),
    {
        let (low, high) = self.span(min, max);
        high - low
    }

    /// Lists a stretch of the ranking, or of the ranking backwards.
    fn list_stretch(&self, low: usize, high: usize, withscores: bool, rev: bool) -> (r: Vec<Vec<u8>>)
        requires
            self.wf(),
            low <= high <= self.ranked().len(),
        ensures
            texts(r@) == listing(directed(self.ranked(), rev).subrange(low as int, high as int), self@, withscores),
    {
        let len: usize = self.zcard();
        let ghost items = directed(self.ranked(), rev).subrange(low as int, high as int);
        let mut r: Vec<Vec<u8>> = Vec::new();
        let mut i: usize = low;
        match self {
            ValueSortedSet::Data(list, scores) => {
                proof {
                    assert(texts(r@) =~= listing(items.take(0), self@, withscores));
                }
                while i < high
                    invariant
                        low <= i <= high <= len,
                        len == ranking(*list).len(),
                        self.ranked() == ranking(*list),
                        self@ == scores@,
                        scores.wf(),
                        is_ranking(ranking(*list), scores@),
                        items == directed(self.ranked(), rev).subrange(low as int, high as int),
                        texts(r@) == listing(items.take(i - low), self@, withscores),
                    decreases high - i,
                {
                    let at: usize = if rev { len - 1 - i } else { i };
                    let ghost before = texts(r@);
                    let ghost item = items[i - low];
                    proof {
                        assert(item == ranking(*list)[at as int]);
                        assert(scores@.contains_key(ranking(*list)[at as int].1));
                    }
                    match ranking_get(list, at) {
                        Some(found) => {
                            let name = copy(&found.1);
                            if withscores {
                                match scores.get(&found.1) {
                                    Some(score) => {
                                        r.push(name);
                                        r.push(copy(&score.text));
                                    },
                                    None => {
                                        proof {
                                            assert(false);
                                        }
                                    },
                                }
                            } else {
                                r.push(name);
                            }
                        },
                        None => {
                            proof {
                                assert(false);
                            }
                        },
                    }
                    proof {
                        let shorter = items.take(i - low);
                        let longer = items.take(i + 1 - low);
                        assert(longer =~= shorter.push(item));
                        if withscores {
                            assert(texts(r@) =~= before.push(item.1).push(self@[item.1].text@));
                            assert(listing(longer, self@, true) =~= listing(shorter, self@, true).push(item.1).push(
                                self@[item.1].text@,
                            ));
                        } else {
                            assert(texts(r@) =~= before.push(item.1));
                            assert(listing(longer, self@, false) =~= listing(shorter, self@, false).push(item.1));
                        }
                    }
                    i += 1;
                }
                proof {
                    assert(items.take(i - low) =~= items);
                }
            },
        }
        r
    }

    /// The members between two positions of the ranking, or of the ranking
    /// backwards.
    pub fn zrange(&self, start: i64, stop: i64, withscores: bool, rev: bool) -> (r: Vec<Vec<u8>>)
        requires
            self.wf(),
        ensures
            texts(r@) == listing(between(directed(self.ranked(), rev), start as int, stop as int), self@, withscores),
    {
        let len: usize = self.zcard();
        let (low, high) = bounds(start, stop, len);
        proof {
            lemma_between(directed(self.ranked(), rev), start as int, stop as int, low as int, high as int);
        }
        self.list_stretch(low, high, withscores, rev)
    }

    /// The members whose scores lie between two ends, without the first
    /// `offset` ones and at most `count` of them. Backwards, `min` is the upper
    /// end and `max` the lower one.
    pub fn zrangebyscore(&self, min: &Bound, max: &Bound, withscores: bool, offset: usize, count: usize, rev: bool) -> (r: Vec<Vec<u8>>)
        requires
            self.wf(),
        ensures
            texts(r@) == listing(
                page(
                    if rev {
                        within(self.ranked(), *max, *min).reverse()
                    } else {
                        within(self.ranked(), *min, *max)
                    },
                    offset as int,
                    count as int,
                ),
                self@,
                withscores,
            ),
    {
        let len: usize = self.zcard();
        let (low, high) = if rev { self.span(max, min) } else { self.span(min, max) };
        let size: usize = high - low;
        let skipped: usize = if offset < size { offset } else { size };
        let taken: usize = if count < size - skipped { count } else { size - skipped };
        let base: usize = if rev { len - high } else { low };
        proof {
            let found = self.ranked().subrange(low as int, high as int);
            let whole = if rev { found.reverse() } else { found };
            assert(directed(self.ranked(), rev).subrange(base + skipped, base + skipped + taken) =~= page(
                whole,
                offset as int,
                count as int,
            ));
        }
        self.list_stretch(base + skipped, base + skipped + taken, withscores, rev)
    }

    /// The serialized sorted set. There is none if a length or a score cannot
    /// be written.
    pub open spec fn serialized(&self) -> Option<Seq<u8>> {
        if length_fits(self.ranked().len()) && forall|i: int|
            0 <= i < self.ranked().len() ==> entry_fits(#[trigger] self.ranked()[i], self@) {
            Some(versioned(seq![TYPE_ZSET] + length_code(self.ranked().len()) + entries_code(self.ranked(), self@)))
        } else {
            None
        }
    }

    /// Serializes the sorted set. Fails if a length or a score cannot be
    /// written.
    pub fn dump(&self) -> (r: Result<Vec<u8>, OperationError>)
        requires
            self.wf(),
        ensures
            match r {
                Ok(v) => self.serialized() == Some(v@),
                Err(e) => self.serialized() is None && e == OperationError::OverflowError,
            },
    {
        let len: usize = self.zcard();
        let ghost all = self.ranked();
        let mut out: Vec<u8> = Vec::new();
        out.push(TYPE_ZSET);
        proof {
            assert(out@ =~= seq![TYPE_ZSET]);
        }
        if !push_length(&mut out, len) {
            return Err(OperationError::OverflowError);
        }
        let ghost head = out@;
        match self {
            ValueSortedSet::Data(list, scores) => {
                let mut i: usize = 0;
                proof {
                    assert(out@ =~= head + entries_code(all.take(0), self@));
                }
                while i < len
                    invariant
                        i <= len == all.len(),
                        all == ranking(*list),
                        all == self.ranked(),
                        scores@ == self@,
                        scores.wf(),
                        is_ranking(all, self@),
                        out@ == head + entries_code(all.take(i as int), self@),
                        forall|j: int| 0 <= j < i ==> entry_fits(#[trigger] all[j], self@),
                    decreases len - i,
                {
                    proof {
                        assert(self@.contains_key(all[i as int].1));
                    }
                    match ranking_get(list, i) {
                        Some(item) => match scores.get(&item.1) {
                            Some(score) => {
                                if !push_slice(&mut out, &item.1) || !push_score(&mut out, score) {
                                    proof {
                                        assert(!entry_fits(all[i as int], self@));
                                    }
                                    return Err(OperationError::OverflowError);
                                }
                            },
                            None => {
                                proof {
                                    assert(false);
                                }
                            },
                        },
                        None => {
                            proof {
                                assert(false);
                            }
                        },
                    }
                    i += 1;
                    proof {
                        assert(all.take(i as int).drop_last() =~= all.take(i - 1));
                        assert(out@ =~= head + entries_code(all.take(i as int), self@));
                    }
                }
                proof {
                    assert(all.take(i as int) =~= all);
                }
            },
        }
        push_version(&mut out);
        Ok(out)
    }
}

/// Of the members between two ends none is missing and none is too much: what
/// comes of two stretches is what comes of the first and then of the second.
pub proof fn within_by_parts(a: Seq<(i64, Seq<u8>)>, b: Seq<(i64, Seq<u8>)>, min: Bound, max: Bound)
    ensures
        within(a + b, min, max) == within(a, min, max) + within(b, min, max),
{
    Seq::filter_distributes_over_add(a, b, |e: (i64, Seq<u8>)| min.admits_above(e.0 as int) && max.admits_below(e.0 as int));
}

/// A member lies between two ends if its score is not below the lower and not
/// above the upper one, and is not equal to one that is excluded.
pub proof fn within_of_one(e: (i64, Seq<u8>), min: Bound, max: Bound)
    ensures
        ({
            let not_below = match min {
                Bound::Included(s) => e.0 >= s.rank(),
                Bound::Excluded(s) => e.0 > s.rank(),
                Bound::Unbounded => true,
            };
            let not_above = match max {
                Bound::Included(s) => e.0 <= s.rank(),
                Bound::Excluded(s) => e.0 < s.rank(),
                Bound::Unbounded => true,
            };
            within(seq![e], min, max) == if not_below && not_above { seq![e] } else { Seq::empty() }
        }),
{
    reveal_with_fuel(Seq::filter, 2);
    assert(seq![e].drop_last() =~= Seq::<(i64, Seq<u8>)>::empty());
    assert(Seq::<(i64, Seq<u8>)>::empty().push(e) =~= seq![e]);
}

/// What an item of a filtered sequence is.
proof fn lemma_filter_has<A>(s: Seq<A>, p: spec_fn(A) -> bool, x: A)
    ensures
        s.filter(p).contains(x) <==> s.contains(x) && p(x),
    decreases s.len(),
{
    reveal(Seq::filter);
    if s.len() > 0 {
        let front = s.drop_last();
        lemma_filter_has(front, p, x);
        assert(s =~= front.push(s.last()));
        if front.filter(p).contains(x) {
            let i = front.filter(p).index_of(x);
            assert(front.filter(p)[i] == x);
            assert(front.filter(p).push(s.last())[i] == x);
            let j = front.index_of(x);
            assert(front[j] == x);
            assert(s[j] == x);
        }
        if s.contains(x) && p(x) {
            let j = s.index_of(x);
            assert(s[j] == x);
            if j < front.len() {
                assert(front[j] == x);
            } else {
                assert(front.filter(p).push(s.last())[front.filter(p).len() as int] == x);
            }
        }
        if s.filter(p).contains(x) {
            let i = s.filter(p).index_of(x);
            assert(s.filter(p)[i] == x);
            if !front.filter(p).contains(x) {
                if i < front.filter(p).len() {
                    assert(front.filter(p)[i] == x);
                }
                assert(x == s.last());
                assert(s[s.len() - 1] == x);
            }
        }
    }
}

/// The members that lie between two ends are all those whose score, as a
/// number, is not below the lower end and not above the upper one, and is not
/// equal to an excluded end.
pub proof fn within_by_score(r: Seq<(i64, Seq<u8>)>, m: Map<Seq<u8>, Score>, min: Bound, max: Bound, k: Seq<u8>)
    requires
        is_ranking(r, m),
    ensures
        (exists|i: int| 0 <= i < within(r, min, max).len() && (#[trigger] within(r, min, max)[i]).1 == k) <==> {
            &&& m.contains_key(k)
            &&& match min {
                Bound::Included(s) => scaled(s.bits) <= scaled(m[k].bits),
                Bound::Excluded(s) => scaled(s.bits) < scaled(m[k].bits),
                Bound::Unbounded => true,
            }
            &&& match max {
                Bound::Included(s) => scaled(m[k].bits) <= scaled(s.bits),
                Bound::Excluded(s) => scaled(m[k].bits) < scaled(s.bits),
                Bound::Unbounded => true,
            }
        },
{
    let p = |e: (i64, Seq<u8>)| min.admits_above(e.0 as int) && max.admits_below(e.0 as int);
    let w = within(r, min, max);
    match min {
        Bound::Included(s) => {
            score_ranked_by_bits(s, m[k]);
            score_ranked_by_bits(m[k], s);
        },
        Bound::Excluded(s) => {
            score_ranked_by_bits(s, m[k]);
        },
        Bound::Unbounded => {},
    }
    match max {
        Bound::Included(s) => {
            score_ranked_by_bits(s, m[k]);
            score_ranked_by_bits(m[k], s);
        },
        Bound::Excluded(s) => {
            score_ranked_by_bits(m[k], s);
        },
        Bound::Unbounded => {},
    }
    if exists|i: int| 0 <= i < w.len() && (#[trigger] w[i]).1 == k {
        let i = choose|i: int| 0 <= i < w.len() && (#[trigger] w[i]).1 == k;
        assert(w.contains(w[i]));
        lemma_filter_has(r, p, w[i]);
        let j = r.index_of(w[i]);
        assert(r[j] == w[i]);
    }
    if m.contains_key(k) {
        let e = (m[k].rank() as i64, k);
        lemma_rank_fits(m[k]);
        assert(r.contains(e));
        lemma_filter_has(r, p, e);
        if w.contains(e) {
            let i = w.index_of(e);
            assert(w[i].1 == k);
        }
    }
}

/// A ranking has every member once, the smaller score first, and of two
/// members with equal scores the one whose bytes come first.
pub proof fn ranking_in_order(r: Seq<(i64, Seq<u8>)>, m: Map<Seq<u8>, Score>, i: int, j: int)
    requires
        is_ranking(r, m),
        0 <= i < j < r.len(),
    ensures
        m.contains_key(r[i].1),
        m.contains_key(r[j].1),
        r[i].1 != r[j].1,
        scaled(m[r[i].1].bits) <= scaled(m[r[j].1].bits),
        scaled(m[r[i].1].bits) == scaled(m[r[j].1].bits) ==> lex_less(r[i].1, r[j].1),
{
    assert(precedes(r[i], r[j]));
    lemma_precedes(r[i], r[j], r[j]);
    rank_orders_numbers(m[r[i].1].bits, m[r[j].1].bits);
    score_ranked_by_bits(m[r[i].1], m[r[j].1]);
    score_ranked_by_bits(m[r[j].1], m[r[i].1]);
}

/// A ranking leaves no member out.
pub proof fn ranking_complete(r: Seq<(i64, Seq<u8>)>, m: Map<Seq<u8>, Score>, k: Seq<u8>)
    requires
        is_ranking(r, m),
    ensures
        m.contains_key(k) <==> exists|i: int| 0 <= i < r.len() && (#[trigger] r[i]).1 == k,
{
    if m.contains_key(k) {
        let i = r.index_of((m[k].rank() as i64, k));
        assert(r[i].1 == k);
    }
}

/// A listing has the members in their order. With scores each member is
/// followed by the text of its own.
pub proof fn listing_elements(items: Seq<(i64, Seq<u8>)>, m: Map<Seq<u8>, Score>, i: int)
    requires
        0 <= i < items.len(),
    ensures
        listing(items, m, false).len() == items.len(),
        listing(items, m, false)[i] == items[i].1,
        listing(items, m, true).len() == items.len() + items.len(),
        listing(items, m, true)[i + i] == items[i].1,
        listing(items, m, true)[i + i + 1] == m[items[i].1].text@,
{
}

/// Nothing is listed of nothing.
pub proof fn listing_of_none(m: Map<Seq<u8>, Score>, withscores: bool)
    ensures
        listing(Seq::empty(), m, withscores).len() == 0,
{
}

/// A page leaves out the elements in front of it and those that are too many.
pub proof fn page_elements<A>(front: Seq<A>, middle: Seq<A>, back: Seq<A>, count: int)
    requires
        middle.len() == count || (middle.len() < count && back.len() == 0),
    ensures
        page(front + middle + back, front.len() as int, count) == middle,
{
    assert(page(front + middle + back, front.len() as int, count) =~= middle);
}

/// A page behind the end is empty.
pub proof fn page_behind<A>(s: Seq<A>, offset: int, count: int)
    requires
        offset >= s.len(),
        count >= 0,
    ensures
        page(s, offset, count).len() == 0,
{
}

/// Backwards the last element comes first, and forwards nothing changes.
pub proof fn directed_elements<A>(s: Seq<A>, i: int)
    requires
        0 <= i < s.len(),
    ensures
        directed(s, true).len() == s.len(),
        directed(s, true)[i] == s[s.len() - 1 - i],
        directed(s, false) == s,
{
}

/// A member that is there is kept as it is if only new ones are added, and a
/// new one is not added if only present ones are changed.
pub proof fn zadd_refusals(m: Map<Seq<u8>, Score>, member: Seq<u8>, s: Score)
    ensures
        zadd_refused(m.insert(member, s), member, true, false),
        zadd_refused(m.insert(member, s), member, true, true),
        !zadd_refused(m.insert(member, s), member, false, true),
        !zadd_refused(m.insert(member, s), member, false, false),
        zadd_refused(m.remove(member), member, false, true),
        zadd_refused(m.remove(member), member, true, true),
        !zadd_refused(m.remove(member), member, true, false),
        !zadd_refused(m.remove(member), member, false, false),
{
}

/// Written members follow each other, each with its own score behind it.
pub proof fn entries_by_parts(a: Seq<(i64, Seq<u8>)>, b: Seq<(i64, Seq<u8>)>, e: (i64, Seq<u8>), m: Map<Seq<u8>, Score>)
    ensures
        entries_code(Seq::empty(), m) == Seq::<u8>::empty(),
        entries_code(seq![e], m) == slice_code(e.1) + score_code(m[e.1]),
        entries_code(a + b, m) == entries_code(a, m) + entries_code(b, m),
    decreases b.len(),
{
    reveal_with_fuel(entries_code, 2);
    assert(seq![e].drop_last() =~= Seq::<(i64, Seq<u8>)>::empty());
    assert(entries_code(seq![e].drop_last(), m) =~= Seq::<u8>::empty());
    assert(Seq::<u8>::empty() + slice_code(e.1) =~= slice_code(e.1));
    assert(entries_code(seq![e], m) =~= slice_code(e.1) + score_code(m[e.1]));
    if b.len() == 0 {
        assert(a + b =~= a);
        assert(entries_code(a, m) + entries_code(b, m) =~= entries_code(a, m));
    } else {
        assert((a + b).drop_last() =~= a + b.drop_last());
        entries_by_parts(a, b.drop_last(), e, m);
        assert(entries_code(a + b, m) =~= entries_code(a, m) + entries_code(b, m));
    }
}

/// A member can be written if its length is below the limit and its score is
/// infinite or short enough.
pub proof fn entry_limits(item: (i64, Seq<u8>), m: Map<Seq<u8>, Score>)
    ensures
        entry_fits(item, m) <==> {
            &&& item.1.len() <= 0xffff_ffff
            &&& m[item.1].bits == 0x7ff0_0000_0000_0000 || m[item.1].bits == 0xfff0_0000_0000_0000 || m[item.1].text@.len() < 253
        },
{
}

/// A serialized sorted set is a type byte, the number of members, the members
/// with their scores, and the version in two bytes.
pub proof fn sorted_set_layout(s: ValueSortedSet)
    ensures
        match s.serialized() {
            Some(d) => {
                let count = length_code(s.ranked().len());
                &&& s.ranked().len() <= 0xffff_ffff
                &&& forall|i: int| 0 <= i < s.ranked().len() ==> entry_fits(#[trigger] s.ranked()[i], s@)
                &&& d == seq![3u8] + count + entries_code(s.ranked(), s@) + seq![7u8, 0u8]
            },
            None => s.ranked().len() > 0xffff_ffff || exists|i: int|
                0 <= i < s.ranked().len() && !entry_fits(#[trigger] s.ranked()[i], s@),
        },
{
}

} // verus!
