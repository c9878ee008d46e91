//! What holds of several operations together.

use std::sync::mpsc::Sender;
use vstd::prelude::*;

use crate::adapters::ranking::precedes;
use crate::database::{roster, without_listeners, Database, DatabaseView};
use crate::dbutil::{between, between_single, between_whole};
use crate::lex::{lex_less, lex_less_irreflexive};
use crate::number::{decimal_text, decimal_text_injective, decimal_text_numeric, numeric};
use crate::rdb::{le_bytes, lemma_le_bytes_len, length_code, length_fits, sealed, slice_code, slices_code, slices_fit};
use crate::score::Score;
use crate::set::is_number_text;
use crate::string::{overwritten, ValueString};
use crate::value::Value;
use crate::zset::{directed, is_ranking, listing, page, within, Bound};

verus! {

/// What `get` reads of a value that was set is what was set, whatever the value
/// was before.
pub proof fn set_then_get(after: Value, written: Seq<u8>, read: Vec<u8>)
    requires
        after.text() == Some(written),
        call_ensures(Value::get, (&after,), Ok(read)),
    ensures
        read@ == written,
{
}

/// Appending twice to a value is appending both at once.
pub proof fn append_twice(before: Value, once: Value, twice: Value, a: Seq<u8>, b: Seq<u8>)
    requires
        once.text() == Some(before.text()->0 + a),
        twice.text() == Some(once.text()->0 + b),
    ensures
        twice.text() == Some(before.text()->0 + (a + b)),
{
    let text = before.text()->0;
    assert((text + a) + b =~= text + (a + b));
}

/// A string that is kept as a number stands for that number, so that
/// increments add up.
pub proof fn increments_add_up(text: Seq<u8>, n: int, a: int, b: int)
    requires
        numeric(text) == Some(n),
    ensures
        numeric(decimal_text(n + a)) == Some(n + a),
        numeric(decimal_text(n + a + b)) == Some(n + (a + b)),
{
    decimal_text_numeric(n + a);
    decimal_text_numeric(n + a + b);
}

/// How a string that was set is kept is decided by its bytes alone.
pub proof fn string_canonical(a: ValueString, b: ValueString)
    requires
        a is Integer <==> is_number_text(a@),
        b is Integer <==> is_number_text(b@),
        a@ == b@,
    ensures
        a is Integer <==> b is Integer,
        a is Integer ==> a == b,
{
    if a is Integer {
        decimal_text_injective(a->Integer_0 as int, b->Integer_0 as int);
    }
}

/// What was written over a range of a string is what is read from that range.
pub proof fn setrange_then_getrange(text: Seq<u8>, at: int, data: Seq<u8>)
    requires
        at >= 0,
        data.len() > 0,
    ensures
        between(overwritten(text, at, data), at, at + data.len() - 1) == data,
{
    assert(between(overwritten(text, at, data), at, at + data.len() - 1) =~= data);
}

/// Keeping a range and then listing all is listing the range.
pub proof fn trim_then_range<A>(items: Seq<A>, start: int, stop: int)
    ensures
        between(between(items, start, stop), 0, -1) == between(items, start, stop),
{
    between_whole(between(items, start, stop));
}

/// Adding a member makes a set larger by one, unless it was there.
pub proof fn added_member_counts(members: Set<Seq<u8>>, el: Seq<u8>)
    requires
        members.finite(),
    ensures
        members.insert(el).finite(),
        members.insert(el).len() == members.len() + if members.contains(el) { 0int } else { 1int },
{
    if members.contains(el) {
        assert(members.insert(el) =~= members);
    }
}

/// A member that was added to a value and taken out again leaves the members
/// as they were, unless it was there before.
pub proof fn add_then_remove(before: Value, with: Value, after: Value, el: Seq<u8>)
    requires
        before.members() is Some,
        !before.members()->0.contains(el),
        with.members() == Some(before.members()->0.insert(el)),
        after.members() == Some(with.members()->0.remove(el)),
    ensures
        after.members() == before.members(),
{
    assert(before.members()->0.insert(el).remove(el) =~= before.members()->0);
}

/// The members that were popped and those that are left share none, and
/// together are all that there were.
pub proof fn popped_and_left(members: Set<Seq<u8>>, popped: Seq<Seq<u8>>)
    requires
        members.finite(),
        popped.no_duplicates(),
        forall|i: int| 0 <= i < popped.len() ==> members.contains(#[trigger] popped[i]),
    ensures
        members.difference(popped.to_set()).disjoint(popped.to_set()),
        members.difference(popped.to_set()).union(popped.to_set()) == members,
        members.difference(popped.to_set()).len() + popped.len() == members.len(),
    decreases popped.len(),
{
    let gone = popped.to_set();
    let left = members.difference(gone);
    assert(left.union(gone) =~= members) by {
        assert forall|k: Seq<u8>| gone.contains(k) implies members.contains(k) by {
            let i = popped.index_of(k);
            assert(popped[i] == k);
        }
    }
    if popped.len() == 0 {
        assert(left =~= members);
    } else {
        let front = popped.drop_last();
        let last = popped.last();
        assert forall|i: int| 0 <= i < front.len() implies members.contains(#[trigger] front[i]) by {
            assert(front[i] == popped[i]);
        }
        popped_and_left(members, front);
        assert forall|k: Seq<u8>| gone.contains(k) implies k == last || front.to_set().contains(k) by {
            let i = popped.index_of(k);
            assert(popped[i] == k);
            if i < front.len() {
                assert(front[i] == k);
            }
        }
        assert forall|k: Seq<u8>| front.to_set().contains(k) implies gone.contains(k) && k != last by {
            let i = front.index_of(k);
            assert(front[i] == k && popped[i] == k);
        }
        assert(popped[popped.len() - 1] == last);
        assert(gone.contains(last));
        let before = members.difference(front.to_set());
        assert(left =~= before.remove(last));
        assert(before.contains(last));
    }
}

/// Members are ranked by their scores, and those with the same score by their
/// bytes.
pub proof fn ranked_by_score(ranked: Seq<(i64, Seq<u8>)>, scores: Map<Seq<u8>, Score>, i: int, j: int)
    requires
        is_ranking(ranked, scores),
        0 <= i < j < ranked.len(),
    ensures
        scores[ranked[i].1].rank() <= scores[ranked[j].1].rank(),
        scores[ranked[i].1].rank() == scores[ranked[j].1].rank() ==> lex_less(ranked[i].1, ranked[j].1),
{
    assert(precedes(ranked[i], ranked[j]));
    assert(scores.contains_key(ranked[i].1) && scores.contains_key(ranked[j].1));
}

/// A member has one place in the ranking.
pub proof fn one_place(ranked: Seq<(i64, Seq<u8>)>, scores: Map<Seq<u8>, Score>, i: int, j: int)
    requires
        is_ranking(ranked, scores),
        0 <= i < ranked.len(),
        0 <= j < ranked.len(),
        ranked[i].1 == ranked[j].1,
    ensures
        i == j,
{
    assert(scores.contains_key(ranked[i].1) && scores.contains_key(ranked[j].1));
    if i < j {
        ranked_by_score(ranked, scores, i, j);
        lex_less_irreflexive(ranked[i].1);
    } else if j < i {
        ranked_by_score(ranked, scores, j, i);
        lex_less_irreflexive(ranked[i].1);
    }
}

/// The member at its place in the ranking is what that place lists.
pub proof fn rank_then_range(ranked: Seq<(i64, Seq<u8>)>, scores: Map<Seq<u8>, Score>, i: int)
    requires
        0 <= i < ranked.len(),
    ensures
        listing(between(ranked, i, i), scores, false) == seq![ranked[i].1],
{
    between_single(ranked, i);
    assert(listing(between(ranked, i, i), scores, false) =~= seq![ranked[i].1]);
}

/// As many members are counted between two ends as are listed.
pub proof fn count_then_list(ranked: Seq<(i64, Seq<u8>)>, scores: Map<Seq<u8>, Score>, min: Bound, max: Bound, count: int)
    requires
        count >= within(ranked, min, max).len(),
    ensures
        listing(page(within(ranked, min, max), 0, count), scores, false).len() == within(ranked, min, max).len(),
        listing(page(within(ranked, min, max), 0, count), scores, true).len() == 2 * within(ranked, min, max).len(),
{
    assert(page(within(ranked, min, max), 0, count) =~= within(ranked, min, max));
}

/// Between no ends are all members.
pub proof fn unbounded_is_all(ranked: Seq<(i64, Seq<u8>)>)
    ensures
        within(ranked, Bound::Unbounded, Bound::Unbounded) == ranked,
    decreases ranked.len(),
{
    reveal(Seq::filter);
    if ranked.len() > 0 {
        unbounded_is_all(ranked.drop_last());
        assert(ranked =~= ranked.drop_last().push(ranked.last()));
    } else {
        assert(within(ranked, Bound::Unbounded, Bound::Unbounded) =~= ranked);
    }
}

/// Listing all backwards is listing all, backwards.
pub proof fn reversed_listing(ranked: Seq<(i64, Seq<u8>)>, scores: Map<Seq<u8>, Score>)
    ensures
        listing(between(directed(ranked, true), 0, -1), scores, false) == listing(
            between(directed(ranked, false), 0, -1),
            scores,
            false,
        ).reverse(),
{
    between_whole(ranked);
    between_whole(ranked.reverse());
    assert(listing(ranked.reverse(), scores, false) =~= listing(ranked, scores, false).reverse());
}

/// One page and the next are both pages in one.
pub proof fn pages_join<A>(items: Seq<A>, offset: int, a: int, b: int)
    requires
        offset >= 0,
        a >= 0,
        b >= 0,
    ensures
        page(items, offset, a) + page(items, offset + a, b) == page(items, offset, a + b),
{
    assert(page(items, offset, a) + page(items, offset + a, b) =~= page(items, offset, a + b));
}

/// A member that was added to a sorted set and taken out again leaves the
/// members and their scores as they were, unless it was there before.
pub proof fn score_then_remove(before: Value, with: Value, after: Value, el: Seq<u8>, s: Score)
    requires
        before.scores() is Some,
        !before.scores()->0.contains_key(el),
        with.scores() == Some(before.scores()->0.insert(el, s)),
        after.scores() == Some(with.scores()->0.remove(el)),
    ensures
        after.scores() == before.scores(),
{
    assert(before.scores()->0.insert(el, s).remove(el) =~= before.scores()->0);
}

/// Numbers that are written in the same bytes are the same.
pub proof fn lemma_le_bytes_injective(a: int, b: int, width: nat)
    requires
        0 <= a < vstd::arithmetic::power::pow(256, width),
        0 <= b < vstd::arithmetic::power::pow(256, width),
        le_bytes(a, width) == le_bytes(b, width),
    ensures
        a == b,
    decreases width,
{
    reveal(vstd::arithmetic::power::pow);
    if width > 0 {
        let n = (width - 1) as nat;
        let x = le_bytes(a, width);
        let y = le_bytes(b, width);
        assert(x[0] == (a % 256) as u8 && y[0] == (b % 256) as u8);
        assert(x.skip(1) =~= le_bytes(a / 256, n));
        assert(y.skip(1) =~= le_bytes(b / 256, n));
        lemma_le_bytes_injective(a / 256, b / 256, n);
    }
}

/// A serialized value and its checksum can be told apart in what was written.
pub proof fn sealed_reads_back(data: Seq<u8>, crc: u64, other: Seq<u8>, other_crc: u64)
    requires
        sealed(data, crc) == sealed(other, other_crc),
    ensures
        data == other,
        crc == other_crc,
{
    lemma_le_bytes_len(crc as int, 8);
    lemma_le_bytes_len(other_crc as int, 8);
    let n = data.len() as int;
    assert(sealed(data, crc).len() == data.len() + 8);
    assert(sealed(other, other_crc).len() == other.len() + 8);
    assert(sealed(data, crc).take(n) =~= data);
    assert(sealed(other, other_crc).take(n) =~= other);
    assert(sealed(data, crc).skip(n) =~= le_bytes(crc as int, 8));
    assert(sealed(other, other_crc).skip(n) =~= le_bytes(other_crc as int, 8));
    assert(vstd::arithmetic::power::pow(256, 8) == 0x1_0000_0000_0000_0000int) by {
        reveal_with_fuel(vstd::arithmetic::power::pow, 9);
    }
    lemma_le_bytes_injective(crc as int, other_crc as int, 8);
}

/// Where a written byte string ends can be told from what was written, and
/// which it is.
pub proof fn slice_reads_back(a: Seq<u8>, after_a: Seq<u8>, b: Seq<u8>, after_b: Seq<u8>)
    requires
        length_fits(a.len()),
        length_fits(b.len()),
        slice_code(a) + after_a == slice_code(b) + after_b,
    ensures
        a == b,
        after_a == after_b,
{
    let x = slice_code(a) + after_a;
    let y = slice_code(b) + after_b;
    let n = length_code(a.len()).len() as int;
    let m = length_code(b.len()).len() as int;
    assert forall|i: int| 0 <= i < n implies x[i] == length_code(a.len())[i] by {}
    assert forall|i: int| 0 <= i < m implies y[i] == length_code(b.len())[i] by {}
    assert(x[0] == length_code(a.len())[0] && y[0] == length_code(b.len())[0]);
    assert(n == m);
    if n == 2 {
        assert(x[1] == length_code(a.len())[1] && y[1] == length_code(b.len())[1]);
    } else if n == 5 {
        assert(x[1] == length_code(a.len())[1] && y[1] == length_code(b.len())[1]);
        assert(x[2] == length_code(a.len())[2] && y[2] == length_code(b.len())[2]);
        assert(x[3] == length_code(a.len())[3] && y[3] == length_code(b.len())[3]);
        assert(x[4] == length_code(a.len())[4] && y[4] == length_code(b.len())[4]);
    }
    assert(a.len() == b.len());
    assert(x.subrange(n, n + a.len()) =~= a);
    assert(y.subrange(n, n + a.len()) =~= b);
    assert(x.skip(n + a.len()) =~= after_a);
    assert(y.skip(n + a.len()) =~= after_b);
}

/// The first of several written byte strings comes first.
pub proof fn lemma_slices_first(items: Seq<Seq<u8>>)
    requires
        items.len() > 0,
    ensures
        slices_code(items) == slice_code(items[0]) + slices_code(items.skip(1)),
    decreases items.len(),
{
    if items.len() == 1 {
        assert(items.drop_last() =~= Seq::<Seq<u8>>::empty());
        assert(items.skip(1) =~= Seq::<Seq<u8>>::empty());
        assert(slices_code(items) =~= slice_code(items[0]) + slices_code(items.skip(1)));
    } else {
        lemma_slices_first(items.drop_last());
        assert(items.drop_last().skip(1) =~= items.skip(1).drop_last());
        assert(slices_code(items) =~= slice_code(items[0]) + slices_code(items.skip(1)));
    }
}

/// Several written byte strings can be told from what was written, if it is
/// known how many they are.
pub proof fn slices_read_back(a: Seq<Seq<u8>>, b: Seq<Seq<u8>>)
    requires
        slices_fit(a),
        slices_fit(b),
        a.len() == b.len(),
        slices_code(a) == slices_code(b),
    ensures
        a == b,
    decreases a.len(),
{
    if a.len() == 0 {
        assert(a =~= b);
    } else {
        lemma_slices_first(a);
        lemma_slices_first(b);
        assert(length_fits(a[0].len()) && length_fits(b[0].len()));
        slice_reads_back(a[0], slices_code(a.skip(1)), b[0], slices_code(b.skip(1)));
        assert forall|i: int| 0 <= i < a.skip(1).len() implies length_fits(#[trigger] a.skip(1)[i].len()) by {
            assert(length_fits(a[i + 1].len()));
        }
        assert forall|i: int| 0 <= i < b.skip(1).len() implies length_fits(#[trigger] b.skip(1)[i].len()) by {
            assert(length_fits(b[i + 1].len()));
        }
        slices_read_back(a.skip(1), b.skip(1));
        assert(a =~= seq![a[0]] + a.skip(1));
        assert(b =~= seq![b[0]] + b.skip(1));
    }
}

/// A value that a key was given is what is found under it until it expires,
/// and nothing else changes.
pub proof fn store_then_find(db: DatabaseView, index: int, key: Seq<u8>, value: Value, now: i64, other_index: int, other: Seq<u8>)
    requires
        0 <= index < db.data.len(),
        0 <= other_index < db.data.len(),
    ensures
        db.with_value(index, key, value).found(index, key, now) == if db.expired(index, key, now) {
            None
        } else {
            Some(value)
        },
        (other_index, other) != (index, key) ==> db.with_value(index, key, value).found(other_index, other, now) == db.found(
            other_index,
            other,
            now,
        ),
{
}

/// A key that was taken out is not found, at whatever time, and nothing else
/// changes. A value that it is given again does not expire.
pub proof fn remove_then_find(db: DatabaseView, index: int, key: Seq<u8>, value: Value, now: i64, other_index: int, other: Seq<u8>)
    requires
        0 <= index < db.data.len(),
        db.expirations.len() == db.data.len(),
        0 <= other_index < db.data.len(),
    ensures
        db.without_key(index, key).found(index, key, now) is None,
        db.without_key(index, key).with_value(index, key, value).found(index, key, now) == Some(value),
        (other_index, other) != (index, key) ==> db.without_key(index, key).found(other_index, other, now) == db.found(
            other_index,
            other,
            now,
        ),
{
}

/// A value is found before it expires and not from then on.
pub proof fn expire_then_find(db: DatabaseView, index: int, key: Seq<u8>, ms: i64, now: i64)
    requires
        0 <= index < db.data.len(),
        db.expirations.len() == db.data.len(),
        db.data[index].contains_key(key),
    ensures
        db.with_expiration(index, key, ms).found(index, key, now) == if now < ms {
            Some(db.data[index][key])
        } else {
            None
        },
        db.with_expiration(index, key, ms).without_expiration(index, key).found(index, key, now) == Some(db.data[index][key]),
{
}

/// In a database that was cleared nothing is found, at whatever time, and in
/// the others all is found as before.
pub proof fn clear_then_find(db: DatabaseView, index: int, key: Seq<u8>, now: i64, other_index: int)
    requires
        0 <= index < db.data.len(),
        0 <= other_index < db.data.len(),
    ensures
        db.cleared(index).found(index, key, now) is None,
        other_index != index ==> db.cleared(index).found(other_index, key, now) == db.found(other_index, key, now),
        db.cleared_all().found(index, key, now) is None,
{
}

/// What has expired stays so.
pub proof fn expired_for_good(db: DatabaseView, index: int, key: Seq<u8>, now: i64, later: i64)
    requires
        db.expired(index, key, now),
        now <= later,
    ensures
        db.expired(index, key, later),
        db.found(index, key, later) is None,
{
}

/// No listener has the number that the next one gets.
pub proof fn next_number_is_new(db: Database, name: Seq<u8>, index: int)
    requires
        db.wf(),
        0 <= index < db@.watchers.len(),
    ensures
        !roster(db@.channels, name).contains_key(db@.next_id),
        !roster(db@.patterns, name).contains_key(db@.next_id),
        !roster(db@.watchers[index], name).contains_key(db@.next_id),
{
    if db.subscribers@.contains_key(name) {
        assert(db.subscribers@[name].below(db.subscriber_id));
    }
    if db.pattern_subscribers@.contains_key(name) {
        assert(db.pattern_subscribers@[name].below(db.subscriber_id));
    }
    assert(db.key_subscribers@[index].wf());
    if db.key_subscribers@[index]@.contains_key(name) {
        assert(db.key_subscribers@[index]@[name].below(db.subscriber_id));
    }
}

/// Who begins to listen and stops again leaves all others listening, and none
/// but them.
pub proof fn subscribe_then_unsubscribe<T>(m: Map<Seq<u8>, Map<usize, Sender<T>>>, name: Seq<u8>, id: usize, sender: Sender<T>, other: Seq<u8>)
    requires
        !roster(m, name).contains_key(id),
    ensures
        roster(without_listeners(m.insert(name, roster(m, name).insert(id, sender)), name, set![id]), other) == roster(m, other),
{
    let after = without_listeners(m.insert(name, roster(m, name).insert(id, sender)), name, set![id]);
    assert(roster(after, name) =~= roster(m, name));
}

} // verus!
