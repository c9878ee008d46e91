//! What holds over any number of operations on a database.

use std::sync::mpsc::Sender;
use vstd::prelude::*;

use crate::database::{roster, DatabaseView};
use crate::pubsub::PubsubEvent;
use crate::value::Value;

verus! {

/// A change to a database.
pub enum Change {
    /// `subscribe`
    Subscribe(Seq<u8>, Sender<Option<PubsubEvent>>),
    /// `psubscribe`
    PatternSubscribe(Seq<u8>, Sender<Option<PubsubEvent>>),
    /// `key_subscribe`
    KeySubscribe(int, Seq<u8>, Sender<bool>),
    /// `unsubscribe`
    Unsubscribe(Seq<u8>, usize),
    /// `punsubscribe`
    PatternUnsubscribe(Seq<u8>, usize),
    /// `key_publish`, with those who no longer listen after it
    KeyPublish(int, Seq<u8>, Set<usize>),
    /// `get_mut` and `get_or_create`, with the value that is there after it
    Store(int, Seq<u8>, Value),
    /// `remove`, and `get_mut` of what has expired
    Remove(int, Seq<u8>),
    /// `set_msexpiration`
    SetExpiration(int, Seq<u8>, i64),
    /// `remove_msexpiration`
    RemoveExpiration(int, Seq<u8>),
    /// `clear`
    Clear(int),
    /// `clearall`
    ClearAll,
}

impl Change {
    /// Whether someone begins to listen, and gets a number.
    pub open spec fn subscribes(self) -> bool {
        self is Subscribe || self is PatternSubscribe || self is KeySubscribe
    }

    /// Whether the database has the keys that someone begins or ceases to
    /// listen to.
    pub open spec fn applies(self, db: DatabaseView) -> bool {
        match self {
            Change::KeySubscribe(index, _, _) => 0 <= index < db.watchers.len(),
            Change::KeyPublish(index, _, _) => 0 <= index < db.watchers.len(),
            _ => true,
        }
    }
}

/// The database after a change.
pub open spec fn after(db: DatabaseView, change: Change) -> DatabaseView {
    match change {
        Change::Subscribe(channel, sender) => db.with_channel_listener(channel, sender),
        Change::PatternSubscribe(pattern, sender) => db.with_pattern_listener(pattern, sender),
        Change::KeySubscribe(index, key, sender) => db.with_watcher(index, key, sender),
        Change::Unsubscribe(channel, id) => db.without_channel_listener(channel, id),
        Change::PatternUnsubscribe(pattern, id) => db.without_pattern_listener(pattern, id),
        Change::KeyPublish(index, key, gone) => db.without_watchers(index, key, gone),
        Change::Store(index, key, value) => db.with_value(index, key, value),
        Change::Remove(index, key) => db.without_key(index, key),
        Change::SetExpiration(index, key, ms) => db.with_expiration(index, key, ms),
        Change::RemoveExpiration(index, key) => db.without_expiration(index, key),
        Change::Clear(index) => db.cleared(index),
        Change::ClearAll => db.cleared_all(),
    }
}

/// The database after several changes.
pub open spec fn after_all(db: DatabaseView, changes: Seq<Change>) -> DatabaseView
    decreases changes.len(),
{
    if changes.len() == 0 {
        db
    } else {
        after(after_all(db, changes.drop_last()), changes.last())
    }
}

/// How often someone begins to listen.
pub open spec fn subscriptions(changes: Seq<Change>) -> nat
    decreases changes.len(),
{
    if changes.len() == 0 {
        0
    } else {
        subscriptions(changes.drop_last()) + if changes.last().subscribes() { 1nat } else { 0nat }
    }
}

/// The number that who begins to listen with one of the changes gets.
pub open spec fn number_given(db: DatabaseView, changes: Seq<Change>, i: int) -> usize {
    after_all(db, changes.take(i)).next_id
}

/// To begin to listen to a channel, a pattern or a key raises the next number
/// by one. No other change touches it.
pub proof fn next_number_after(db: DatabaseView, change: Change)
    requires
        db.next_id < usize::MAX,
    ensures
        after(db, change).next_id == db.next_id + if change.subscribes() { 1int } else { 0int },
{
}

/// No more begin to listen with the first changes than with all.
pub proof fn lemma_subscriptions_take(changes: Seq<Change>, i: int)
    requires
        0 <= i <= changes.len(),
    ensures
        subscriptions(changes.take(i)) <= subscriptions(changes),
        i < changes.len() && changes[i].subscribes() ==> subscriptions(changes.take(i)) < subscriptions(changes),
    decreases changes.len(),
{
    if i == changes.len() {
        assert(changes.take(i) =~= changes);
    } else {
        let front = changes.drop_last();
        assert(changes.take(i) =~= front.take(i));
        lemma_subscriptions_take(front, i);
    }
}

/// The next number has been raised as often as someone has begun to listen.
pub proof fn next_number_counts(db: DatabaseView, changes: Seq<Change>)
    requires
        db.next_id + subscriptions(changes) <= usize::MAX,
    ensures
        after_all(db, changes).next_id == db.next_id + subscriptions(changes),
    decreases changes.len(),
{
    if changes.len() > 0 {
        next_number_counts(db, changes.drop_last());
    }
}

/// Who begins to listen gets as a number how many have begun before, in
/// whatever way and whether they still listen or not, counted from the number
/// that was next at first. In a new database that is zero.
pub proof fn number_is_count(db: DatabaseView, changes: Seq<Change>, i: int)
    requires
        0 <= i < changes.len(),
        changes[i].subscribes(),
        db.next_id + subscriptions(changes) <= usize::MAX,
    ensures
        number_given(db, changes, i) == db.next_id + subscriptions(changes.take(i)),
{
    lemma_subscriptions_take(changes, i);
    next_number_counts(db, changes.take(i));
}

/// No number is given twice, whatever happens in between: who begins to listen
/// later gets a larger one.
pub proof fn numbers_never_repeat(db: DatabaseView, changes: Seq<Change>, i: int, j: int)
    requires
        0 <= i < j < changes.len(),
        changes[i].subscribes(),
        changes[j].subscribes(),
        db.next_id + subscriptions(changes) <= usize::MAX,
    ensures
        number_given(db, changes, i) < number_given(db, changes, j),
{
    number_is_count(db, changes, i);
    number_is_count(db, changes, j);
    let first = changes.take(j);
    assert(first.take(i) =~= changes.take(i));
    assert(first[i] == changes[i]);
    lemma_subscriptions_take(first, i);
}

/// Who listens to a channel goes on to, with the same sender, until it is made
/// to stop, whoever else begins or ceases to listen.
pub proof fn channel_listener_stays(db: DatabaseView, changes: Seq<Change>, channel: Seq<u8>, id: usize)
    requires
        id < db.next_id,
        db.next_id + subscriptions(changes) <= usize::MAX,
        roster(db.channels, channel).contains_key(id),
        !changes.contains(Change::Unsubscribe(channel, id)),
    ensures
        roster(after_all(db, changes).channels, channel).contains_key(id),
        roster(after_all(db, changes).channels, channel)[id] == roster(db.channels, channel)[id],
    decreases changes.len(),
{
    if changes.len() > 0 {
        let front = changes.drop_last();
        assert forall|c: Change| front.contains(c) implies changes.contains(c) by {
            let i = front.index_of(c);
            assert(changes[i] == c);
        }
        assert(changes[changes.len() - 1] == changes.last());
        channel_listener_stays(db, front, channel, id);
        next_number_counts(db, front);
    }
}

/// Who listens to a pattern goes on to, with the same sender, until it is made
/// to stop, whoever else begins or ceases to listen.
pub proof fn pattern_listener_stays(db: DatabaseView, changes: Seq<Change>, pattern: Seq<u8>, id: usize)
    requires
        id < db.next_id,
        db.next_id + subscriptions(changes) <= usize::MAX,
        roster(db.patterns, pattern).contains_key(id),
        !changes.contains(Change::PatternUnsubscribe(pattern, id)),
    ensures
        roster(after_all(db, changes).patterns, pattern).contains_key(id),
        roster(after_all(db, changes).patterns, pattern)[id] == roster(db.patterns, pattern)[id],
    decreases changes.len(),
{
    if changes.len() > 0 {
        let front = changes.drop_last();
        assert forall|c: Change| front.contains(c) implies changes.contains(c) by {
            let i = front.index_of(c);
            assert(changes[i] == c);
        }
        assert(changes[changes.len() - 1] == changes.last());
        pattern_listener_stays(db, front, pattern, id);
        next_number_counts(db, front);
    }
}

/// Who listens to a key goes on to, with the same sender, until a send to it
/// has failed, whoever else begins or ceases to listen.
pub proof fn key_listener_stays(db: DatabaseView, changes: Seq<Change>, index: int, key: Seq<u8>, id: usize)
    requires
        id < db.next_id,
        db.next_id + subscriptions(changes) <= usize::MAX,
        0 <= index < db.watchers.len(),
        roster(db.watchers[index], key).contains_key(id),
        forall|i: int| 0 <= i < changes.len() ==> (#[trigger] changes[i]).applies(db),
        forall|i: int|
            0 <= i < changes.len() ==> match #[trigger] changes[i] {
                Change::KeyPublish(at, name, gone) => at == index && name == key ==> !gone.contains(id),
                _ => true,
            },
    ensures
        after_all(db, changes).watchers.len() == db.watchers.len(),
        roster(after_all(db, changes).watchers[index], key).contains_key(id),
        roster(after_all(db, changes).watchers[index], key)[id] == roster(db.watchers[index], key)[id],
    decreases changes.len(),
{
    if changes.len() > 0 {
        let front = changes.drop_last();
        assert forall|i: int| 0 <= i < front.len() implies (#[trigger] front[i]).applies(db) && match front[i] {
            Change::KeyPublish(at, name, gone) => at == index && name == key ==> !gone.contains(id),
            _ => true,
        } by {
            assert(front[i] == changes[i]);
        }
        key_listener_stays(db, front, index, key, id);
        next_number_counts(db, front);
        assert(changes[changes.len() - 1] == changes.last());
        assert(changes.last().applies(db));
    }
}

/// Changes happen one after the other, and how often someone begins to listen
/// adds up.
pub proof fn changes_by_parts(db: DatabaseView, a: Seq<Change>, b: Seq<Change>, change: Change)
    ensures
        after_all(db, Seq::empty()) == db,
        after_all(db, seq![change]) == after(db, change),
        after_all(db, a + b) == after_all(after_all(db, a), b),
        subscriptions(Seq::empty()) == 0,
        subscriptions(seq![change]) == if change is Subscribe || change is PatternSubscribe || change is KeySubscribe { 1nat } else { 0nat },
        subscriptions(a + b) == subscriptions(a) + subscriptions(b),
    decreases b.len(),
{
    reveal_with_fuel(after_all, 2);
    reveal_with_fuel(subscriptions, 2);
    assert(seq![change].drop_last() =~= Seq::<Change>::empty());
    if b.len() == 0 {
        assert(a + b =~= a);
    } else {
        assert((a + b).drop_last() =~= a + b.drop_last());
        assert((a + b).last() == b.last());
        changes_by_parts(db, a, b.drop_last(), change);
    }
}

} // verus!
