//! The database: values under keys, expirations, and those who listen.

use std::sync::mpsc::Sender;
use vstd::prelude::*;

use crate::adapters::channel::send;
use crate::adapters::clock::{clock_reading, time};
use crate::assoc::texts;
use crate::bytemap::ByteMap;
use crate::config::{word_of, Config};
use crate::glob::{glob, glob_match};
use crate::lex::copy;
use crate::listeners::{failed, Listeners};
use crate::pubsub::{message_event, PubsubEvent};
use crate::table::{stepped, Table};
use crate::value::Value;

verus! {

/// Several databases, each of which has values under keys.
pub struct Database {
    pub config: Config,
    /// The value of each key.
    pub data: Vec<Table<Value>>,
    /// When the value of a key expires, in milliseconds.
    pub data_expiration_ms: Vec<Table<i64>>,
    /// Who listens to a channel.
    pub subscribers: ByteMap<Listeners<Option<PubsubEvent>>>,
    /// Who listens to a pattern of channels.
    pub pattern_subscribers: ByteMap<Listeners<Option<PubsubEvent>>>,
    /// Who listens to a key.
    pub key_subscribers: Vec<Table<Listeners<bool>>>,
    /// The number of the next listener.
    pub subscriber_id: usize,
}

/// What the databases hold.
#[verifier::ext_equal]
pub struct DatabaseView {
    pub config: Config,
    pub data: Seq<Map<Seq<u8>, Value>>,
    pub expirations: Seq<Map<Seq<u8>, i64>>,
    pub channels: Map<Seq<u8>, Map<usize, Sender<Option<PubsubEvent>>>>,
    pub patterns: Map<Seq<u8>, Map<usize, Sender<Option<PubsubEvent>>>>,
    pub watchers: Seq<Map<Seq<u8>, Map<usize, Sender<bool>>>>,
    pub next_id: usize,
}

/// What each of several tables holds.
pub open spec fn tables<V>(s: Seq<Table<V>>) -> Seq<Map<Seq<u8>, V>> {
    Seq::new(s.len(), |i: int| s[i]@)
}

/// The listeners under each name.
pub open spec fn rosters<T>(m: Map<Seq<u8>, Listeners<T>>) -> Map<Seq<u8>, Map<usize, Sender<T>>> {
    Map::new(|k: Seq<u8>| m.contains_key(k), |k: Seq<u8>| m[k]@)
}

/// The listeners under each name, in each of several tables.
pub open spec fn roster_tables<T>(s: Seq<Table<Listeners<T>>>) -> Seq<Map<Seq<u8>, Map<usize, Sender<T>>>> {
    Seq::new(s.len(), |i: int| rosters(s[i]@))
}

/// The listeners under a name, of which there may be none.
pub open spec fn roster<T>(m: Map<Seq<u8>, Map<usize, Sender<T>>>, name: Seq<u8>) -> Map<usize, Sender<T>> {
    if m.contains_key(name) {
        m[name]
    } else {
        Map::empty()
    }
}

/// The listeners under each name, without some of those under one.
pub open spec fn without_listeners<T>(
    m: Map<Seq<u8>, Map<usize, Sender<T>>>,
    name: Seq<u8>,
    gone: Set<usize>,
) -> Map<Seq<u8>, Map<usize, Sender<T>>> {
    if m.contains_key(name) {
        m.insert(name, m[name].remove_keys(gone))
    } else {
        m
    }
}

/// Whether all listeners are valid and have numbers below another.
pub open spec fn rosters_wf<T>(m: Map<Seq<u8>, Listeners<T>>, next_id: usize) -> bool {
    forall|k: Seq<u8>| #[trigger] m.contains_key(k) ==> m[k].wf() && m[k].below(next_id)
}

/// Whether all values are valid.
pub open spec fn values_wf(m: Map<Seq<u8>, Value>) -> bool {
    forall|k: Seq<u8>| #[trigger] m.contains_key(k) ==> m[k].wf()
}

/// Changing the listeners under a name changes them in the rosters.
pub proof fn lemma_rosters_insert<T>(m: Map<Seq<u8>, Listeners<T>>, name: Seq<u8>, l: Listeners<T>)
    ensures
        rosters(m.insert(name, l)) == rosters(m).insert(name, l@),
{
    assert(rosters(m.insert(name, l)) =~= rosters(m).insert(name, l@));
}

/// Listeners with numbers below one are below every larger one.
pub proof fn lemma_rosters_wf<T>(m: Map<Seq<u8>, Listeners<T>>, a: usize, b: usize)
    requires
        rosters_wf(m, a),
        a <= b,
    ensures
        rosters_wf(m, b),
{
}

/// Senders, each with the pattern by which it is reached.
pub open spec fn stamped<T>(senders: Seq<Sender<T>>, pattern: Option<Seq<u8>>) -> Seq<(Sender<T>, Option<Seq<u8>>)> {
    Seq::new(senders.len(), |i: int| (senders[i], pattern))
}

/// Those whom the first patterns reach that stand for a channel.
pub open spec fn reached<T>(patterns: Seq<Seq<u8>>, listeners: Seq<Listeners<T>>, channel: Seq<u8>, first: nat) -> Seq<
    (Sender<T>, Option<Seq<u8>>),
>
    decreases first,
{
    if first == 0 {
        Seq::empty()
    } else {
        reached(patterns, listeners, channel, (first - 1) as nat) + if glob(patterns[first - 1], channel) {
            stamped(listeners[first - 1].senders@, Some(patterns[first - 1]))
        } else {
            Seq::empty()
        }
    }
}

/// Whether a reference to a sender, with one to a pattern, stands for a sender
/// that is reached by that pattern.
pub open spec fn is_recipient<T>(r: (&Sender<T>, Option<&Vec<u8>>), to: (Sender<T>, Option<Seq<u8>>)) -> bool {
    &&& *r.0 == to.0
    &&& to.1 == match r.1 {
        Some(p) => Some(p@),
        None => None,
    }
}

/// Whom the first patterns reach is the start of whom more patterns reach.
pub proof fn lemma_reached_prefix<T>(patterns: Seq<Seq<u8>>, listeners: Seq<Listeners<T>>, channel: Seq<u8>, first: nat, last: nat)
    requires
        first <= last,
    ensures
        reached(patterns, listeners, channel, first).len() <= reached(patterns, listeners, channel, last).len(),
        forall|i: int|
            0 <= i < reached(patterns, listeners, channel, first).len() ==> #[trigger] reached(patterns, listeners, channel, first)[i]
                == reached(patterns, listeners, channel, last)[i],
    decreases last - first,
{
    if first < last {
        lemma_reached_prefix(patterns, listeners, channel, first, (last - 1) as nat);
    }
}

/// How many outcomes are good.
pub open spec fn successes(outcomes: Seq<bool>) -> nat
    decreases outcomes.len(),
{
    if outcomes.len() == 0 {
        0
    } else {
        successes(outcomes.drop_last()) + if outcomes.last() { 1nat } else { 0nat }
    }
}

/// No more outcomes are good than there are.
pub proof fn lemma_successes(outcomes: Seq<bool>)
    ensures
        successes(outcomes) <= outcomes.len(),
    decreases outcomes.len(),
{
    if outcomes.len() > 0 {
        lemma_successes(outcomes.drop_last());
    }
}

/// How many outcomes are good.
pub fn count_successes(outcomes: &Vec<bool>) -> (r: usize)
    ensures
        r == successes(outcomes@),
{
    let mut r: usize = 0;
    let mut i: usize = 0;
    while i < outcomes.len()
        invariant
            i <= outcomes.len(),
            r <= i,
            r == successes(outcomes@.take(i as int)),
        decreases outcomes.len() - i,
    {
        if outcomes[i] {
            r += 1;
        }
        i += 1;
        proof {
            assert(outcomes@.take(i as int).drop_last() =~= outcomes@.take(i - 1));
        }
    }
    proof {
        assert(outcomes@.take(i as int) =~= outcomes@);
    }
    r
}

/// Who is reached by a pattern is who listens to one that stands for the
/// channel.
pub proof fn lemma_reached<T>(patterns: Seq<Seq<u8>>, listeners: Seq<Listeners<T>>, channel: Seq<u8>, first: nat, sender: Sender<T>, pattern: Option<Seq<u8>>)
    requires
        first <= patterns.len(),
    ensures
        reached(patterns, listeners, channel, first).contains((sender, pattern)) <==> exists|i: int|
            0 <= i < first && glob(#[trigger] patterns[i], channel) && pattern == Some(patterns[i])
                && listeners[i].senders@.contains(sender),
    decreases first,
{
    let all = reached(patterns, listeners, channel, first);
    let item = (sender, pattern);
    if first > 0 {
        let n = first - 1;
        let fewer = reached(patterns, listeners, channel, n as nat);
        let more = if glob(patterns[n], channel) {
            stamped(listeners[n].senders@, Some(patterns[n]))
        } else {
            Seq::empty()
        };
        lemma_reached(patterns, listeners, channel, n as nat, sender, pattern);
        assert(all == fewer + more);
        if all.contains(item) {
            let k = all.index_of(item);
            assert(all[k] == item);
            if k < fewer.len() {
                assert(fewer[k] == item);
                assert(fewer.contains(item));
            } else {
                assert(more[k - fewer.len()] == item);
                assert(listeners[n].senders@[k - fewer.len()] == sender);
                assert(glob(patterns[n], channel));
            }
        }
        if exists|i: int|
            0 <= i < first && glob(#[trigger] patterns[i], channel) && pattern == Some(patterns[i])
                && listeners[i].senders@.contains(sender) {
            let i = choose|i: int|
                0 <= i < first && glob(#[trigger] patterns[i], channel) && pattern == Some(patterns[i])
                    && listeners[i].senders@.contains(sender);
            if i < n {
                assert(fewer.contains(item));
                let k = fewer.index_of(item);
                assert(all[k] == item);
            } else {
                let k = listeners[n].senders@.index_of(sender);
                assert(more[k] == item);
                assert(all[fewer.len() + k] == item);
            }
        }
    }
}

impl DatabaseView {
    /// Whether the value of a key has expired at a time.
    pub open spec fn expired(self, index: int, key: Seq<u8>, now: i64) -> bool {
        self.expirations[index].contains_key(key) && self.expirations[index][key] <= now
    }

    /// The value of a key at a time. One that has expired is not there.
    pub open spec fn found(self, index: int, key: Seq<u8>, now: i64) -> Option<Value> {
        if self.data[index].contains_key(key) && !self.expired(index, key, now) {
            Some(self.data[index][key])
        } else {
            None
        }
    }

    /// With another value under a key.
    pub open spec fn with_value(self, index: int, key: Seq<u8>, value: Value) -> DatabaseView {
        DatabaseView { data: self.data.update(index, self.data[index].insert(key, value)), ..self }
    }

    /// Without a key, and without its expiration.
    pub open spec fn without_key(self, index: int, key: Seq<u8>) -> DatabaseView {
        DatabaseView {
            data: self.data.update(index, self.data[index].remove(key)),
            expirations: self.expirations.update(index, self.expirations[index].remove(key)),
            ..self
        }
    }

    /// With another expiration of a key.
    pub open spec fn with_expiration(self, index: int, key: Seq<u8>, ms: i64) -> DatabaseView {
        DatabaseView {
            expirations: self.expirations.update(index, self.expirations[index].insert(key, ms)),
            ..self
        }
    }

    /// Without the expiration of a key.
    pub open spec fn without_expiration(self, index: int, key: Seq<u8>) -> DatabaseView {
        DatabaseView { expirations: self.expirations.update(index, self.expirations[index].remove(key)), ..self }
    }

    /// Without the keys of a database.
    pub open spec fn cleared(self, index: int) -> DatabaseView {
        DatabaseView { data: self.data.update(index, Map::empty()), ..self }
    }

    /// Without the keys of all databases.
    pub open spec fn cleared_all(self) -> DatabaseView {
        DatabaseView { data: Seq::new(self.data.len(), |i: int| Map::<Seq<u8>, Value>::empty()), ..self }
    }

    /// With one more who listens to a channel, under the next number.
    pub open spec fn with_channel_listener(self, channel: Seq<u8>, sender: Sender<Option<PubsubEvent>>) -> DatabaseView {
        DatabaseView {
            channels: self.channels.insert(channel, roster(self.channels, channel).insert(self.next_id, sender)),
            next_id: (self.next_id + 1) as usize,
            ..self
        }
    }

    /// With one more who listens to a pattern, under the next number.
    pub open spec fn with_pattern_listener(self, pattern: Seq<u8>, sender: Sender<Option<PubsubEvent>>) -> DatabaseView {
        DatabaseView {
            patterns: self.patterns.insert(pattern, roster(self.patterns, pattern).insert(self.next_id, sender)),
            next_id: (self.next_id + 1) as usize,
            ..self
        }
    }

    /// With one more who listens to a key, under the next number.
    pub open spec fn with_watcher(self, index: int, key: Seq<u8>, sender: Sender<bool>) -> DatabaseView {
        let w = self.watchers[index];
        DatabaseView {
            watchers: self.watchers.update(index, w.insert(key, roster(w, key).insert(self.next_id, sender))),
            next_id: (self.next_id + 1) as usize,
            ..self
        }
    }

    /// Without one of those who listen to a channel.
    pub open spec fn without_channel_listener(self, channel: Seq<u8>, id: usize) -> DatabaseView {
        DatabaseView { channels: without_listeners(self.channels, channel, set![id]), ..self }
    }

    /// Without one of those who listen to a pattern.
    pub open spec fn without_pattern_listener(self, pattern: Seq<u8>, id: usize) -> DatabaseView {
        DatabaseView { patterns: without_listeners(self.patterns, pattern, set![id]), ..self }
    }

    /// Without some of those who listen to a key.
    pub open spec fn without_watchers(self, index: int, key: Seq<u8>, gone: Set<usize>) -> DatabaseView {
        DatabaseView {
            watchers: self.watchers.update(index, without_listeners(self.watchers[index], key, gone)),
            ..self
        }
    }
}

impl View for Database {
    type V = DatabaseView;

    open spec fn view(&self) -> DatabaseView {
        DatabaseView {
            config: self.config,
            data: tables(self.data@),
            expirations: tables(self.data_expiration_ms@),
            channels: rosters(self.subscribers@),
            patterns: rosters(self.pattern_subscribers@),
            watchers: roster_tables(self.key_subscribers@),
            next_id: self.subscriber_id,
        }
    }
}

/// Whether a table is large for what it holds, so that it should be made
/// smaller.
pub fn oversized(len: usize, capacity: usize) -> (r: bool)
    ensures
        r == (len * 10 / 12 < capacity),
{
    (len as u128) * 10 / 12 < capacity as u128
}

/// Whether a table is as it was, but for a move of its keys that has begun if
/// the table is large for what it holds. One that holds any key is; one that
/// holds none may be.
pub open spec fn shrunk<V>(before: Table<V>, after: Table<V>) -> bool {
    &&& after@ == before@
    &&& after.backlog() == before.backlog_begun() || (before@.dom().len() == 0 && after.backlog() == before.backlog())
}

/// Whether `true` was handed to the sender of each listener, with the outcome
/// that it is one of those who no longer listen or not.
pub open spec fn notified(listeners: Map<usize, Sender<bool>>, gone: Set<usize>) -> bool {
    forall|id: usize| #[trigger]
        listeners.contains_key(id) ==> call_ensures(send::<bool>, (&listeners[id], true), !gone.contains(id))
}

/// Whether a message in a channel was handed to a sender, with the pattern by
/// which it is reached, and with that outcome.
pub open spec fn handed_over(
    to: (Sender<Option<PubsubEvent>>, Option<Seq<u8>>),
    channel: Seq<u8>,
    message: Seq<u8>,
    outcome: bool,
) -> bool {
    exists|event: PubsubEvent| #[trigger]
        event.is_message(channel, to.1, message) && call_ensures(
            send::<Option<PubsubEvent>>,
            (&to.0, Some(event)),
            outcome,
        )
}

impl Database {
    /// Whether keys are being moved in each table of a database that has any.
    pub open spec fn moving(&self, index: int) -> bool {
        &&& self.data@[index]@.dom().len() > 0 ==> self.data@[index].backlog() > 0
        &&& self.data_expiration_ms@[index]@.dom().len() > 0 ==> self.data_expiration_ms@[index].backlog() > 0
        &&& self.key_subscribers@[index]@.dom().len() > 0 ==> self.key_subscribers@[index].backlog() > 0
    }

    /// Whether no move of keys has begun in the tables of a database, and those
    /// that were under way have gone on at most.
    pub open spec fn settling(&self, before: Database, index: int) -> bool {
        &&& self.data@[index].backlog() <= before.data@[index].backlog()
        &&& self.data_expiration_ms@[index].backlog() <= before.data_expiration_ms@[index].backlog()
        &&& self.key_subscribers@[index].backlog() <= before.key_subscribers@[index].backlog()
    }

    /// Whether the tables of all databases but one are those of another.
    pub open spec fn same_elsewhere(&self, other: Database, index: int) -> bool {
        forall|i: int|
            0 <= i < self.config.databases && i != index ==> {
                &&& #[trigger] self.data@[i] == other.data@[i]
                &&& self.data_expiration_ms@[i] == other.data_expiration_ms@[i]
                &&& self.key_subscribers@[i] == other.key_subscribers@[i]
            }
    }

    /// There are as many tables as the configuration says, and all tables,
    /// values and listeners are valid.
    pub open spec fn wf(&self) -> bool {
        &&& self.config.wf()
        &&& self.data.len() == self.config.databases
        &&& self.data_expiration_ms.len() == self.config.databases
        &&& self.key_subscribers.len() == self.config.databases
        &&& forall|i: int| 0 <= i < self.data.len() ==> (#[trigger] self.data@[i]).wf() && values_wf(self.data@[i]@)
        &&& forall|i: int| 0 <= i < self.data_expiration_ms.len() ==> (#[trigger] self.data_expiration_ms@[i]).wf()
        &&& forall|i: int|
            0 <= i < self.key_subscribers.len() ==> (#[trigger] self.key_subscribers@[i]).wf() && rosters_wf(
                self.key_subscribers@[i]@,
                self.subscriber_id,
            )
        &&& self.subscribers.wf()
        &&& rosters_wf(self.subscribers@, self.subscriber_id)
        &&& self.pattern_subscribers.wf()
        &&& rosters_wf(self.pattern_subscribers@, self.subscriber_id)
    }

    /// An empty database with a configuration for trials.
    pub fn mock() -> (r: Database)
        ensures
            r.wf(),
            r.config.databases == 16,
            r.config.active_rehashing,
            r.config.rename_commands@ == Map::<Seq<char>, Option<Seq<char>>>::empty(),
            r@.data.len() == 16,
            forall|i: int| 0 <= i < 16 ==> (#[trigger] r@.data[i]) == Map::<Seq<u8>, Value>::empty(),
            forall|i: int| 0 <= i < 16 ==> (#[trigger] r@.expirations[i]) == Map::<Seq<u8>, i64>::empty(),
            forall|i: int|
                0 <= i < 16 ==> (#[trigger] r@.watchers[i]) == Map::<Seq<u8>, Map<usize, Sender<bool>>>::empty(),
            r@.channels == Map::<Seq<u8>, Map<usize, Sender<Option<PubsubEvent>>>>::empty(),
            r@.patterns == Map::<Seq<u8>, Map<usize, Sender<Option<PubsubEvent>>>>::empty(),
            r@.next_id == 0,
    {
        Database::new(Config::mock())
    }

    /// An empty database.
    pub fn new(config: Config) -> (r: Database)
        requires
            config.wf(),
        ensures
            r.wf(),
            r.config == config,
            r@.data.len() == config.databases,
            forall|i: int| 0 <= i < config.databases ==> (#[trigger] r@.data[i]) == Map::<Seq<u8>, Value>::empty(),
            forall|i: int| 0 <= i < config.databases ==> (#[trigger] r@.expirations[i]) == Map::<Seq<u8>, i64>::empty(),
            forall|i: int|
                0 <= i < config.databases ==> (#[trigger] r@.watchers[i]) == Map::<
                    Seq<u8>,
                    Map<usize, Sender<bool>>,
                >::empty(),
            r@.channels == Map::<Seq<u8>, Map<usize, Sender<Option<PubsubEvent>>>>::empty(),
            r@.patterns == Map::<Seq<u8>, Map<usize, Sender<Option<PubsubEvent>>>>::empty(),
            r@.next_id == 0,
    {
        let size: usize = config.databases as usize;
        let mut data: Vec<Table<Value>> = Vec::new();
        let mut data_expiration_ms: Vec<Table<i64>> = Vec::new();
        let mut key_subscribers: Vec<Table<Listeners<bool>>> = Vec::new();
        let mut i: usize = 0;
        while i < size
            invariant
                i <= size,
                data.len() == i,
                data_expiration_ms.len() == i,
                key_subscribers.len() == i,
                forall|j: int| 0 <= j < i ==> (#[trigger] data@[j]).wf() && data@[j]@ == Map::<Seq<u8>, Value>::empty(),
                forall|j: int|
                    0 <= j < i ==> (#[trigger] data_expiration_ms@[j]).wf() && data_expiration_ms@[j]@ == Map::<
                        Seq<u8>,
                        i64,
                    >::empty(),
                forall|j: int|
                    0 <= j < i ==> (#[trigger] key_subscribers@[j]).wf() && key_subscribers@[j]@ == Map::<
                        Seq<u8>,
                        Listeners<bool>,
                    >::empty(),
            decreases size - i,
        {
            data.push(Table::new());
            data_expiration_ms.push(Table::new());
            key_subscribers.push(Table::new());
            i += 1;
        }
        let r = Database {
            config,
            data,
            data_expiration_ms,
            subscribers: ByteMap::new(),
            pattern_subscribers: ByteMap::new(),
            key_subscribers,
            subscriber_id: 0,
        };
        proof {
            assert(r@.channels =~= Map::<Seq<u8>, Map<usize, Sender<Option<PubsubEvent>>>>::empty());
            assert(r@.patterns =~= Map::<Seq<u8>, Map<usize, Sender<Option<PubsubEvent>>>>::empty());
            assert forall|i: int| 0 <= i < r.config.databases implies (#[trigger] r@.watchers[i]) == Map::<
                Seq<u8>,
                Map<usize, Sender<bool>>,
            >::empty() by {
                assert(r.key_subscribers@[i]@ == Map::<Seq<u8>, Listeners<bool>>::empty());
                assert(r@.watchers[i] =~= Map::<Seq<u8>, Map<usize, Sender<bool>>>::empty());
            }
            assert forall|i: int| 0 <= i < r.config.databases implies (#[trigger] r@.data[i]) == Map::<Seq<u8>, Value>::empty() by {
                assert(r.data@[i]@ == Map::<Seq<u8>, Value>::empty());
            }
            assert forall|i: int| 0 <= i < r.config.databases implies (#[trigger] r@.expirations[i]) == Map::<Seq<u8>, i64>::empty() by {
                assert(r.data_expiration_ms@[i]@ == Map::<Seq<u8>, i64>::empty());
            }
        }
        r
    }

    /// Whether the value of a key has expired at a time.
    pub fn is_expired_at(&self, index: usize, key: &Vec<u8>, now: i64) -> (r: bool)
        requires
            self.wf(),
            index < self.config.databases,
        ensures
            r == self@.expired(index as int, key@, now),
    {
        match self.data_expiration_ms[index].get(key) {
            Some(t) => *t <= now,
            None => false,
        }
    }

    /// Whether the value of a key has expired.
    pub fn is_expired(&self, index: usize, key: &Vec<u8>) -> (r: bool)
        requires
            self.wf(),
            index < self.config.databases,
        ensures
            exists|now: i64| clock_reading(now) && r == #[trigger] self@.expired(index as int, key@, now),
    {
        let now: i64 = time();
        self.is_expired_at(index, key, now)
    }

    /// The value of a key at a time, if it is there and has not expired.
    pub fn get_at(&self, index: usize, key: &Vec<u8>, now: i64) -> (r: Option<&Value>)
        requires
            self.wf(),
            index < self.config.databases,
        ensures
            match r {
                Some(v) => self@.found(index as int, key@, now) == Some(*v) && v.wf(),
                None => self@.found(index as int, key@, now) is None,
            },
    {
        if self.is_expired_at(index, key, now) {
            None
        } else {
            self.data[index].get(key)
        }
    }

    /// The value of a key, if it is there and has not expired.
    pub fn get(&self, index: usize, key: &Vec<u8>) -> (r: Option<&Value>)
        requires
            self.wf(),
            index < self.config.databases,
        ensures
            exists|now: i64|
                clock_reading(now) && match r {
                    Some(v) => (#[trigger] self@.found(index as int, key@, now)) == Some(*v) && v.wf(),
                    None => self@.found(index as int, key@, now) is None,
                },
    {
        let now: i64 = time();
        self.get_at(index, key, now)
    }

    /// Makes the tables of a database smaller that are large for what they
    /// hold.
    fn shrink(&mut self, index: usize)
        requires
            old(self).wf(),
            index < old(self).config.databases,
        ensures
            final(self).wf(),
            final(self)@ == old(self)@,
            shrunk(old(self).data@[index as int], final(self).data@[index as int]),
            shrunk(old(self).data_expiration_ms@[index as int], final(self).data_expiration_ms@[index as int]),
            shrunk(old(self).key_subscribers@[index as int], final(self).key_subscribers@[index as int]),
            final(self).same_elsewhere(*old(self), index as int),
    {
        let ghost before = *self;
        if oversized(self.data[index].len(), self.data[index].capacity()) {
            self.data[index].shrink_to_fit();
        }
        if oversized(self.data_expiration_ms[index].len(), self.data_expiration_ms[index].capacity()) {
            self.data_expiration_ms[index].shrink_to_fit();
        }
        if oversized(self.key_subscribers[index].len(), self.key_subscribers[index].capacity()) {
            self.key_subscribers[index].shrink_to_fit();
        }
        proof {
            assert(self@.data =~= before@.data);
            assert(self@.expirations =~= before@.expirations);
            assert(self@.watchers =~= before@.watchers);
        }
    }

    /// Takes out a key at a time, with its expiration. Returns the value that
    /// it had, if that had not expired. With active rehashing the tables begin
    /// to give memory back.
    pub fn remove_at(&mut self, index: usize, key: &Vec<u8>, now: i64) -> (r: Option<Value>)
        requires
            old(self).wf(),
            index < old(self).config.databases,
        ensures
            final(self).wf(),
            final(self)@ == old(self)@.without_key(index as int, key@),
            r == old(self)@.found(index as int, key@, now),
            old(self).config.active_rehashing ==> final(self).moving(index as int),
            !old(self).config.active_rehashing ==> final(self).settling(*old(self), index as int),
            final(self).same_elsewhere(*old(self), index as int),
    {
        let ghost before = *self;
        let mut r = self.data[index].remove(key);
        if self.is_expired_at(index, key, now) {
            r = None;
        }
        self.data_expiration_ms[index].remove(key);
        proof {
            assert(self@.data =~= before@.without_key(index as int, key@).data);
            assert(self@.expirations =~= before@.without_key(index as int, key@).expirations);
        }
        if self.config.active_rehashing {
            self.shrink(index);
        }
        r
    }

    /// Takes out a key, with its expiration. Returns the value that it had, if
    /// that had not expired. With active rehashing the tables begin to give
    /// memory back.
    pub fn remove(&mut self, index: usize, key: &Vec<u8>) -> (r: Option<Value>)
        requires
            old(self).wf(),
            index < old(self).config.databases,
        ensures
            final(self).wf(),
            final(self)@ == old(self)@.without_key(index as int, key@),
            exists|now: i64| clock_reading(now) && r == #[trigger] old(self)@.found(index as int, key@, now),
            old(self).config.active_rehashing ==> final(self).moving(index as int),
            !old(self).config.active_rehashing ==> final(self).settling(*old(self), index as int),
            final(self).same_elsewhere(*old(self), index as int),
    {
        let now: i64 = time();
        self.remove_at(index, key, now)
    }

    /// The value of a key at a time, to be changed in place. One that has
    /// expired is taken out.
    pub fn get_mut_at(&mut self, index: usize, key: &Vec<u8>, now: i64) -> (r: Option<&mut Value>)
        requires
            old(self).wf(),
            index < old(self).config.databases,
        ensures
            final(self).same_elsewhere(*old(self), index as int),
            if old(self)@.expired(index as int, key@, now) {
                if old(self).config.active_rehashing {
                    final(self).moving(index as int)
                } else {
                    final(self).settling(*old(self), index as int)
                }
            } else {
                final(self).data@[index as int].backlog() == stepped(old(self).data@[index as int].backlog())
            },
            match r {
                Some(v) => {
                    &&& old(self)@.found(index as int, key@, now) == Some(*v)
                    &&& v.wf()
                    &&& final(self)@ == old(self)@.with_value(index as int, key@, *final(v))
                    &&& final(v).wf() ==> final(self).wf()
                },
                None => {
                    &&& old(self)@.found(index as int, key@, now) is None
                    &&& final(self).wf()
                    &&& final(self)@ == if old(self)@.expired(index as int, key@, now) {
                        old(self)@.without_key(index as int, key@)
                    } else {
                        old(self)@
                    }
                },
            },
    {
        if self.is_expired_at(index, key, now) {
            self.remove_at(index, key, now);
            None
        } else {
            self.entry(index, key)
        }
    }

    /// The value of a key, to be changed in place, whether it has expired or
    /// not.
    fn entry(&mut self, index: usize, key: &Vec<u8>) -> (r: Option<&mut Value>)
        requires
            old(self).wf(),
            index < old(self).config.databases,
        ensures
            final(self).same_elsewhere(*old(self), index as int),
            final(self).settling(*old(self), index as int),
            final(self).data@[index as int].backlog() == stepped(old(self).data@[index as int].backlog()),
            match r {
                Some(v) => {
                    &&& old(self)@.data[index as int].contains_key(key@)
                    &&& *v == old(self)@.data[index as int][key@]
                    &&& v.wf()
                    &&& final(self)@ == old(self)@.with_value(index as int, key@, *final(v))
                    &&& final(v).wf() ==> final(self).wf()
                },
                None => {
                    &&& !old(self)@.data[index as int].contains_key(key@)
                    &&& final(self).wf()
                    &&& final(self)@ == old(self)@
                },
            },
    {
        let ghost before = *self;
        proof {
            assert forall|t: Table<Value>| #[trigger] tables(before.data@.update(index as int, t)) == before@.data.update(
                index as int,
                t@,
            ) by {
                assert(tables(before.data@.update(index as int, t)) =~= before@.data.update(index as int, t@));
            }
            assert(before@.data.update(index as int, before@.data[index as int]) =~= before@.data);
        }
        self.data[index].get_mut(key)
    }

    /// The value of a key, to be changed in place, if it is there and has not
    /// expired. One that has expired is taken out.
    pub fn get_mut(&mut self, index: usize, key: &Vec<u8>) -> (r: Option<&mut Value>)
        requires
            old(self).wf(),
            index < old(self).config.databases,
        ensures
            match r {
                Some(v) => {
                    &&& exists|now: i64|
                        clock_reading(now) && (#[trigger] old(self)@.found(index as int, key@, now)) == Some(*v)
                    &&& final(self).same_elsewhere(*old(self), index as int)
                    &&& final(self).data@[index as int].backlog() == stepped(old(self).data@[index as int].backlog())
                    &&& v.wf()
                    &&& final(self)@ == old(self)@.with_value(index as int, key@, *final(v))
                    &&& final(v).wf() ==> final(self).wf()
                },
                None => {
                    &&& final(self).wf()
                    &&& final(self).same_elsewhere(*old(self), index as int)
                    &&& exists|now: i64|
                        {
                            &&& clock_reading(now)
                            &&& (#[trigger] old(self)@.found(index as int, key@, now)) is None
                            &&& if old(self)@.expired(index as int, key@, now) {
                                if old(self).config.active_rehashing {
                                    final(self).moving(index as int)
                                } else {
                                    final(self).settling(*old(self), index as int)
                                }
                            } else {
                                final(self).data@[index as int].backlog() == stepped(
                                    old(self).data@[index as int].backlog(),
                                )
                            }
                            &&& final(self)@ == if old(self)@.expired(index as int, key@, now) {
                                old(self)@.without_key(index as int, key@)
                            } else {
                                old(self)@
                            }
                        }
                },
            },
    {
        let now: i64 = time();
        self.get_mut_at(index, key, now)
    }

    /// Sets when the value of a key expires.
    pub fn set_msexpiration(&mut self, index: usize, key: Vec<u8>, msexpiration: i64)
        requires
            old(self).wf(),
            index < old(self).config.databases,
        ensures
            final(self).wf(),
            final(self)@ == old(self)@.with_expiration(index as int, key@, msexpiration),
            final(self).settling(*old(self), index as int),
            final(self).same_elsewhere(*old(self), index as int),
    {
        let ghost before = *self;
        let ghost text = key@;
        self.data_expiration_ms[index].insert(key, msexpiration);
        proof {
            assert(self@.expirations =~= before@.with_expiration(index as int, text, msexpiration).expirations);
        }
    }

    /// When the value of a key expires.
    pub fn get_msexpiration(&mut self, index: usize, key: &Vec<u8>) -> (r: Option<&i64>)
        requires
            old(self).wf(),
            index < old(self).config.databases,
        ensures
            *final(self) == *old(self),
            match r {
                Some(t) => old(self)@.expirations[index as int].contains_key(key@) && *t
                    == old(self)@.expirations[index as int][key@],
                None => !old(self)@.expirations[index as int].contains_key(key@),
            },
    {
        self.data_expiration_ms[index].get(key)
    }

    /// Lets the value of a key no longer expire. Returns when it would have.
    pub fn remove_msexpiration(&mut self, index: usize, key: &Vec<u8>) -> (r: Option<i64>)
        requires
            old(self).wf(),
            index < old(self).config.databases,
        ensures
            final(self).wf(),
            final(self)@ == old(self)@.without_expiration(index as int, key@),
            final(self).settling(*old(self), index as int),
            final(self).same_elsewhere(*old(self), index as int),
            match r {
                Some(t) => old(self)@.expirations[index as int].contains_key(key@) && t
                    == old(self)@.expirations[index as int][key@],
                None => !old(self)@.expirations[index as int].contains_key(key@),
            },
    {
        let ghost before = *self;
        let r = self.data_expiration_ms[index].remove(key);
        proof {
            assert(self@.expirations =~= before@.without_expiration(index as int, key@).expirations);
        }
        r
    }

    /// Takes all keys out of a database. Expirations stay.
    pub fn clear(&mut self, index: usize)
        requires
            old(self).wf(),
            index < old(self).config.databases,
        ensures
            final(self).wf(),
            final(self)@ == old(self)@.cleared(index as int),
            final(self).settling(*old(self), index as int),
            final(self).same_elsewhere(*old(self), index as int),
    {
        let ghost before = *self;
        self.data[index].clear();
        proof {
            assert(self@.data =~= before@.data.update(index as int, Map::empty()));
        }
    }

    /// Takes all keys out of all databases. Expirations stay.
    pub fn clearall(&mut self)
        requires
            old(self).wf(),
        ensures
            final(self).wf(),
            final(self)@ == old(self)@.cleared_all(),
    {
        let ghost before = *self;
        let mut index: usize = 0;
        while index < self.config.databases as usize
            invariant
                self.wf(),
                before.wf(),
                index <= self.config.databases,
                self.config == before.config,
                self@ == (DatabaseView { data: self@.data, ..before@ }),
                forall|j: int| 0 <= j < index ==> (#[trigger] self@.data[j]) == Map::<Seq<u8>, Value>::empty(),
            decreases self.config.databases - index,
        {
            self.clear(index);
            index += 1;
        }
        proof {
            assert(self@.data =~= before@.cleared_all().data);
        }
    }

    /// The value of a key at a time, to be changed in place. A key that is not
    /// there, or whose value has expired, gets the value that is not there.
    pub fn get_or_create_at(&mut self, index: usize, key: &Vec<u8>, now: i64) -> (r: &mut Value)
        requires
            old(self).wf(),
            index < old(self).config.databases,
        ensures
            *r == match old(self)@.found(index as int, key@, now) {
                Some(v) => v,
                None => Value::Nil,
            },
            r.wf(),
            final(self)@ == old(self)@.with_value(index as int, key@, *final(r)),
            final(self).settling(*old(self), index as int),
            final(self).same_elsewhere(*old(self), index as int),
            final(r).wf() ==> final(self).wf(),
    {
        let ghost before = *self;
        if self.get_at(index, key, now).is_none() {
            self.data[index].insert(copy(key), Value::Nil);
            proof {
                assert(self@.data =~= before@.with_value(index as int, key@, Value::Nil).data);
            }
        }
        proof {
            assert forall|v: Value| #[trigger] self@.with_value(index as int, key@, v) == before@.with_value(index as int, key@, v) by {
                assert(self@.data[index as int].insert(key@, v) =~= before@.data[index as int].insert(key@, v));
                assert(self@.with_value(index as int, key@, v).data =~= before@.with_value(index as int, key@, v).data);
            }
        }
        match self.entry(index, key) {
            Some(v) => v,
            None => vstd::pervasive::unreached(),
        }
    }

    /// The value of a key, to be changed in place. A key that is not there, or
    /// whose value has expired, gets the value that is not there.
    pub fn get_or_create(&mut self, index: usize, key: &Vec<u8>) -> (r: &mut Value)
        requires
            old(self).wf(),
            index < old(self).config.databases,
        ensures
            exists|now: i64|
                clock_reading(now) && *r == match #[trigger] old(self)@.found(index as int, key@, now) {
                    Some(v) => v,
                    None => Value::Nil,
                },
            r.wf(),
            final(self)@ == old(self)@.with_value(index as int, key@, *final(r)),
            final(self).settling(*old(self), index as int),
            final(self).same_elsewhere(*old(self), index as int),
            final(r).wf() ==> final(self).wf(),
    {
        let now: i64 = time();
        self.get_or_create_at(index, key, now)
    }

    /// Makes sure that there are listeners to a key, if only none.
    fn ensure_key_subscribers(&mut self, index: usize, key: &Vec<u8>)
        requires
            old(self).wf(),
            index < old(self).config.databases,
        ensures
            final(self).wf(),
            final(self).settling(*old(self), index as int),
            final(self).same_elsewhere(*old(self), index as int),
            final(self)@ == (DatabaseView {
                watchers: old(self)@.watchers.update(
                    index as int,
                    old(self)@.watchers[index as int].insert(key@, roster(old(self)@.watchers[index as int], key@)),
                ),
                ..old(self)@
            }),
    {
        let ghost before = *self;
        let ghost m = self.key_subscribers@[index as int]@;
        if !self.key_subscribers[index].contains_key(key) {
            let none = Listeners::new();
            proof {
                lemma_rosters_insert(m, key@, none);
            }
            self.key_subscribers[index].insert(copy(key), none);
        }
        proof {
            let w = before@.watchers[index as int];
            assert(rosters(self.key_subscribers@[index as int]@) =~= w.insert(key@, roster(w, key@)));
            assert(self@.watchers =~= before@.watchers.update(index as int, w.insert(key@, roster(w, key@))));
        }
    }

    /// Lets a sender listen to a key. Returns the number by which the listener
    /// is known.
    pub fn key_subscribe(&mut self, index: usize, key: &Vec<u8>, sender: Sender<bool>) -> (r: usize)
        requires
            old(self).wf(),
            index < old(self).config.databases,
            old(self).subscriber_id < usize::MAX,
        ensures
            final(self).wf(),
            r == old(self)@.next_id,
            final(self)@ == old(self)@.with_watcher(index as int, key@, sender),
            final(self).settling(*old(self), index as int),
            final(self).same_elsewhere(*old(self), index as int),
    {
        let ghost before = *self;
        self.ensure_key_subscribers(index, key);
        let subscriber_id: usize = self.subscriber_id;
        let ghost m = self.key_subscribers@[index as int]@;
        let ghost middle = *self;
        proof {
            assert(rosters(m).contains_key(key@)) by {
                assert(self@.watchers[index as int].contains_key(key@));
            }
        }
        match self.key_subscribers[index].get_mut(key) {
            Some(listeners) => listeners.insert(subscriber_id, sender),
            None => vstd::pervasive::unreached(),
        }
        self.subscriber_id += 1;
        proof {
            let w = before@.watchers[index as int];
            let after = self.key_subscribers@[index as int]@;
            lemma_rosters_insert(m, key@, after[key@]);
            assert(rosters(m) == w.insert(key@, roster(w, key@))) by {
                assert(middle@.watchers[index as int] == rosters(m));
            }
            assert(rosters(m)[key@] == m[key@]@);
            assert(after[key@]@ == roster(w, key@).insert(subscriber_id, sender));
            assert(rosters(after) =~= w.insert(key@, roster(w, key@).insert(subscriber_id, sender)));
            assert forall|i: int| 0 <= i < self@.watchers.len() && i != index implies self@.watchers[i] == before@.watchers[i] by {
                assert(self.key_subscribers@[i] == middle.key_subscribers@[i]);
                assert(self@.watchers[i] == middle@.watchers[i]);
            }
            assert(self@.watchers =~= before@.watchers.update(
                index as int,
                w.insert(key@, roster(w, key@).insert(subscriber_id, sender)),
            ));
            let now = *self;
            assert(now.same_elsewhere(before, index as int)) by {
                assert forall|i: int| 0 <= i < now.config.databases && i != index implies ({
                    &&& #[trigger] now.data@[i] == before.data@[i]
                    &&& now.data_expiration_ms@[i] == before.data_expiration_ms@[i]
                    &&& now.key_subscribers@[i] == before.key_subscribers@[i]
                }) by {
                    assert(middle.data@[i] == before.data@[i]);
                    assert(now.key_subscribers@[i] == middle.key_subscribers@[i]);
                }
            }
            lemma_rosters_wf(self.subscribers@, before.subscriber_id, self.subscriber_id);
            lemma_rosters_wf(self.pattern_subscribers@, before.subscriber_id, self.subscriber_id);
            assert forall|i: int| 0 <= i < self.key_subscribers.len() implies (#[trigger] self.key_subscribers@[i]).wf()
                && rosters_wf(self.key_subscribers@[i]@, self.subscriber_id) by {
                assert(middle.key_subscribers@[i].wf());
                lemma_rosters_wf(middle.key_subscribers@[i]@, before.subscriber_id, self.subscriber_id);
            }
        }
        subscriber_id
    }

    /// Sends `true` to all who listen to a key. Those for whom that does not
    /// work no longer listen. With active rehashing each table first takes one
    /// step of moving its keys; looking for the listeners takes one more.
    pub fn key_publish(&mut self, index: usize, key: &Vec<u8>)
        requires
            old(self).wf(),
            index < old(self).config.databases,
        ensures
            final(self).wf(),
            exists|gone: Set<usize>|
                final(self)@ == #[trigger] old(self)@.without_watchers(index as int, key@, gone) && notified(roster(old(self)@.watchers[index as int], key@), gone),
            final(self).same_elsewhere(*old(self), index as int),
            ({
                let (data, expirations, watchers) = (
                    old(self).data@[index as int].backlog(),
                    old(self).data_expiration_ms@[index as int].backlog(),
                    old(self).key_subscribers@[index as int].backlog(),
                );
                let active = old(self).config.active_rehashing;
                &&& final(self).data@[index as int].backlog() == if active {
                    stepped(data)
                } else {
                    data
                }
                &&& final(self).data_expiration_ms@[index as int].backlog() == if active {
                    stepped(expirations)
                } else {
                    expirations
                }
                &&& final(self).key_subscribers@[index as int].backlog() == if active {
                    stepped(stepped(watchers))
                } else {
                    stepped(watchers)
                }
            }),
    {
        let ghost before = *self;
        if self.config.active_rehashing {
            self.data[index].rehash();
            self.data_expiration_ms[index].rehash();
            self.key_subscribers[index].rehash();
        }
        let ghost m = self.key_subscribers@[index as int]@;
        proof {
            assert(self@.data =~= before@.data);
            assert(self@.expirations =~= before@.expirations);
            assert(self@.watchers =~= before@.watchers);
            assert(rosters(m) == before@.watchers[index as int]);
        }
        let ghost mut gone: Set<usize> = Set::empty();
        match self.key_subscribers[index].get_mut(key) {
            Some(listeners) => {
                let outcomes = listeners.notify(true);
                proof {
                    gone = failed(listeners.ids@, outcomes@, 0);
                    let all = *listeners;
                    all.lemma_wf();
                    assert forall|id: usize| #[trigger] all@.contains_key(id) implies call_ensures(
                        send::<bool>,
                        (&all@[id], true),
                        !gone.contains(id),
                    ) by {
                        let i = all.ids@.index_of(id);
                        assert(all.ids@[i] == id);
                        assert(all@[all.ids@[i]] == all.senders@[i]);
                        if !outcomes@[i] {
                            assert(gone.contains(id));
                        } else if gone.contains(id) {
                            let k = choose|k: int| 0 <= k < all.ids@.len() && #[trigger] all.ids@[k] == id && !outcomes@[k];
                            assert(k == i);
                        }
                        assert(outcomes@[i] == !gone.contains(id));
                    }
                    assert(notified(all@, gone));
                }
                listeners.keep(&outcomes);
            },
            None => (),
        }
        proof {
            let after = self.key_subscribers@[index as int]@;
            let w = before@.watchers[index as int];
            if m.contains_key(key@) {
                lemma_rosters_insert(m, key@, after[key@]);
            }
            assert(rosters(after) =~= without_listeners(w, key@, gone));
            assert(self@.watchers =~= before@.watchers.update(index as int, without_listeners(w, key@, gone)));
            assert(self@ == before@.without_watchers(index as int, key@, gone));
        }
    }

    /// Makes sure that there are listeners to a channel, if only none.
    fn ensure_channel(&mut self, channel: &Vec<u8>)
        requires
            old(self).wf(),
        ensures
            final(self).wf(),
            final(self)@ == (DatabaseView {
                channels: old(self)@.channels.insert(channel@, roster(old(self)@.channels, channel@)),
                ..old(self)@
            }),
    {
        let ghost before = *self;
        if !self.subscribers.contains_key(channel) {
            let none = Listeners::new();
            proof {
                lemma_rosters_insert(self.subscribers@, channel@, none);
            }
            self.subscribers.insert(copy(channel), none);
        }
        proof {
            assert(self@.channels =~= before@.channels.insert(channel@, roster(before@.channels, channel@)));
        }
    }

    /// Lets a sender listen to a channel. Returns the number by which the
    /// listener is known.
    pub fn subscribe(&mut self, channel: Vec<u8>, sender: Sender<Option<PubsubEvent>>) -> (r: usize)
        requires
            old(self).wf(),
            old(self).subscriber_id < usize::MAX,
        ensures
            final(self).wf(),
            r == old(self)@.next_id,
            final(self)@ == old(self)@.with_channel_listener(channel@, sender),
    {
        let ghost before = *self;
        self.ensure_channel(&channel);
        let subscriber_id: usize = self.subscriber_id;
        let ghost middle = *self;
        proof {
            assert(self@.channels.contains_key(channel@));
        }
        match self.subscribers.get_mut(&channel) {
            Some(listeners) => listeners.insert(subscriber_id, sender),
            None => vstd::pervasive::unreached(),
        }
        self.subscriber_id += 1;
        proof {
            lemma_rosters_insert(middle.subscribers@, channel@, self.subscribers@[channel@]);
            assert(middle@.channels[channel@] == middle.subscribers@[channel@]@);
            assert(self.subscribers@[channel@]@ == roster(before@.channels, channel@).insert(subscriber_id, sender));
            assert(self@.channels =~= before@.channels.insert(
                channel@,
                roster(before@.channels, channel@).insert(subscriber_id, sender),
            ));
            lemma_rosters_wf(self.pattern_subscribers@, before.subscriber_id, self.subscriber_id);
            assert forall|i: int| 0 <= i < self.key_subscribers.len() implies (#[trigger] self.key_subscribers@[i]).wf()
                && rosters_wf(self.key_subscribers@[i]@, self.subscriber_id) by {
                lemma_rosters_wf(self.key_subscribers@[i]@, before.subscriber_id, self.subscriber_id);
            }
        }
        subscriber_id
    }

    /// Lets a listener no longer listen to a channel. Returns whether it did.
    pub fn unsubscribe(&mut self, channel: Vec<u8>, subscriber_id: usize) -> (r: bool)
        requires
            old(self).wf(),
        ensures
            final(self).wf(),
            r == roster(old(self)@.channels, channel@).contains_key(subscriber_id),
            final(self)@ == old(self)@.without_channel_listener(channel@, subscriber_id),
    {
        let ghost before = *self;
        let r: bool = match self.subscribers.get_mut(&channel) {
            Some(listeners) => listeners.remove(subscriber_id),
            None => false,
        };
        proof {
            let after = without_listeners(before@.channels, channel@, set![subscriber_id]);
            if before.subscribers@.contains_key(channel@) {
                lemma_rosters_insert(before.subscribers@, channel@, self.subscribers@[channel@]);
                let left = before.subscribers@[channel@]@;
                assert(left.remove(subscriber_id) =~= left.remove_keys(set![subscriber_id]));
            }
            assert(self@.channels =~= after);
        }
        r
    }

    /// Makes sure that there are listeners to a pattern, if only none.
    fn pensure_channel(&mut self, pattern: &Vec<u8>)
        requires
            old(self).wf(),
        ensures
            final(self).wf(),
            final(self)@ == (DatabaseView {
                patterns: old(self)@.patterns.insert(pattern@, roster(old(self)@.patterns, pattern@)),
                ..old(self)@
            }),
    {
        let ghost before = *self;
        if !self.pattern_subscribers.contains_key(pattern) {
            let none = Listeners::new();
            proof {
                lemma_rosters_insert(self.pattern_subscribers@, pattern@, none);
            }
            self.pattern_subscribers.insert(copy(pattern), none);
        }
        proof {
            assert(self@.patterns =~= before@.patterns.insert(pattern@, roster(before@.patterns, pattern@)));
        }
    }

    /// Lets a sender listen to all channels that a pattern stands for. Returns
    /// the number by which the listener is known.
    pub fn psubscribe(&mut self, pattern: Vec<u8>, sender: Sender<Option<PubsubEvent>>) -> (r: usize)
        requires
            old(self).wf(),
            old(self).subscriber_id < usize::MAX,
        ensures
            final(self).wf(),
            r == old(self)@.next_id,
            final(self)@ == old(self)@.with_pattern_listener(pattern@, sender),
    {
        let ghost before = *self;
        self.pensure_channel(&pattern);
        let subscriber_id: usize = self.subscriber_id;
        let ghost middle = *self;
        proof {
            assert(self@.patterns.contains_key(pattern@));
        }
        match self.pattern_subscribers.get_mut(&pattern) {
            Some(listeners) => listeners.insert(subscriber_id, sender),
            None => vstd::pervasive::unreached(),
        }
        self.subscriber_id += 1;
        proof {
            lemma_rosters_insert(middle.pattern_subscribers@, pattern@, self.pattern_subscribers@[pattern@]);
            assert(middle@.patterns[pattern@] == middle.pattern_subscribers@[pattern@]@);
            assert(self.pattern_subscribers@[pattern@]@ == roster(before@.patterns, pattern@).insert(subscriber_id, sender));
            assert(self@.patterns =~= before@.patterns.insert(
                pattern@,
                roster(before@.patterns, pattern@).insert(subscriber_id, sender),
            ));
            lemma_rosters_wf(self.subscribers@, before.subscriber_id, self.subscriber_id);
            assert forall|i: int| 0 <= i < self.key_subscribers.len() implies (#[trigger] self.key_subscribers@[i]).wf()
                && rosters_wf(self.key_subscribers@[i]@, self.subscriber_id) by {
                lemma_rosters_wf(self.key_subscribers@[i]@, before.subscriber_id, self.subscriber_id);
            }
        }
        subscriber_id
    }

    /// Lets a listener no longer listen to a pattern. Returns whether it did.
    pub fn punsubscribe(&mut self, pattern: Vec<u8>, subscriber_id: usize) -> (r: bool)
        requires
            old(self).wf(),
        ensures
            final(self).wf(),
            r == roster(old(self)@.patterns, pattern@).contains_key(subscriber_id),
            final(self)@ == old(self)@.without_pattern_listener(pattern@, subscriber_id),
    {
        let ghost before = *self;
        let r: bool = match self.pattern_subscribers.get_mut(&pattern) {
            Some(listeners) => listeners.remove(subscriber_id),
            None => false,
        };
        proof {
            let after = without_listeners(before@.patterns, pattern@, set![subscriber_id]);
            if before.pattern_subscribers@.contains_key(pattern@) {
                lemma_rosters_insert(before.pattern_subscribers@, pattern@, self.pattern_subscribers@[pattern@]);
                let left = before.pattern_subscribers@[pattern@]@;
                assert(left.remove(subscriber_id) =~= left.remove_keys(set![subscriber_id]));
            }
            assert(self@.patterns =~= after);
        }
        r
    }

    /// Those to whom a message in a channel goes, each with the pattern by which
    /// it is reached: first all who listen to the channel, and after that all
    /// who listen to a pattern that stands for it.
    pub open spec fn addressed(&self, channel: Seq<u8>) -> Seq<(Sender<Option<PubsubEvent>>, Option<Seq<u8>>)> {
        (if self.subscribers@.contains_key(channel) {
            stamped(self.subscribers@[channel].senders@, None)
        } else {
            Seq::empty()
        }) + reached(
            texts(self.pattern_subscribers.keys.items@),
            self.pattern_subscribers.values@,
            channel,
            self.pattern_subscribers.values@.len(),
        )
    }

    /// A message in a channel goes to exactly those who listen to the channel,
    /// without a pattern, and those who listen to a pattern that stands for the
    /// channel, with that pattern.
    pub proof fn addressed_exactly(&self, channel: Seq<u8>, sender: Sender<Option<PubsubEvent>>, pattern: Option<Seq<u8>>)
        requires
            self.wf(),
        ensures
            self.addressed(channel).contains((sender, pattern)) <==> match pattern {
                None => roster(self@.channels, channel).contains_value(sender),
                Some(p) => glob(p, channel) && roster(self@.patterns, p).contains_value(sender),
            },
    {
        let direct = if self.subscribers@.contains_key(channel) {
            stamped(self.subscribers@[channel].senders@, None)
        } else {
            Seq::empty()
        };
        let keys = texts(self.pattern_subscribers.keys.items@);
        let values = self.pattern_subscribers.values@;
        let more = reached(keys, values, channel, values.len());
        let item = (sender, pattern);
        lemma_reached(keys, values, channel, values.len(), sender, pattern);
        self.pattern_subscribers.lemma_wf();
        assert(self.addressed(channel) == direct + more);
        assert(self.addressed(channel).contains(item) <==> direct.contains(item) || more.contains(item)) by {
            let all = direct + more;
            if all.contains(item) {
                let k = all.index_of(item);
                assert(all[k] == item);
                if k < direct.len() {
                    assert(direct[k] == item);
                } else {
                    assert(more[k - direct.len()] == item);
                }
            }
            if direct.contains(item) {
                assert(all[direct.index_of(item)] == item);
            }
            if more.contains(item) {
                assert(all[direct.len() + more.index_of(item)] == item);
            }
        }
        match pattern {
            None => {
                assert(!more.contains(item));
                if self.subscribers@.contains_key(channel) {
                    let l = self.subscribers@[channel];
                    l.lemma_senders(sender);
                    if direct.contains(item) {
                        let k = direct.index_of(item);
                        assert(direct[k] == item);
                        assert(l.senders@[k] == sender);
                    }
                    if l.senders@.contains(sender) {
                        let k = l.senders@.index_of(sender);
                        assert(direct[k] == item);
                    }
                }
            },
            Some(p) => {
                if direct.contains(item) {
                    let k = direct.index_of(item);
                    assert(direct[k] == item);
                }
                if self.pattern_subscribers@.contains_key(p) {
                    assert(keys.contains(p));
                    let i = keys.index_of(p);
                    assert(keys[i] == p);
                    assert(self.pattern_subscribers.keys.items@[i]@ == p);
                    assert(self.pattern_subscribers@[p] == values[i]);
                    values[i].lemma_senders(sender);
                    if more.contains(item) {
                        let j = choose|j: int|
                            0 <= j < values.len() && glob(#[trigger] keys[j], channel) && pattern == Some(keys[j])
                                && values[j].senders@.contains(sender);
                        assert(keys[j] == p);
                        assert(j == i);
                    }
                    if glob(p, channel) && values[i].senders@.contains(sender) {
                        assert(glob(keys[i], channel));
                    }
                } else if more.contains(item) {
                    let j = choose|j: int|
                        0 <= j < values.len() && glob(#[trigger] keys[j], channel) && pattern == Some(keys[j])
                            && values[j].senders@.contains(sender);
                    assert(self.pattern_subscribers@.contains_key(self.pattern_subscribers.keys.items@[j]@));
                }
            },
        }
    }

    /// Those to whom a message in a channel goes, each with the pattern by which
    /// it is reached.
    pub fn recipients(&self, channel_name: &Vec<u8>) -> (r: Vec<(&Sender<Option<PubsubEvent>>, Option<&Vec<u8>>)>)
        requires
            self.wf(),
        ensures
            r.len() == self.addressed(channel_name@).len(),
            forall|i: int|
                0 <= i < r.len() ==> is_recipient(#[trigger] r@[i], self.addressed(channel_name@)[i]),
    {
        let ghost all = self.addressed(channel_name@);
        let mut r: Vec<(&Sender<Option<PubsubEvent>>, Option<&Vec<u8>>)> = Vec::new();
        match self.subscribers.get(channel_name) {
            Some(listeners) => {
                let mut i: usize = 0;
                while i < listeners.senders.len()
                    invariant
                        i <= listeners.senders.len() <= all.len(),
                        r.len() == i,
                        forall|j: int| 0 <= j < listeners.senders.len() ==> all[j] == (#[trigger] listeners.senders@[j], None::<Seq<u8>>),
                        forall|j: int| 0 <= j < r.len() ==> is_recipient(#[trigger] r@[j], all[j]),
                    decreases listeners.senders.len() - i,
                {
                    let sender = &listeners.senders[i];
                    r.push((sender, None));
                    i += 1;
                }
            },
            None => (),
        }
        let ghost base = r.len();
        let ghost keys = texts(self.pattern_subscribers.keys.items@);
        let ghost values = self.pattern_subscribers.values@;
        proof {
            assert(all.subrange(base as int, all.len() as int) =~= reached(keys, values, channel_name@, values.len()));
        }
        let mut n: usize = 0;
        while n < self.pattern_subscribers.values.len()
            invariant
                self.wf(),
                n <= self.pattern_subscribers.values.len(),
                keys == texts(self.pattern_subscribers.keys.items@),
                values == self.pattern_subscribers.values@,
                base <= all.len(),
                all.subrange(base as int, all.len() as int) == reached(keys, values, channel_name@, values.len()),
                r.len() == base + reached(keys, values, channel_name@, n as nat).len(),
                r.len() <= all.len(),
                forall|j: int| 0 <= j < r.len() ==> is_recipient(#[trigger] r@[j], all[j]),
            decreases self.pattern_subscribers.values.len() - n,
        {
            let pattern = &self.pattern_subscribers.keys.items[n];
            let listeners = &self.pattern_subscribers.values[n];
            let ghost before = reached(keys, values, channel_name@, n as nat);
            let ghost after = reached(keys, values, channel_name@, (n + 1) as nat);
            proof {
                lemma_reached_prefix(keys, values, channel_name@, (n + 1) as nat, values.len());
                assert(keys[n as int] == pattern@);
            }
            if glob_match(pattern, channel_name) {
                let ghost own = stamped(listeners.senders@, Some(pattern@));
                proof {
                    assert(after == before + own);
                }
                let mut i: usize = 0;
                while i < listeners.senders.len()
                    invariant
                        i <= listeners.senders.len(),
                        own == stamped(listeners.senders@, Some(pattern@)),
                        after == before + own,
                        base + after.len() <= all.len(),
                        forall|j: int| 0 <= j < after.len() ==> all[base + j] == #[trigger] after[j],
                        r.len() == base + before.len() + i,
                        forall|j: int| 0 <= j < r.len() ==> is_recipient(#[trigger] r@[j], all[j]),
                    decreases listeners.senders.len() - i,
                {
                    let sender = &listeners.senders[i];
                    proof {
                        assert(after[before.len() + i] == own[i as int]);
                    }
                    r.push((sender, Some(pattern)));
                    i += 1;
                }
            } else {
                proof {
                    assert(after =~= before);
                }
            }
            n += 1;
        }
        r
    }

    /// Sends a message to all who listen to its channel, or to a pattern that
    /// stands for it. Returns for how many that worked.
    pub fn publish(&self, channel_name: &Vec<u8>, message: &Vec<u8>) -> (r: usize)
        requires
            self.wf(),
        ensures
            exists|outcomes: Seq<bool>|
                {
                    &&& outcomes.len() == self.addressed(channel_name@).len()
                    &&& r == #[trigger] successes(outcomes)
                    &&& forall|i: int|
                        0 <= i < outcomes.len() ==> handed_over(
                            self.addressed(channel_name@)[i],
                            channel_name@,
                            message@,
                            #[trigger] outcomes[i],
                        )
                },
            r <= self.addressed(channel_name@).len(),
    {
        let to = self.recipients(channel_name);
        let mut outcomes: Vec<bool> = Vec::new();
        let mut i: usize = 0;
        while i < to.len()
            invariant
                i <= to.len(),
                to.len() == self.addressed(channel_name@).len(),
                forall|j: int| 0 <= j < to.len() ==> is_recipient(#[trigger] to@[j], self.addressed(channel_name@)[j]),
                outcomes.len() == i,
                forall|j: int|
                    0 <= j < i ==> handed_over(
                        self.addressed(channel_name@)[j],
                        channel_name@,
                        message@,
                        #[trigger] outcomes@[j],
                    ),
            decreases to.len() - i,
        {
            let event = message_event(channel_name, to[i].1, message);
            proof {
                assert(is_recipient(to@[i as int], self.addressed(channel_name@)[i as int]));
                assert(event.is_message(channel_name@, self.addressed(channel_name@)[i as int].1, message@));
            }
            outcomes.push(send(to[i].0, Some(event)));
            i += 1;
        }
        proof {
            lemma_successes(outcomes@);
        }
        count_successes(&outcomes)
    }

    /// The name under which a command is known: the one it has been given, its
    /// own, or none if it has been taken away.
    pub fn mapped_command(&self, command: &String) -> (r: Option<String>)
        requires
            self.wf(),
        ensures
            word_of(r) == if self.config.rename_commands@.contains_key(command@) {
                self.config.rename_commands@[command@]
            } else {
                Some(command@)
            },
    {
        match self.config.rename_commands.get(command) {
            Some(target) => match target {
                Some(name) => Some(name.clone()),
                None => None,
            },
            None => Some(command.clone()),
        }
    }
}

/// What a database holds is what its tables and listeners hold.
pub proof fn database_reads(db: Database, i: int, name: Seq<u8>)
    ensures
        db@.config == db.config,
        db@.next_id == db.subscriber_id,
        db@.data.len() == db.data.len(),
        0 <= i < db.data.len() ==> db@.data[i] == db.data@[i]@,
        db@.expirations.len() == db.data_expiration_ms.len(),
        0 <= i < db.data_expiration_ms.len() ==> db@.expirations[i] == db.data_expiration_ms@[i]@,
        db@.watchers.len() == db.key_subscribers.len(),
        0 <= i < db.key_subscribers.len() ==> (db@.watchers[i].contains_key(name) <==> db.key_subscribers@[i]@.contains_key(name)),
        0 <= i < db.key_subscribers.len() && db.key_subscribers@[i]@.contains_key(name) ==> db@.watchers[i][name]
            == db.key_subscribers@[i]@[name]@,
        db@.channels.contains_key(name) <==> db.subscribers@.contains_key(name),
        db.subscribers@.contains_key(name) ==> db@.channels[name] == db.subscribers@[name]@,
        db@.patterns.contains_key(name) <==> db.pattern_subscribers@.contains_key(name),
        db.pattern_subscribers@.contains_key(name) ==> db@.patterns[name] == db.pattern_subscribers@[name]@,
{
}

/// A value is found as long as it is there and its time has not come. It has
/// come from the very millisecond on at which the value expires.
pub proof fn found_exactly(db: DatabaseView, index: int, key: Seq<u8>, now: i64)
    ensures
        db.expired(index, key, now) <==> db.expirations[index].contains_key(key) && now >= db.expirations[index][key],
        match db.found(index, key, now) {
            Some(v) => {
                &&& db.data[index].contains_key(key)
                &&& v == db.data[index][key]
                &&& db.expirations[index].contains_key(key) ==> now < db.expirations[index][key]
            },
            None => !db.data[index].contains_key(key) || (db.expirations[index].contains_key(key) && now >= db.expirations[index][key]),
        },
{
}

/// Putting a value under a key changes nothing else, and neither does taking a
/// key out, which takes its expiration with it.
pub proof fn values_change_alone(db: DatabaseView, index: int, key: Seq<u8>, value: Value, i: int, k: Seq<u8>)
    requires
        0 <= index < db.data.len(),
        db.expirations.len() == db.data.len(),
        0 <= i < db.data.len(),
    ensures
        ({
            let with = db.with_value(index, key, value);
            &&& with.config == db.config && with.expirations == db.expirations && with.next_id == db.next_id
            &&& with.channels == db.channels && with.patterns == db.patterns && with.watchers == db.watchers
            &&& with.data.len() == db.data.len()
            &&& with.data[index].contains_key(key) && with.data[index][key] == value
            &&& i != index || k != key ==> (with.data[i].contains_key(k) <==> db.data[i].contains_key(k)) && with.data[i][k] == db.data[i][k]
        }),
        ({
            let without = db.without_key(index, key);
            &&& without.config == db.config && without.next_id == db.next_id
            &&& without.channels == db.channels && without.patterns == db.patterns && without.watchers == db.watchers
            &&& without.data.len() == db.data.len() && without.expirations.len() == db.data.len()
            &&& !without.data[index].contains_key(key) && !without.expirations[index].contains_key(key)
            &&& i != index || k != key ==> {
                &&& without.data[i].contains_key(k) <==> db.data[i].contains_key(k)
                &&& db.data[i].contains_key(k) ==> without.data[i][k] == db.data[i][k]
                &&& without.expirations[i].contains_key(k) <==> db.expirations[i].contains_key(k)
                &&& db.expirations[i].contains_key(k) ==> without.expirations[i][k] == db.expirations[i][k]
            }
        }),
{
}

/// Setting when a value expires changes nothing else, and neither does letting
/// it no longer expire.
pub proof fn expirations_change_alone(db: DatabaseView, index: int, key: Seq<u8>, ms: i64, i: int, k: Seq<u8>)
    requires
        0 <= index < db.expirations.len(),
        0 <= i < db.expirations.len(),
    ensures
        ({
            let with = db.with_expiration(index, key, ms);
            &&& with.config == db.config && with.data == db.data && with.next_id == db.next_id
            &&& with.channels == db.channels && with.patterns == db.patterns && with.watchers == db.watchers
            &&& with.expirations.len() == db.expirations.len()
            &&& with.expirations[index].contains_key(key) && with.expirations[index][key] == ms
            &&& i != index || k != key ==> {
                &&& with.expirations[i].contains_key(k) <==> db.expirations[i].contains_key(k)
                &&& with.expirations[i][k] == db.expirations[i][k]
            }
        }),
        ({
            let without = db.without_expiration(index, key);
            &&& without.config == db.config && without.data == db.data && without.next_id == db.next_id
            &&& without.channels == db.channels && without.patterns == db.patterns && without.watchers == db.watchers
            &&& without.expirations.len() == db.expirations.len()
            &&& !without.expirations[index].contains_key(key)
            &&& i != index || k != key ==> {
                &&& without.expirations[i].contains_key(k) <==> db.expirations[i].contains_key(k)
                &&& db.expirations[i].contains_key(k) ==> without.expirations[i][k] == db.expirations[i][k]
            }
        }),
{
}

/// Clearing a database takes out its keys, and clearing all those of all. All
/// else stays, expirations and listeners too.
pub proof fn clearing_changes_alone(db: DatabaseView, index: int, i: int, k: Seq<u8>)
    requires
        0 <= index < db.data.len(),
        0 <= i < db.data.len(),
    ensures
        ({
            let one = db.cleared(index);
            &&& one.config == db.config && one.expirations == db.expirations && one.next_id == db.next_id
            &&& one.channels == db.channels && one.patterns == db.patterns && one.watchers == db.watchers
            &&& one.data.len() == db.data.len()
            &&& !one.data[index].contains_key(k)
            &&& i != index ==> one.data[i] == db.data[i]
        }),
        ({
            let all = db.cleared_all();
            &&& all.config == db.config && all.expirations == db.expirations && all.next_id == db.next_id
            &&& all.channels == db.channels && all.patterns == db.patterns && all.watchers == db.watchers
            &&& all.data.len() == db.data.len()
            &&& !all.data[i].contains_key(k)
        }),
{
}

/// Under a name there are the listeners that are known under it, or none.
pub proof fn roster_exactly<T>(m: Map<Seq<u8>, Map<usize, Sender<T>>>, name: Seq<u8>, id: usize)
    ensures
        roster(m, name).contains_key(id) <==> m.contains_key(name) && m[name].contains_key(id),
        m.contains_key(name) && m[name].contains_key(id) ==> roster(m, name)[id] == m[name][id],
{
}

/// Listeners that go are gone under the one name, and all others stay.
pub proof fn gone_listeners<T>(m: Map<Seq<u8>, Map<usize, Sender<T>>>, name: Seq<u8>, gone: Set<usize>, other: Seq<u8>, id: usize)
    ensures
        ({
            let left = without_listeners(m, name, gone);
            &&& left.contains_key(other) <==> m.contains_key(other)
            &&& other != name && m.contains_key(other) ==> left[other] == m[other]
            &&& m.contains_key(name) ==> (left[name].contains_key(id) <==> m[name].contains_key(id) && !gone.contains(id))
            &&& m.contains_key(name) && m[name].contains_key(id) && !gone.contains(id) ==> left[name][id] == m[name][id]
        }),
{
}

/// Who begins to listen to a channel does so under the next number and with the
/// given sender. Nobody else begins or ceases to, and nothing else changes.
pub proof fn channel_listener_added(db: DatabaseView, channel: Seq<u8>, sender: Sender<Option<PubsubEvent>>, name: Seq<u8>, id: usize)
    requires
        db.next_id < usize::MAX,
    ensures
        ({
            let with = db.with_channel_listener(channel, sender);
            let before = db.channels.contains_key(name) && db.channels[name].contains_key(id);
            &&& with.config == db.config && with.data == db.data && with.expirations == db.expirations
            &&& with.patterns == db.patterns && with.watchers == db.watchers
            &&& with.next_id == db.next_id + 1
            &&& with.channels.contains_key(name) <==> name == channel || db.channels.contains_key(name)
            &&& with.channels.contains_key(name) ==> (with.channels[name].contains_key(id) <==> before || (name == channel && id == db.next_id))
            &&& with.channels[channel][db.next_id] == sender
            &&& before && (name != channel || id != db.next_id) ==> with.channels[name][id] == db.channels[name][id]
        }),
{
}

/// Who begins to listen to a pattern does so under the next number and with the
/// given sender. Nobody else begins or ceases to, and nothing else changes.
pub proof fn pattern_listener_added(db: DatabaseView, pattern: Seq<u8>, sender: Sender<Option<PubsubEvent>>, name: Seq<u8>, id: usize)
    requires
        db.next_id < usize::MAX,
    ensures
        ({
            let with = db.with_pattern_listener(pattern, sender);
            let before = db.patterns.contains_key(name) && db.patterns[name].contains_key(id);
            &&& with.config == db.config && with.data == db.data && with.expirations == db.expirations
            &&& with.channels == db.channels && with.watchers == db.watchers
            &&& with.next_id == db.next_id + 1
            &&& with.patterns.contains_key(name) <==> name == pattern || db.patterns.contains_key(name)
            &&& with.patterns.contains_key(name) ==> (with.patterns[name].contains_key(id) <==> before || (name == pattern && id == db.next_id))
            &&& with.patterns[pattern][db.next_id] == sender
            &&& before && (name != pattern || id != db.next_id) ==> with.patterns[name][id] == db.patterns[name][id]
        }),
{
}

/// Who begins to listen to a key does so under the next number and with the
/// given sender. Nobody else begins or ceases to, and nothing else changes.
pub proof fn watcher_added(db: DatabaseView, index: int, key: Seq<u8>, sender: Sender<bool>, i: int, name: Seq<u8>, id: usize)
    requires
        db.next_id < usize::MAX,
        0 <= index < db.watchers.len(),
        0 <= i < db.watchers.len(),
    ensures
        ({
            let with = db.with_watcher(index, key, sender);
            let (now, old_ones) = (with.watchers[i], db.watchers[i]);
            let before = old_ones.contains_key(name) && old_ones[name].contains_key(id);
            &&& with.config == db.config && with.data == db.data && with.expirations == db.expirations
            &&& with.channels == db.channels && with.patterns == db.patterns
            &&& with.next_id == db.next_id + 1
            &&& with.watchers.len() == db.watchers.len()
            &&& now.contains_key(name) <==> (i == index && name == key) || old_ones.contains_key(name)
            &&& now.contains_key(name) ==> (now[name].contains_key(id) <==> before || (i == index && name == key && id == db.next_id))
            &&& with.watchers[index][key][db.next_id] == sender
            &&& before && (i != index || name != key || id != db.next_id) ==> now[name][id] == old_ones[name][id]
        }),
{
}

/// Who ceases to listen is gone from the one channel, pattern or key, and
/// nothing else changes.
pub proof fn listeners_removed(db: DatabaseView, name: Seq<u8>, id: usize, index: int, gone: Set<usize>, i: int)
    requires
        0 <= index < db.watchers.len(),
        0 <= i < db.watchers.len(),
    ensures
        ({
            let a = db.without_channel_listener(name, id);
            &&& a.config == db.config && a.data == db.data && a.expirations == db.expirations && a.next_id == db.next_id
            &&& a.patterns == db.patterns && a.watchers == db.watchers
            &&& a.channels == if db.channels.contains_key(name) {
                db.channels.insert(name, db.channels[name].remove(id))
            } else {
                db.channels
            }
        }),
        ({
            let b = db.without_pattern_listener(name, id);
            &&& b.config == db.config && b.data == db.data && b.expirations == db.expirations && b.next_id == db.next_id
            &&& b.channels == db.channels && b.watchers == db.watchers
            &&& b.patterns == if db.patterns.contains_key(name) {
                db.patterns.insert(name, db.patterns[name].remove(id))
            } else {
                db.patterns
            }
        }),
        ({
            let c = db.without_watchers(index, name, gone);
            &&& c.config == db.config && c.data == db.data && c.expirations == db.expirations && c.next_id == db.next_id
            &&& c.channels == db.channels && c.patterns == db.patterns
            &&& c.watchers.len() == db.watchers.len()
            &&& i != index ==> c.watchers[i] == db.watchers[i]
            &&& c.watchers[index] == if db.watchers[index].contains_key(name) {
                db.watchers[index].insert(name, db.watchers[index][name].remove_keys(gone))
            } else {
                db.watchers[index]
            }
        }),
{
    if db.channels.contains_key(name) {
        assert(db.channels[name].remove_keys(set![id]) =~= db.channels[name].remove(id));
    }
    if db.patterns.contains_key(name) {
        assert(db.patterns[name].remove_keys(set![id]) =~= db.patterns[name].remove(id));
    }
}

/// The outcomes that are good are counted, each once.
pub proof fn successes_are_good_outcomes(outcomes: Seq<bool>)
    ensures
        successes(outcomes) == outcomes.filter(|good: bool| good).len(),
    decreases outcomes.len(),
{
    reveal(Seq::filter);
    if outcomes.len() > 0 {
        successes_are_good_outcomes(outcomes.drop_last());
    }
}

/// Senders are reached in their order, each by the one pattern.
pub proof fn stamped_elements<T>(senders: Seq<Sender<T>>, pattern: Option<Seq<u8>>, i: int)
    requires
        0 <= i < senders.len(),
    ensures
        stamped(senders, pattern).len() == senders.len(),
        stamped(senders, pattern)[i].0 == senders[i],
        stamped(senders, pattern)[i].1 == pattern,
{
}

/// A pattern that stands for the channel reaches its own listeners, in their
/// order, after those whom the patterns before it reach. Another pattern reaches
/// nobody.
pub proof fn one_more_pattern<T>(patterns: Seq<Seq<u8>>, listeners: Seq<Listeners<T>>, channel: Seq<u8>, n: nat, i: int)
    ensures
        reached(patterns, listeners, channel, 0).len() == 0,
        ({
            let before = reached(patterns, listeners, channel, n);
            let with = reached(patterns, listeners, channel, n + 1);
            let own = listeners[n as int].senders@;
            &&& !glob(patterns[n as int], channel) ==> with == before
            &&& glob(patterns[n as int], channel) ==> {
                &&& with.len() == before.len() + own.len()
                &&& 0 <= i < before.len() ==> with[i] == before[i]
                &&& 0 <= i < own.len() ==> with[before.len() + i] == (own[i], Some(patterns[n as int]))
            }
        }),
{
    let before = reached(patterns, listeners, channel, n);
    if !glob(patterns[n as int], channel) {
        assert(reached(patterns, listeners, channel, n + 1) =~= before);
    }
}

/// A message goes first to those who listen to its channel, in their order and
/// by no pattern, and then to those whom patterns reach.
pub proof fn addressed_in_order(db: Database, channel: Seq<u8>, i: int)
    ensures
        ({
            let direct = if db.subscribers@.contains_key(channel) {
                db.subscribers@[channel].senders@
            } else {
                Seq::empty()
            };
            let more = reached(
                texts(db.pattern_subscribers.keys.items@),
                db.pattern_subscribers.values@,
                channel,
                db.pattern_subscribers.values@.len(),
            );
            &&& db.addressed(channel).len() == direct.len() + more.len()
            &&& 0 <= i < direct.len() ==> db.addressed(channel)[i] == (direct[i], None::<Seq<u8>>)
            &&& 0 <= i < more.len() ==> db.addressed(channel)[direct.len() + i] == more[i]
        }),
{
}

/// A reference stands for the sender that it refers to, with the pattern that it
/// refers to or none.
pub proof fn recipient_exactly<T>(sender: &Sender<T>, pattern: &Vec<u8>, to: Sender<T>, by: Seq<u8>)
    ensures
        is_recipient((sender, Some(pattern)), (to, Some(by))) <==> *sender == to && pattern@ == by,
        is_recipient((sender, None), (to, None)) <==> *sender == to,
        !is_recipient((sender, Some(pattern)), (to, None)),
        !is_recipient((sender, None), (to, Some(by))),
{
}

/// A table that is made smaller holds what it held. One that holds any key has
/// steps of a move left after it.
pub proof fn shrunk_keeps<V>(before: Table<V>, after: Table<V>)
    requires
        shrunk(before, after),
    ensures
        after@ == before@,
        before@.dom().len() > 0 && before.backlog() == 0 ==> after.backlog() == before@.dom().len() + 1,
        before.backlog() > 0 ==> after.backlog() == before.backlog(),
        before@.dom().len() == 0 ==> after.backlog() <= before.backlog() + 1,
{
}

/// Each listener has been sent `true`, and ceases to listen if and only if that
/// did not work.
pub proof fn notified_exactly(listeners: Map<usize, Sender<bool>>, gone: Set<usize>, id: usize)
    requires
        notified(listeners, gone),
        listeners.contains_key(id),
    ensures
        gone.contains(id) ==> call_ensures(send::<bool>, (&listeners[id], true), false),
        !gone.contains(id) ==> call_ensures(send::<bool>, (&listeners[id], true), true),
{
}

/// A message that is handed over has the channel, the text and the pattern by
/// which it is reached, and goes to the one sender.
pub proof fn handed_over_exactly(
    to: (Sender<Option<PubsubEvent>>, Option<Seq<u8>>),
    channel: Seq<u8>,
    message: Seq<u8>,
    outcome: bool,
)
    requires
        handed_over(to, channel, message, outcome),
    ensures
        exists|event: PubsubEvent|
            {
                &&& #[trigger] event.is_message(channel, to.1, message)
                &&& call_ensures(send::<Option<PubsubEvent>>, (&to.0, Some(event)), outcome)
            },
{
}

/// Whether keys are being moved is told of all three tables of a database, and
/// so is that no move has begun.
pub proof fn moves_of_all_tables(db: Database, before: Database, index: int)
    ensures
        db.moving(index) ==> {
            &&& db.data@[index]@.dom().len() > 0 ==> db.data@[index].backlog() > 0
            &&& db.data_expiration_ms@[index]@.dom().len() > 0 ==> db.data_expiration_ms@[index].backlog() > 0
            &&& db.key_subscribers@[index]@.dom().len() > 0 ==> db.key_subscribers@[index].backlog() > 0
        },
        db.settling(before, index) ==> {
            &&& before.data@[index].backlog() == 0 ==> db.data@[index].backlog() == 0
            &&& before.data_expiration_ms@[index].backlog() == 0 ==> db.data_expiration_ms@[index].backlog() == 0
            &&& before.key_subscribers@[index].backlog() == 0 ==> db.key_subscribers@[index].backlog() == 0
            &&& db.data@[index].backlog() <= before.data@[index].backlog()
            &&& db.data_expiration_ms@[index].backlog() <= before.data_expiration_ms@[index].backlog()
            &&& db.key_subscribers@[index].backlog() <= before.key_subscribers@[index].backlog()
        },
{
}

/// The tables of all other databases stay as they were.
pub proof fn others_untouched(db: Database, before: Database, index: int, i: int)
    requires
        db.same_elsewhere(before, index),
        0 <= i < db.config.databases,
        i != index,
    ensures
        db.data@[i] == before.data@[i],
        db.data_expiration_ms@[i] == before.data_expiration_ms@[i],
        db.key_subscribers@[i] == before.key_subscribers@[i],
{
}

/// A valid database has as many tables of each sort as the configuration says,
/// with valid values, and all listeners have numbers below the next.
pub proof fn valid_database(db: Database, i: int, key: Seq<u8>, id: usize)
    requires
        db.wf(),
        0 <= i < db.config.databases,
    ensures
        db@.data.len() == db.config.databases,
        db@.expirations.len() == db.config.databases,
        db@.watchers.len() == db.config.databases,
        db@.data[i].contains_key(key) ==> db@.data[i][key].wf(),
        db@.watchers[i].contains_key(key) && db@.watchers[i][key].contains_key(id) ==> id < db@.next_id,
        db@.channels.contains_key(key) && db@.channels[key].contains_key(id) ==> id < db@.next_id,
        db@.patterns.contains_key(key) && db@.patterns[key].contains_key(id) ==> id < db@.next_id,
{
    assert(db.data@[i].wf() && values_wf(db.data@[i]@));
    assert(db.key_subscribers@[i].wf());
    if db@.watchers[i].contains_key(key) && db@.watchers[i][key].contains_key(id) {
        assert(db.key_subscribers@[i]@[key].below(db.subscriber_id));
        assert(db.key_subscribers@[i]@[key]@.contains_key(id));
    }
    if db@.channels.contains_key(key) && db@.channels[key].contains_key(id) {
        assert(db.subscribers@[key].below(db.subscriber_id));
        assert(db.subscribers@[key]@.contains_key(id));
    }
    if db@.patterns.contains_key(key) && db@.patterns[key].contains_key(id) {
        assert(db.pattern_subscribers@[key].below(db.subscriber_id));
        assert(db.pattern_subscribers@[key]@.contains_key(id));
    }
}

} // verus!
