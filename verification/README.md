# database

A store of values under keys: strings, lists, sets and sorted sets, with
expirations, and channels that carry messages. The library is verified with
Verus.

- `src/value.rs` has the operations on values, `src/database.rs` those on the
  databases, the keys and those who listen.
- `src/string.rs`, `src/list.rs`, `src/set.rs` and `src/zset.rs` have one kind
  of value each; `src/rdb.rs` has their serialized form.
- `src/table.rs`, `src/bytemap.rs`, `src/byteset.rs`, `src/intset.rs` and
  `src/listeners.rs` are the collections.
- `src/laws.rs` states what holds of several operations together, and
  `src/history.rs` what holds over any number of them. Laws on one kind of value
  stand beside it.
- `src/adapters/` holds all that is trusted: the hash map, the ordered list, the
  checksum, random numbers, the clock and the sending half of channels.
- `app/` is the interface for callers that work with floating point scores, hash
  sets and writers.
