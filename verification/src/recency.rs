//! The recency order of a bounded cache, as mathematics.
//!
//! A cache is modelled by the sequence of its `(key, value)` entries, least
//! recently used first. This module says what a lookup and an update do to
//! that sequence, and proves what follows for every cache and every sequence
//! of operations.

use vstd::prelude::*;

verus! {

/// An entry list in recency order: the first entry is the next eviction
/// candidate, the last one is the most recently used.
pub type Entries<V> = Seq<(Seq<char>, V)>;

/// Some entry of `entries` is stored under `key`.
pub open spec fn has_key<V>(entries: Entries<V>, key: Seq<char>) -> bool {
    exists|i: int| 0 <= i < entries.len() && (#[trigger] entries[i]).0 == key
}

/// The position of the entry stored under `key` (meaningful when `has_key`).
pub open spec fn index_of<V>(entries: Entries<V>, key: Seq<char>) -> int {
    choose|i: int| 0 <= i < entries.len() && (#[trigger] entries[i]).0 == key
}

/// The value stored under `key` (meaningful when `has_key`).
pub open spec fn value_of<V>(entries: Entries<V>, key: Seq<char>) -> V {
    entries[index_of(entries, key)].1
}

/// No two entries share a key.
pub open spec fn distinct_keys<V>(entries: Entries<V>) -> bool {
    forall|i: int, j: int|
        0 <= i < j < entries.len() ==> (#[trigger] entries[i]).0 != (#[trigger] entries[j]).0
}

/// The entry under `key` leaves its place and comes back, holding `value`, at
/// the most-recently-used end.
pub open spec fn promoted<V>(entries: Entries<V>, key: Seq<char>, value: V) -> Entries<V> {
    entries.remove(index_of(entries, key)).push((key, value))
}

/// The entries after a lookup of `key`: a hit promotes the entry, a miss
/// changes nothing.
pub open spec fn after_get<V>(entries: Entries<V>, key: Seq<char>) -> Entries<V> {
    if has_key(entries, key) {
        promoted(entries, key, value_of(entries, key))
    } else {
        entries
    }
}

/// The entries after `key` is set to `value` in a cache that holds at most
/// `capacity` entries: an existing key is overwritten and promoted; a new key
/// is appended, and where the cache is full the least recently used entry
/// leaves first.
pub open spec fn after_insert<V>(
    entries: Entries<V>,
    capacity: nat,
    key: Seq<char>,
    value: V,
) -> Entries<V> {
    if has_key(entries, key) {
        promoted(entries, key, value)
    } else if entries.len() < capacity {
        entries.push((key, value))
    } else {
        entries.drop_first().push((key, value))
    }
}

/// With distinct keys, the entry under a key is where one finds it.
pub proof fn lemma_index_of<V>(entries: Entries<V>, key: Seq<char>, p: int)
    requires
        distinct_keys(entries),
        0 <= p < entries.len(),
        entries[p].0 == key,
    ensures
        has_key(entries, key),
        index_of(entries, key) == p,
        value_of(entries, key) == entries[p].1,
{
    // the place that `index_of` picks holds the same key, so it is `p`
    let i = index_of(entries, key);
    if i < p {
        assert(entries[i].0 != entries[p].0);
    } else if p < i {
        assert(entries[p].0 != entries[i].0);
    }
}

/// What every cache satisfies: it has room for at least one entry, holds no
/// more entries than it has room for, and holds no key twice.
pub open spec fn bounded<V>(entries: Entries<V>, capacity: nat) -> bool {
    &&& capacity > 0
    &&& entries.len() <= capacity
    &&& distinct_keys(entries)
}

/// One operation on a cache: a lookup, or an update.
pub enum Op<V> {
    Get(Seq<char>),
    Put(Seq<char>, V),
}

/// The entries after one operation.
pub open spec fn after_op<V>(entries: Entries<V>, capacity: nat, op: Op<V>) -> Entries<V> {
    match op {
        Op::Get(key) => after_get(entries, key),
        Op::Put(key, value) => after_insert(entries, capacity, key, value),
    }
}

/// The entries after a sequence of operations, applied first to last.
pub open spec fn after_ops<V>(entries: Entries<V>, capacity: nat, ops: Seq<Op<V>>) -> Entries<V>
    decreases ops.len(),
{
    if ops.len() == 0 {
        entries
    } else {
        after_op(after_ops(entries, capacity, ops.drop_last()), capacity, ops.last())
    }
}

/// The value that the last update of `key` among `ops` wrote, if `ops`
/// updates `key` at all.
pub open spec fn last_write<V>(ops: Seq<Op<V>>, key: Seq<char>) -> Option<V>
    decreases ops.len(),
{
    if ops.len() == 0 {
        None
    } else {
        match ops.last() {
            Op::Put(k, value) if k == key => Some(value),
            _ => last_write(ops.drop_last(), key),
        }
    }
}

/// The same lookup, `times` times over.
pub open spec fn after_gets<V>(entries: Entries<V>, key: Seq<char>, times: nat) -> Entries<V>
    decreases times,
{
    if times == 0 {
        entries
    } else {
        after_get(after_gets(entries, key, (times - 1) as nat), key)
    }
}

/// What promotion does, entry by entry: the promoted entry is last and holds
/// the new value; every other key is still there with the value it had.
pub proof fn lemma_promoted<V>(entries: Entries<V>, key: Seq<char>, value: V, other: Seq<char>)
    requires
        distinct_keys(entries),
        has_key(entries, key),
    ensures
        promoted(entries, key, value).len() == entries.len(),
        distinct_keys(promoted(entries, key, value)),
        promoted(entries, key, value).last() == (key, value),
        has_key(promoted(entries, key, value), other) <==> has_key(entries, other),
        value_of(promoted(entries, key, value), key) == value,
        other != key && has_key(entries, other) ==> value_of(
            promoted(entries, key, value),
            other,
        ) == value_of(entries, other),
{
    let p = index_of(entries, key);
    let len = entries.len() as int;
    let r = promoted(entries, key, value);
    // the promoted entry is the last one
    assert(r[len - 1] == (key, value));
    if has_key(entries, other) && other != key {
        // an entry that stays is found one place down if it stood behind the promoted one
        let j = index_of(entries, other);
        let j1 = if j < p { j } else { j - 1 };
        assert(r[j1] == entries[j]);
    }
    if has_key(r, other) {
        // and whatever is found afterwards was there before
        let i = index_of(r, other);
        let i0 = if i < p { i } else if i < len - 1 { i + 1 } else { p };
        assert(entries[i0].0 == other);
    }
}

/// What a lookup does, key by key: nothing is lost, nothing is gained, and
/// no value changes. After a hit the entry looked up is the most recent one.
pub proof fn lemma_get_effect<V>(entries: Entries<V>, key: Seq<char>, other: Seq<char>)
    requires
        distinct_keys(entries),
    ensures
        after_get(entries, key).len() == entries.len(),
        distinct_keys(after_get(entries, key)),
        has_key(after_get(entries, key), other) <==> has_key(entries, other),
        has_key(entries, other) ==> value_of(after_get(entries, key), other) == value_of(
            entries,
            other,
        ),
        has_key(entries, key) ==> after_get(entries, key).last() == (key, value_of(entries, key)),
{
    if has_key(entries, key) {
        lemma_promoted(entries, key, value_of(entries, key), other);
    }
}

/// What an update does, key by key: the key that was set is present, most
/// recent, and holds the new value; no other key appears, and one that is
/// still present holds the value it held; the only key that can leave is the
/// least recently used one, and only when a new key arrives at a full cache.
pub proof fn lemma_insert_effect<V>(
    entries: Entries<V>,
    capacity: nat,
    key: Seq<char>,
    value: V,
    other: Seq<char>,
)
    requires
        bounded(entries, capacity),
    ensures
        bounded(after_insert(entries, capacity, key, value), capacity),
        has_key(after_insert(entries, capacity, key, value), key),
        value_of(after_insert(entries, capacity, key, value), key) == value,
        after_insert(entries, capacity, key, value).last() == (key, value),
        other != key && has_key(after_insert(entries, capacity, key, value), other) ==> {
            &&& has_key(entries, other)
            &&& value_of(after_insert(entries, capacity, key, value), other) == value_of(
                entries,
                other,
            )
        },
        other != key && has_key(entries, other) && !has_key(
            after_insert(entries, capacity, key, value),
            other,
        ) ==> {
            &&& !has_key(entries, key)
            &&& entries.len() == capacity
            &&& entries[0].0 == other
        },
{
    let r = after_insert(entries, capacity, key, value);
    let len = entries.len() as int;
    if has_key(entries, key) {
        lemma_promoted(entries, key, value, other);
    } else {
        // a new key: the entries that stay keep their order, `shift` places down
        let shift: int = if len < capacity { 0 } else { 1 };
        assert(r[r.len() - 1] == (key, value));
        if other != key && has_key(entries, other) && !has_key(r, other) {
            // an entry that was not shifted out would still be found
            let j = index_of(entries, other);
            if j - shift >= 0 {
                assert(r[j - shift] == entries[j]);
            }
        }
    }
}

/// A cache never holds more than its capacity, whatever sequence of
/// operations it has gone through, and never holds a key twice.
pub proof fn lemma_ops_stay_bounded<V>(entries: Entries<V>, capacity: nat, ops: Seq<Op<V>>)
    requires
        bounded(entries, capacity),
    ensures
        bounded(after_ops(entries, capacity, ops), capacity),
        after_ops(entries, capacity, ops).len() <= capacity,
    decreases ops.len(),
{
    if ops.len() > 0 {
        lemma_ops_stay_bounded(entries, capacity, ops.drop_last());
        let before = after_ops(entries, capacity, ops.drop_last());
        match ops.last() {
            Op::Get(key) => {
                lemma_get_effect(before, key, key);
            },
            Op::Put(key, value) => {
                lemma_insert_effect(before, capacity, key, value, key);
            },
        }
    }
}

/// A key that has just been set is found, with the value it was set to.
pub proof fn lemma_insert_then_get<V>(entries: Entries<V>, capacity: nat, key: Seq<char>, value: V)
    requires
        bounded(entries, capacity),
    ensures
        has_key(after_insert(entries, capacity, key, value), key),
        value_of(after_insert(entries, capacity, key, value), key) == value,
{
    lemma_insert_effect(entries, capacity, key, value, key);
}

/// Looking up the most recently used key, once or any number of times,
/// leaves the recency order as it was.
pub proof fn lemma_get_of_most_recent<V>(entries: Entries<V>, key: Seq<char>, times: nat)
    requires
        distinct_keys(entries),
        entries.len() > 0,
        entries.last().0 == key,
    ensures
        after_get(entries, key) == entries,
        after_gets(entries, key, times) == entries,
    decreases times,
{
    // the key is found in the last place, and an entry taken from the last
    // place and put back there has not moved
    let last = entries.len() - 1;
    lemma_index_of(entries, key, last);
    assert(entries.remove(last).push(entries[last]) =~= entries);
    if times > 0 {
        lemma_get_of_most_recent(entries, key, (times - 1) as nat);
    }
}

/// Reading a key shields it from the next eviction: in a cache that holds
/// more than one entry, the key that was just looked up is still there after
/// any one update, and with the value it had.
pub proof fn lemma_read_key_survives<V>(
    entries: Entries<V>,
    capacity: nat,
    read: Seq<char>,
    key: Seq<char>,
    value: V,
)
    requires
        bounded(entries, capacity),
        has_key(entries, read),
        entries.len() >= 2,
        key != read,
    ensures
        has_key(after_insert(after_get(entries, read), capacity, key, value), read),
        value_of(after_insert(after_get(entries, read), capacity, key, value), read) == value_of(
            entries,
            read,
        ),
{
    // after the lookup the key is last, so it is not the first, and only the
    // first entry can leave
    let looked = after_get(entries, read);
    lemma_get_effect(entries, read, read);
    lemma_insert_effect(looked, capacity, key, value, read);
}

/// While an empty cache is filled with distinct keys and no more of them
/// than it has room for, it holds exactly what was put in, in that order.
pub proof fn lemma_fill<V>(capacity: nat, puts: Seq<(Seq<char>, V)>)
    requires
        capacity > 0,
        puts.len() <= capacity,
        distinct_keys(puts),
    ensures
        after_ops(Seq::empty(), capacity, puts.map_values(|e: (Seq<char>, V)| Op::Put(e.0, e.1)))
            == puts,
    decreases puts.len(),
{
    let ops = puts.map_values(|e: (Seq<char>, V)| Op::Put(e.0, e.1));
    if puts.len() > 0 {
        // all but the last key went in unchanged; the last one is new and
        // there is room for it
        let head = puts.drop_last();
        lemma_fill(capacity, head);
        assert(ops.drop_last() =~= head.map_values(|e: (Seq<char>, V)| Op::Put(e.0, e.1)));
    }
}

/// One key more than an empty cache has room for, all distinct, put in one
/// after the other: the first key is gone, and every later one is still
/// there with its value.
pub proof fn lemma_overflow_evicts_oldest<V>(capacity: nat, puts: Seq<(Seq<char>, V)>, i: int)
    requires
        capacity > 0,
        puts.len() == capacity + 1,
        distinct_keys(puts),
        1 <= i <= capacity,
    ensures
        after_ops(Seq::empty(), capacity, puts.map_values(|e: (Seq<char>, V)| Op::Put(e.0, e.1)))
            == puts.drop_first(),
        !has_key(puts.drop_first(), puts[0].0),
        has_key(puts.drop_first(), puts[i].0),
        value_of(puts.drop_first(), puts[i].0) == puts[i].1,
{
    let ops = puts.map_values(|e: (Seq<char>, V)| Op::Put(e.0, e.1));
    let head = puts.drop_last();
    let rest = puts.drop_first();
    // the first `capacity` keys fill the cache; the last one finds it full
    // and pushes the first one out
    lemma_fill(capacity, head);
    assert(ops.drop_last() =~= head.map_values(|e: (Seq<char>, V)| Op::Put(e.0, e.1)));
    assert(rest[i - 1] == puts[i]);
}

/// Whatever sequence of lookups and updates a cache has gone through, a key
/// that was updated and is still present holds the value of its last update.
pub proof fn lemma_last_write_wins<V>(
    entries: Entries<V>,
    capacity: nat,
    ops: Seq<Op<V>>,
    key: Seq<char>,
)
    requires
        bounded(entries, capacity),
        has_key(after_ops(entries, capacity, ops), key),
    ensures
        match last_write(ops, key) {
            Some(value) => value_of(after_ops(entries, capacity, ops), key) == value,
            None => has_key(entries, key) && value_of(after_ops(entries, capacity, ops), key)
                == value_of(entries, key),
        },
    decreases ops.len(),
{
    if ops.len() > 0 {
        let before = after_ops(entries, capacity, ops.drop_last());
        lemma_ops_stay_bounded(entries, capacity, ops.drop_last());
        match ops.last() {
            Op::Get(k) => {
                // a lookup changes neither which keys are held nor their values
                lemma_get_effect(before, k, key);
                lemma_last_write_wins(entries, capacity, ops.drop_last(), key);
            },
            Op::Put(k, value) => {
                // an update of this key is its last write; an update of
                // another key leaves this one's value alone
                lemma_insert_effect(before, capacity, k, value, key);
                if k != key {
                    lemma_last_write_wins(entries, capacity, ops.drop_last(), key);
                }
            },
        }
    }
}

} // verus!
