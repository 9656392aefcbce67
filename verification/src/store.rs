//! The bounded cache: a fixed array of slots threaded by integer links into a
//! recency chain, with a key index beside it.
//!
//! The abstract value of a [`KVStore`] is the sequence of its `(key, value)`
//! entries in recency order, least recently used first. Every contract in this
//! module is stated over that sequence, with the functions of
//! [`crate::recency`].

use crate::recency::{
    after_get, after_insert, bounded, distinct_keys, has_key, index_of, lemma_get_effect,
    lemma_index_of, lemma_insert_effect, promoted, value_of, Entries,
};
use vstd::hash_map::StringHashMap;
use vstd::prelude::*;

verus! {

/// One cell of the slot array: the key it is registered under, the owned
/// value, and the links to its neighbours in the recency chain.
pub struct Clipboard<T> {
    key: String,
    value: T,
    next: Option<usize>,
    prev: Option<usize>,
}

/// A slot index that names no occupied slot. The cache never produces one for
/// itself; the variant exists so that a breach of the structure's own contract
/// is reported rather than acted on.
#[derive(Debug, Clone, Copy, PartialEq, Eq)]
pub enum StoreArrayError {
    /// No occupied slot has this index.
    NotFound(usize),
}

/// Why a cache could not be constructed.
#[derive(Debug, Clone, Copy, PartialEq, Eq)]
pub enum ConfigError {
    /// A cache must be able to hold at least one entry.
    ZeroCapacity,
}

/// A capacity-bounded key-value cache with least-recently-used eviction.
///
/// The entries live in a slot array of fixed length. Each occupied slot holds
/// the indices of its neighbours in recency order, so that promoting and
/// evicting rewrite a few indices and allocate nothing.
pub struct KVStore<V> {
    /// The slot array, `capacity` cells long from construction on.
    buffer: Vec<Option<Clipboard<V>>>,
    /// The key index: for each key held, the slot it is held in.
    map: StringHashMap<usize>,
    /// The number of entries the cache can hold.
    capacity: usize,
    /// The number of entries held. Slots are first taken in index order and
    /// never given back, so this is also the index of the next slot that has
    /// never been used.
    length: usize,
    /// The slot of the least recently used entry: the next to be evicted.
    head: usize,
    /// The slot of the most recently used entry.
    tail: usize,
    /// The occupied slots in recency order, least recently used first.
    chain: Ghost<Seq<usize>>,
}

/// A sequence of `n` distinct indices below `n` contains every index below `n`.
proof fn lemma_chain_covers(chain: Seq<usize>, n: int, idx: usize)
    requires
        chain.len() == n,
        forall|p: int| 0 <= p < n ==> (#[trigger] chain[p]) < n,
        forall|p: int, q: int| 0 <= p < q < n ==> (#[trigger] chain[p]) != (#[trigger] chain[q]),
        idx < n,
    ensures
        exists|p: int| 0 <= p < n && chain[p] == idx,
{
    let ints = Seq::new(n as nat, |p: int| chain[p] as int);
    assert(ints.no_duplicates()) by {
        assert forall|i: int, j: int|
            0 <= i < ints.len() && 0 <= j < ints.len() && i != j implies ints[i] != ints[j] by {
            if i < j {
                assert(chain[i] != chain[j]);
            } else {
                assert(chain[j] != chain[i]);
            }
        }
    }
    ints.unique_seq_to_set();
    vstd::seq_lib::seq_to_set_is_finite(ints);
    vstd::set_lib::lemma_int_range(0, n);
    let range = vstd::set_lib::set_int_range(0, n);
    assert(ints.to_set().subset_of(range)) by {
        assert forall|v: int| ints.to_set().contains(v) implies range.contains(v) by {
            let i = choose|i: int| 0 <= i < ints.len() && ints[i] == v;
            assert(chain[i] < n);
        }
    }
    vstd::set_lib::lemma_subset_equality(ints.to_set(), range);
    assert(range.contains(idx as int));
    assert(ints.to_set().contains(idx as int));
    let p = choose|p: int| 0 <= p < ints.len() && ints[p] == idx as int;
    assert(chain[p] == idx);
}

/// Two places of a duplicate-free chain hold the same index only if they are
/// the same place.
proof fn lemma_distinct_from(chain: Seq<usize>, n: int, a: int, b: int)
    requires
        chain.len() == n,
        forall|p: int, q: int| 0 <= p < q < n ==> (#[trigger] chain[p]) != (#[trigger] chain[q]),
        0 <= a < n,
        0 <= b < n,
    ensures
        chain[a] == chain[b] <==> a == b,
{
    if a < b {
        assert(chain[a] != chain[b]);
    } else if b < a {
        assert(chain[b] != chain[a]);
    }
}

/// Rewrites the forward link of the occupied slot `i`.
fn set_next<V>(buffer: &mut Vec<Option<Clipboard<V>>>, i: usize, next: Option<usize>)
    requires
        i < old(buffer)@.len(),
        old(buffer)@[i as int].is_some(),
    ensures
        final(buffer)@ == old(buffer)@.update(
            i as int,
            Some(
                Clipboard {
                    key: old(buffer)@[i as int].unwrap().key,
                    value: old(buffer)@[i as int].unwrap().value,
                    next: next,
                    prev: old(buffer)@[i as int].unwrap().prev,
                },
            ),
        ),
{
    let ghost before = buffer@;
    match &mut buffer[i] {
        Some(slot) => {
            slot.next = next;
        },
        None => {},
    }
    assert(buffer@ =~= before.update(
        i as int,
        Some(
            Clipboard {
                key: before[i as int].unwrap().key,
                value: before[i as int].unwrap().value,
                next: next,
                prev: before[i as int].unwrap().prev,
            },
        ),
    ));
}

/// Rewrites the backward link of the occupied slot `i`.
fn set_prev<V>(buffer: &mut Vec<Option<Clipboard<V>>>, i: usize, prev: Option<usize>)
    requires
        i < old(buffer)@.len(),
        old(buffer)@[i as int].is_some(),
    ensures
        final(buffer)@ == old(buffer)@.update(
            i as int,
            Some(
                Clipboard {
                    key: old(buffer)@[i as int].unwrap().key,
                    value: old(buffer)@[i as int].unwrap().value,
                    next: old(buffer)@[i as int].unwrap().next,
                    prev: prev,
                },
            ),
        ),
{
    let ghost before = buffer@;
    match &mut buffer[i] {
        Some(slot) => {
            slot.prev = prev;
        },
        None => {},
    }
    assert(buffer@ =~= before.update(
        i as int,
        Some(
            Clipboard {
                key: before[i as int].unwrap().key,
                value: before[i as int].unwrap().value,
                next: before[i as int].unwrap().next,
                prev: prev,
            },
        ),
    ));
}

impl<V> View for KVStore<V> {
    type V = Entries<V>;

    closed spec fn view(&self) -> Entries<V> {
        Seq::new(self.chain@.len(), |p: int| self.entry_at(self.chain@[p]))
    }
}

impl<V> KVStore<V> {
    spec fn slot(&self, i: usize) -> Clipboard<V> {
        self.buffer@[i as int].unwrap()
    }

    spec fn entry_at(&self, i: usize) -> (Seq<char>, V) {
        (self.slot(i).key@, self.slot(i).value)
    }

    /// The slot array has `capacity` cells, and the occupied ones are exactly
    /// the first `length`: what lies beyond has never been used.
    spec fn shape_ok(&self) -> bool {
        &&& self.capacity > 0
        &&& self.buffer@.len() == self.capacity
        &&& self.length <= self.capacity
        &&& self.chain@.len() == self.length
        &&& forall|i: int|
            0 <= i < self.capacity ==> ((#[trigger] self.buffer@[i]).is_some() <==> i < self.length)
    }

    /// The chain visits occupied slots only, and none twice.
    spec fn chain_ok(&self) -> bool {
        &&& forall|p: int| 0 <= p < self.chain@.len() ==> (#[trigger] self.chain@[p]) < self.length
        &&& forall|p: int, q: int|
            0 <= p < q < self.chain@.len() ==> (#[trigger] self.chain@[p]) != (
            #[trigger] self.chain@[q])
    }

    /// The links stored in the slots spell out the chain, from `head` to `tail`.
    spec fn links_ok(&self) -> bool {
        &&& self.length > 0 ==> {
            &&& self.head == self.chain@[0]
            &&& self.tail == self.chain@[self.length - 1]
            &&& self.slot(self.chain@[0]).prev.is_none()
            &&& self.slot(self.chain@[self.length - 1]).next.is_none()
        }
        &&& forall|p: int, q: int|
            0 <= p && q == p + 1 && q < self.chain@.len() ==> {
                &&& self.slot(#[trigger] self.chain@[p]).next == Some(#[trigger] self.chain@[q])
                &&& self.slot(self.chain@[q]).prev == Some(self.chain@[p])
            }
    }

    /// The key index and the occupied slots are in bijection.
    spec fn index_ok(&self) -> bool {
        &&& forall|p: int|
            0 <= p < self.chain@.len() ==> {
                &&& self.map@.contains_key(self.slot(#[trigger] self.chain@[p]).key@)
                &&& self.map@[self.slot(self.chain@[p]).key@] == self.chain@[p]
            }
        &&& forall|k: Seq<char>| #[trigger]
            self.map@.contains_key(k) ==> {
                &&& self.map@[k] < self.length
                &&& self.slot(self.map@[k]).key@ == k
            }
    }

    /// Every slot that `before` had occupied, but slot `except`, is occupied
    /// still and holds the key and the value it held: no entry has moved.
    spec fn keeps_contents(&self, before: Self, except: int) -> bool {
        forall|i: int|
            0 <= i < before.length && i != except ==> {
                &&& (#[trigger] self.buffer@[i]).is_some()
                &&& self.buffer@[i].unwrap().key == before.buffer@[i].unwrap().key
                &&& self.buffer@[i].unwrap().value == before.buffer@[i].unwrap().value
            }
    }

    /// `self` is `before` after the occupied slot `idx`, which was not the
    /// tail, has been spliced out of the chain and appended behind the tail:
    /// its neighbours are linked to each other, the head has moved on if the
    /// slot was the head, and no other link has changed.
    spec fn spliced_to_tail(&self, before: Self, idx: usize) -> bool {
        let prev = before.slot(idx).prev;
        let next = before.slot(idx).next;
        &&& self.tail == idx
        &&& self.head == if before.head == idx { next.unwrap() } else { before.head }
        &&& self.slot(idx).next.is_none()
        &&& self.slot(idx).prev == Some(before.tail)
        &&& forall|i: int|
            0 <= i < before.length && i != idx ==> {
                &&& (#[trigger] self.buffer@[i]).unwrap().prev == if next == Some(i as usize) {
                    prev
                } else {
                    before.buffer@[i].unwrap().prev
                }
                &&& self.buffer@[i].unwrap().next == if i == before.tail {
                    Some(idx)
                } else if prev == Some(i as usize) {
                    next
                } else {
                    before.buffer@[i].unwrap().next
                }
            }
    }

    /// `self` is `before` after a new key has taken slot `idx`, the first
    /// slot never used: the slot is linked in behind the old tail, the key is
    /// registered under it, and nothing else has changed.
    spec fn took_unused(&self, before: Self, key: String, value: V, idx: usize) -> bool {
        &&& idx == before.length
        &&& before.buffer@[idx as int].is_none()
        &&& self.length == before.length + 1
        &&& self.tail == idx
        &&& self.head == if before.length == 0 { idx } else { before.head }
        &&& self.map@ == before.map@.insert(key@, idx)
        &&& self.slot(idx) == Clipboard {
            key: key,
            value: value,
            next: None,
            prev: if before.length == 0 { None } else { Some(before.tail) },
        }
        &&& self.keeps_contents(before, idx as int)
        &&& forall|i: int|
            0 <= i < before.length ==> {
                &&& (#[trigger] self.buffer@[i]).unwrap().prev == before.buffer@[i].unwrap().prev
                &&& self.buffer@[i].unwrap().next == if i == before.tail {
                    Some(idx)
                } else {
                    before.buffer@[i].unwrap().next
                }
            }
    }

    /// `self` is `before`, which was full, after its least recently used
    /// entry has been evicted for a new key: the new key has the slot `idx`
    /// that the head had, that slot has moved from the head of the chain to
    /// its tail, the index has lost the old key and gained the new one, and
    /// nothing else has changed.
    spec fn evicted(&self, before: Self, key: String, value: V, idx: usize) -> bool {
        let next_head = before.slot(before.head).next;
        &&& idx == before.head
        &&& self.length == before.length
        &&& self.tail == idx
        &&& self.head == if before.length == 1 { idx } else { next_head.unwrap() }
        &&& self.map@ == before.map@.remove(before.slot(before.head).key@).insert(key@, idx)
        &&& self.slot(idx) == Clipboard {
            key: key,
            value: value,
            next: None,
            prev: if before.length == 1 { None } else { Some(before.tail) },
        }
        &&& self.keeps_contents(before, idx as int)
        &&& forall|i: int|
            0 <= i < before.length && i != idx ==> {
                &&& (#[trigger] self.buffer@[i]).unwrap().prev == if next_head == Some(i as usize) {
                    None
                } else {
                    before.buffer@[i].unwrap().prev
                }
                &&& self.buffer@[i].unwrap().next == if i == before.tail {
                    Some(idx)
                } else {
                    before.buffer@[i].unwrap().next
                }
            }
    }

    /// The structural invariant of the cache. [`KVStore::new`] establishes it
    /// and every method preserves it; the fields are private, so no caller
    /// can break it.
    pub closed spec fn wf(&self) -> bool {
        &&& self.shape_ok()
        &&& self.chain_ok()
        &&& self.links_ok()
        &&& self.index_ok()
    }

    /// The number of entries the cache can hold, fixed at construction.
    pub closed spec fn spec_capacity(&self) -> usize {
        self.capacity
    }

    /// What a well-formed cache always satisfies: it holds at least one slot,
    /// never more entries than slots, and no key twice.
    pub proof fn lemma_wf_view(&self)
        requires
            self.wf(),
        ensures
            self.spec_capacity() > 0,
            self@.len() <= self.spec_capacity(),
            distinct_keys(self@),
            bounded(self@, self.spec_capacity() as nat),
    {
        assert forall|i: int, j: int| 0 <= i < j < self@.len() implies (#[trigger] self@[i]).0 != (
        #[trigger] self@[j]).0 by {
            let a = self.chain@[i];
            let b = self.chain@[j];
            assert(self.map@[self.slot(a).key@] == a);
            assert(self.map@[self.slot(b).key@] == b);
        }
    }

    /// An empty cache of the given capacity. A cache of no capacity is
    /// refused.
    pub fn new(capacity: usize) -> (result: Result<Self, ConfigError>)
        ensures
            capacity == 0 <==> result is Err,
            result matches Err(e) ==> e == ConfigError::ZeroCapacity,
            result matches Ok(store) ==> {
                &&& store.wf()
                &&& store.spec_capacity() == capacity
                &&& store@ == Seq::<(Seq<char>, V)>::empty()
            },
    {
        if capacity == 0 {
            return Err(ConfigError::ZeroCapacity);
        }
        let mut buffer: Vec<Option<Clipboard<V>>> = Vec::new();
        let mut i: usize = 0;
        while i < capacity
            invariant
                i <= capacity,
                buffer@.len() == i,
                forall|j: int| 0 <= j < i ==> (#[trigger] buffer@[j]).is_none(),
            decreases capacity - i,
        {
            buffer.push(None);
            i += 1;
        }
        let store = KVStore {
            buffer,
            map: StringHashMap::new(),
            capacity,
            length: 0,
            head: 0,
            tail: 0,
            chain: Ghost(Seq::empty()),
        };
        assert(store@ =~= Seq::<(Seq<char>, V)>::empty());
        Ok(store)
    }

    /// The number of entries the cache can hold.
    #[verifier::when_used_as_spec(spec_capacity)]
    pub fn capacity(&self) -> (result: usize)
        ensures
            result == self.spec_capacity(),
    {
        self.capacity
    }

    /// The number of entries the cache holds now.
    pub fn size(&self) -> (result: usize)
        requires
            self.wf(),
        ensures
            result == self@.len(),
            result <= self.spec_capacity(),
    {
        self.length
    }

    /// The value in slot `idx`, if that slot exists and is occupied.
    fn array_get(&self, idx: usize) -> (result: Option<&V>)
        ensures
            result == if idx < self.buffer@.len() && self.buffer@[idx as int].is_some() {
                Some(&self.slot(idx).value)
            } else {
                None
            },
    {
        if idx < self.buffer.len() {
            match &self.buffer[idx] {
                Some(slot) => Some(&slot.value),
                None => None,
            }
        } else {
            None
        }
    }

    /// Moves the occupied slot `idx` to the most-recently-used end of the
    /// chain. An index that names no occupied slot is reported and nothing
    /// changes.
    #[verifier::rlimit(50)]
    fn touch(&mut self, idx: usize) -> (result: Result<(), StoreArrayError>)
        requires
            old(self).wf(),
        ensures
            final(self).wf(),
            final(self).capacity == old(self).capacity,
            final(self).length == old(self).length,
            final(self).map@ == old(self).map@,
            final(self).keeps_contents(*old(self), -1),
            idx >= old(self).length <==> result is Err,
            result matches Err(e) ==> e == StoreArrayError::NotFound(idx) && *final(self) == *old(
                self,
            ),
            result is Ok && idx == old(self).tail ==> *final(self) == *old(self),
            result is Ok && idx != old(self).tail ==> final(self).spliced_to_tail(*old(self), idx),
            result is Ok ==> {
                &&& final(self).tail == idx
                &&& final(self).slot(idx).value == old(self).slot(idx).value
                &&& final(self).slot(idx).key == old(self).slot(idx).key
                &&& has_key(old(self)@, old(self).slot(idx).key@)
                &&& final(self)@ == promoted(
                    old(self)@,
                    old(self).slot(idx).key@,
                    old(self).slot(idx).value,
                )
            },
    {
        if idx >= self.buffer.len() {
            return Err(StoreArrayError::NotFound(idx));
        }
        let (prev_opt, next_opt) = match &self.buffer[idx] {
            Some(slot) => (slot.prev, slot.next),
            None => {
                return Err(StoreArrayError::NotFound(idx));
            },
        };
        let ghost chain = self.chain@;
        let ghost len = self.length as int;
        let ghost entries = self@;
        proof {
            lemma_chain_covers(chain, len, idx);
            self.lemma_wf_view();
        }
        // the slot stands at some place `p` of the chain
        let ghost p = choose|p: int| 0 <= p < len && chain[p] == idx;
        proof {
            assert(entries[p] == self.entry_at(idx));
            lemma_index_of(entries, self.slot(idx).key@, p);
        }
        if idx == self.tail {
            // the most recent entry is where it belongs already
            proof {
                if p < len - 1 {
                    assert(chain[p] != chain[len - 1]);
                }
                assert(entries.remove(p).push(entries[p]) =~= entries);
            }
            return Ok(());
        }
        proof {
            if p == len - 1 {
                assert(chain[p] == self.tail);
            }
            assert(chain[p + 1] < len);
            assert(self.slot(chain[p]).next == Some(chain[p + 1]));
            if p > 0 {
                assert(chain[p - 1] < len);
                assert(self.slot(chain[p - 1]).next == Some(chain[p]));
            }
        }
        // splice the slot out: its neighbours are linked to each other, and
        // the head moves on if the slot was the head
        let old_tail = self.tail;
        match next_opt {
            Some(n) => {
                match prev_opt {
                    Some(pi) => {
                        set_next(&mut self.buffer, pi, next_opt);
                    },
                    None => {
                        self.head = n;
                    },
                }
                set_prev(&mut self.buffer, n, prev_opt);
            },
            None => {},
        }
        // and append it behind the tail
        set_next(&mut self.buffer, idx, None);
        set_prev(&mut self.buffer, idx, Some(old_tail));
        set_next(&mut self.buffer, old_tail, Some(idx));
        self.tail = idx;
        // the chain after the move: place `p` is closed up, `idx` stands last
        let ghost moved = Seq::new(
            len as nat,
            |q: int|
                if q < p {
                    chain[q]
                } else if q < len - 1 {
                    chain[q + 1]
                } else {
                    idx
                },
        );
        self.chain = Ghost(moved);
        proof {
            let before = *old(self);
            assert forall|q: int| 0 <= q < len implies #[trigger] self.slot(chain[q]).key
                == before.slot(chain[q]).key && self.slot(chain[q]).value == before.slot(
                chain[q],
            ).value && self.buffer@[chain[q] as int].is_some() by {
                assert(chain[q] < len);
            }
            assert(self.shape_ok());
            assert(self.chain_ok()) by {
                assert forall|a: int, b: int| 0 <= a < b < len implies (#[trigger] moved[a]) != (
                #[trigger] moved[b]) by {
                    let a0 = if a < p { a } else { a + 1 };
                    let b0 = if b < p { b } else if b < len - 1 { b + 1 } else { p };
                    assert(moved[a] == chain[a0]);
                    assert(moved[b] == chain[b0]);
                    if a0 < b0 {
                        assert(chain[a0] != chain[b0]);
                    } else {
                        assert(chain[b0] != chain[a0]);
                    }
                }
                assert forall|a: int| 0 <= a < len implies (#[trigger] moved[a]) < len by {
                    let a0 = if a < p { a } else if a < len - 1 { a + 1 } else { p };
                    assert(moved[a] == chain[a0]);
                }
            }
            assert(self.index_ok()) by {
                assert forall|a: int| 0 <= a < len implies {
                    &&& self.map@.contains_key(self.slot(#[trigger] moved[a]).key@)
                    &&& self.map@[self.slot(moved[a]).key@] == moved[a]
                } by {
                    let a0 = if a < p { a } else if a < len - 1 { a + 1 } else { p };
                    assert(moved[a] == chain[a0]);
                    assert(self.slot(chain[a0]).key == before.slot(chain[a0]).key);
                }
                assert forall|k: Seq<char>| #[trigger] self.map@.contains_key(k) implies {
                    &&& self.map@[k] < self.length
                    &&& self.slot(self.map@[k]).key@ == k
                } by {
                    let i = before.map@[k];
                    lemma_chain_covers(chain, len, i);
                    let r = choose|r: int| 0 <= r < len && chain[r] == i;
                    assert(self.slot(chain[r]).key == before.slot(chain[r]).key);
                }
            }
            assert(self.links_ok()) by {
                assert forall|a: int, b: int| 0 <= a && b == a + 1 && b < len implies {
                    &&& self.slot(#[trigger] moved[a]).next == Some(#[trigger] moved[b])
                    &&& self.slot(moved[b]).prev == Some(moved[a])
                } by {
                    let a0 = if a < p { a } else { a + 1 };
                    let b0 = if b < p { b } else if b < len - 1 { b + 1 } else { p };
                    assert(moved[a] == chain[a0]);
                    assert(moved[b] == chain[b0]);
                    assert(chain[a0] < len && chain[b0] < len);
                    lemma_distinct_from(chain, len, a0, p);
                    lemma_distinct_from(chain, len, a0, len - 1);
                    lemma_distinct_from(chain, len, b0, p);
                    lemma_distinct_from(chain, len, b0, len - 1);
                    if p > 0 {
                        lemma_distinct_from(chain, len, a0, p - 1);
                        lemma_distinct_from(chain, len, b0, p - 1);
                    }
                    lemma_distinct_from(chain, len, a0, p + 1);
                    lemma_distinct_from(chain, len, b0, p + 1);
                    if b < p {
                        assert(before.slot(chain[a]).next == Some(chain[b]));
                    } else if b == p {
                        assert(before.slot(chain[p - 1]).next == Some(chain[p]));
                    } else if b < len - 1 {
                        assert(before.slot(chain[a + 1]).next == Some(chain[b + 1]));
                    }
                }
                let first = moved[0];
                if p == 0 {
                    assert(first == chain[1]);
                    assert(before.slot(chain[0]).prev.is_none());
                } else {
                    assert(first == chain[0]);
                    lemma_distinct_from(chain, len, 0, p);
                    lemma_distinct_from(chain, len, 0, p + 1);
                }
                assert(moved[len - 1] == idx);
            }
            assert(self@ =~= entries.remove(p).push(entries[p])) by {
                assert forall|q: int| 0 <= q < len implies #[trigger] self@[q] == entries.remove(
                    p,
                ).push(entries[p])[q] by {
                    let q0 = if q < p { q } else if q < len - 1 { q + 1 } else { p };
                    assert(moved[q] == chain[q0]);
                    assert(self.slot(chain[q0]).key == before.slot(chain[q0]).key);
                }
            }
        }
        Ok(())
    }
    /// The key index and the entry list agree on which keys are present, and
    /// on where each one lives.
    proof fn lemma_index_agrees(&self, key: Seq<char>)
        requires
            self.wf(),
        ensures
            self.map@.contains_key(key) <==> has_key(self@, key),
            self.map@.contains_key(key) ==> {
                &&& 0 <= index_of(self@, key) < self.length
                &&& self.chain@[index_of(self@, key)] == self.map@[key]
                &&& self.map@[key] < self.length
                &&& value_of(self@, key) == self.slot(self.map@[key]).value
                &&& self.slot(self.map@[key]).key@ == key
            },
    {
        self.lemma_wf_view();
        if self.map@.contains_key(key) {
            let i = self.map@[key];
            lemma_chain_covers(self.chain@, self.length as int, i);
            let p = choose|p: int| 0 <= p < self.length && self.chain@[p] == i;
            assert(self@[p] == self.entry_at(i));
            lemma_index_of(self@, key, p);
        }
        if has_key(self@, key) {
            let p = index_of(self@, key);
            assert(self@[p].0 == key);
            assert(self.map@.contains_key(self.slot(self.chain@[p]).key@));
        }
    }

    /// Replaces the value held in the occupied slot `idx`, in place.
    fn overwrite(&mut self, idx: usize, value: V)
        requires
            old(self).wf(),
            idx < old(self).length,
        ensures
            final(self).wf(),
            final(self).capacity == old(self).capacity,
            final(self).length == old(self).length,
            final(self).map@ == old(self).map@,
            final(self).chain@ == old(self).chain@,
            final(self).head == old(self).head,
            final(self).tail == old(self).tail,
            final(self).slot(idx) == (Clipboard {
                key: old(self).slot(idx).key,
                value: value,
                next: old(self).slot(idx).next,
                prev: old(self).slot(idx).prev,
            }),
            forall|i: int|
                0 <= i < old(self).capacity && i != idx ==> #[trigger] final(self).buffer@[i] == old(
                    self,
                ).buffer@[i],
            forall|p: int|
                0 <= p < old(self).length ==> #[trigger] final(self)@[p] == if old(self).chain@[p]
                    == idx {
                    (old(self).slot(idx).key@, value)
                } else {
                    old(self)@[p]
                },
    {
        match &mut self.buffer[idx] {
            Some(slot) => {
                slot.value = value;
            },
            None => {},
        }
        proof {
            let before = *old(self);
            assert forall|i: int| 0 <= i < self.capacity implies {
                &&& (#[trigger] self.buffer@[i]).is_some() == before.buffer@[i].is_some()
                &&& self.buffer@[i].unwrap().key == before.buffer@[i].unwrap().key
                &&& self.buffer@[i].unwrap().next == before.buffer@[i].unwrap().next
                &&& self.buffer@[i].unwrap().prev == before.buffer@[i].unwrap().prev
                &&& i != idx ==> self.buffer@[i] == before.buffer@[i]
            } by {}
            assert(self.links_ok()) by {
                assert forall|a: int, b: int|
                    0 <= a && b == a + 1 && b < self.chain@.len() implies {
                    &&& self.slot(#[trigger] self.chain@[a]).next == Some(#[trigger] self.chain@[b])
                    &&& self.slot(self.chain@[b]).prev == Some(self.chain@[a])
                } by {
                    assert(before.slot(before.chain@[a]).next == Some(before.chain@[b]));
                }
            }
            assert(self.index_ok()) by {
                assert forall|a: int| 0 <= a < self.chain@.len() implies {
                    &&& self.map@.contains_key(self.slot(#[trigger] self.chain@[a]).key@)
                    &&& self.map@[self.slot(self.chain@[a]).key@] == self.chain@[a]
                } by {
                    assert(before.map@.contains_key(before.slot(before.chain@[a]).key@));
                }
            }
        }
    }

    /// Admits a key that the cache does not hold: into the next slot that has
    /// never been used while one remains, else into the slot of the least
    /// recently used entry, which is evicted. Returns the slot taken.
    ///
    /// Slots are taken in index order and never given back, so the slots
    /// never used are exactly those from `length` on: there is one whenever
    /// the cache is not full, wherever the most recent entry happens to sit.
    fn array_insert(&mut self, key: String, value: V) -> (idx: usize)
        requires
            old(self).wf(),
            !has_key(old(self)@, key@),
        ensures
            final(self).wf(),
            final(self).capacity == old(self).capacity,
            idx == final(self).tail,
            final(self)@ == after_insert(old(self)@, old(self).capacity as nat, key@, value),
            old(self).length < old(self).capacity ==> final(self).took_unused(
                *old(self),
                key,
                value,
                idx,
            ),
            old(self).length == old(self).capacity ==> final(self).evicted(
                *old(self),
                key,
                value,
                idx,
            ),
    {
        proof {
            self.lemma_wf_view();
        }
        if self.length < self.capacity {
            self.take_unused(key, value)
        } else {
            self.evict(key, value)
        }
    }

    /// Puts a new key into the next slot that has never been used, and links
    /// the slot in as the most recent.
    #[verifier::rlimit(50)]
    fn take_unused(&mut self, key: String, value: V) -> (idx: usize)
        requires
            old(self).wf(),
            !has_key(old(self)@, key@),
            old(self).length < old(self).capacity,
        ensures
            final(self).wf(),
            final(self).capacity == old(self).capacity,
            idx == final(self).tail,
            final(self)@ == old(self)@.push((key@, value)),
            final(self).took_unused(*old(self), key, value, idx),
    {
        let map_key = key.clone();
        let ghost chain = self.chain@;
        let ghost len = self.length as int;
        let ghost entries = self@;
        let ghost new_key = key@;
        proof {
            self.lemma_wf_view();
            self.lemma_index_agrees(new_key);
            assert forall|p: int| 0 <= p < len implies self.slot(#[trigger] chain[p]).key@
                != new_key by {
                assert(entries[p].0 != new_key);
            }
        }
        let idx = self.length;
        let old_tail = self.tail;
        if self.length == 0 {
            self.buffer.set(idx, Some(Clipboard { key, value, next: None, prev: None }));
            self.head = idx;
        } else {
            proof {
                assert(chain[len - 1] < len);
            }
            self.buffer.set(
                idx,
                Some(Clipboard { key, value, next: None, prev: Some(old_tail) }),
            );
            set_next(&mut self.buffer, old_tail, Some(idx));
        }
        self.tail = idx;
        self.length = self.length + 1;
        self.chain = Ghost(chain.push(idx));
        self.map.insert(map_key, idx);
        proof {
            let before = *old(self);
            let grown = chain.push(idx);
            assert forall|q: int| 0 <= q < len implies #[trigger] self.slot(chain[q]).key
                == before.slot(chain[q]).key && self.slot(chain[q]).value == before.slot(
                chain[q],
            ).value && self.slot(chain[q]).prev == before.slot(chain[q]).prev && (q < len - 1
                ==> self.slot(chain[q]).next == before.slot(chain[q]).next) by {
                assert(chain[q] < len);
                lemma_distinct_from(chain, len, q, len - 1);
            }
            assert(self.shape_ok());
            assert(self.chain_ok()) by {
                assert forall|a: int, b: int| 0 <= a < b < len + 1 implies (
                #[trigger] grown[a]) != (#[trigger] grown[b]) by {
                    assert(chain[a] < len);
                    if b < len {
                        assert(chain[a] != chain[b]);
                    }
                }
                assert forall|a: int| 0 <= a < len + 1 implies (#[trigger] grown[a]) < len
                    + 1 by {
                    if a < len {
                        assert(chain[a] < len);
                    }
                }
            }
            assert(self.links_ok()) by {
                assert forall|a: int, b: int| 0 <= a && b == a + 1 && b < len + 1 implies {
                    &&& self.slot(#[trigger] grown[a]).next == Some(#[trigger] grown[b])
                    &&& self.slot(grown[b]).prev == Some(grown[a])
                } by {
                    assert(grown[a] == chain[a]);
                    if b < len {
                        assert(grown[b] == chain[b]);
                        assert(before.slot(chain[a]).next == Some(chain[b]));
                    }
                }
                if len > 0 {
                    assert(grown[0] == chain[0]);
                }
            }
            assert(self.index_ok()) by {
                assert forall|a: int| 0 <= a < len + 1 implies {
                    &&& self.map@.contains_key(self.slot(#[trigger] grown[a]).key@)
                    &&& self.map@[self.slot(grown[a]).key@] == grown[a]
                } by {
                    if a < len {
                        assert(grown[a] == chain[a]);
                        assert(self.slot(chain[a]).key == before.slot(chain[a]).key);
                        assert(before.map@.contains_key(before.slot(chain[a]).key@));
                    }
                }
                assert forall|k: Seq<char>| #[trigger] self.map@.contains_key(k) implies {
                    &&& self.map@[k] < self.length
                    &&& self.slot(self.map@[k]).key@ == k
                } by {
                    if k != new_key {
                        let i = before.map@[k];
                        lemma_chain_covers(chain, len, i);
                        let r = choose|r: int| 0 <= r < len && chain[r] == i;
                        assert(self.slot(chain[r]).key == before.slot(chain[r]).key);
                    }
                }
            }
            assert(self@ =~= entries.push((new_key, value))) by {
                assert forall|q: int| 0 <= q < len + 1 implies #[trigger] self@[q]
                    == entries.push((new_key, value))[q] by {
                    if q < len {
                        assert(grown[q] == chain[q]);
                        assert(self.slot(chain[q]).key == before.slot(chain[q]).key);
                    }
                }
            }
        }
        idx
    }

    /// Evicts the least recently used entry to admit a new key: the key at
    /// the head leaves the index, its slot takes the new key and value, and
    /// the slot moves from the head of the chain to its tail.
    #[verifier::rlimit(50)]
    fn evict(&mut self, key: String, value: V) -> (idx: usize)
        requires
            old(self).wf(),
            !has_key(old(self)@, key@),
            old(self).length == old(self).capacity,
        ensures
            final(self).wf(),
            final(self).capacity == old(self).capacity,
            idx == final(self).tail,
            final(self)@ == old(self)@.drop_first().push((key@, value)),
            final(self).evicted(*old(self), key, value, idx),
    {
        let map_key = key.clone();
        let ghost chain = self.chain@;
        let ghost len = self.length as int;
        let ghost entries = self@;
        let ghost new_key = key@;
        proof {
            self.lemma_wf_view();
            self.lemma_index_agrees(new_key);
            assert forall|p: int| 0 <= p < len implies self.slot(#[trigger] chain[p]).key@
                != new_key by {
                assert(entries[p].0 != new_key);
            }
        }
        let h = self.head;
        let old_tail = self.tail;
        proof {
            assert(chain[0] < len);
            assert(chain[len - 1] < len);
        }
        let next_head = match &self.buffer[h] {
            Some(slot) => {
                self.map.remove(slot.key.as_str());
                slot.next
            },
            None => None,
        };
        let ghost gone = old(self).slot(h).key@;
        match next_head {
            Some(nh) => {
                proof {
                    if len == 1 {
                        assert(self.slot(chain[len - 1]).next.is_none());
                    }
                    assert(chain[1] < len);
                    assert(self.slot(chain[0]).next == Some(chain[1]));
                    lemma_distinct_from(chain, len, 0, len - 1);
                }
                set_prev(&mut self.buffer, nh, None);
                set_next(&mut self.buffer, old_tail, Some(h));
                self.buffer.set(
                    h,
                    Some(Clipboard { key, value, next: None, prev: Some(old_tail) }),
                );
                self.head = nh;
                self.tail = h;
            },
            None => {
                proof {
                    if len > 1 {
                        assert(chain[1] < len);
                        assert(self.slot(chain[0]).next == Some(chain[1]));
                    }
                }
                self.buffer.set(h, Some(Clipboard { key, value, next: None, prev: None }));
            },
        }
        let ghost turned = Seq::new(
            len as nat,
            |q: int|
                if q < len - 1 {
                    chain[q + 1]
                } else {
                    h
                },
        );
        self.chain = Ghost(turned);
        self.map.insert(map_key, h);
        proof {
            let before = *old(self);
            assert forall|q: int| 1 <= q < len implies #[trigger] self.slot(chain[q]).key
                == before.slot(chain[q]).key && self.slot(chain[q]).value == before.slot(
                chain[q],
            ).value && self.buffer@[chain[q] as int].is_some() && before.slot(chain[q]).key@
                != gone by {
                assert(chain[q] < len);
                lemma_distinct_from(chain, len, q, 0);
                assert(entries[0].0 != entries[q].0);
            }
            assert(self.shape_ok());
            assert(self.chain_ok()) by {
                assert forall|a: int, b: int| 0 <= a < b < len implies (
                #[trigger] turned[a]) != (#[trigger] turned[b]) by {
                    let b0 = if b < len - 1 { b + 1 } else { 0 };
                    assert(turned[a] == chain[a + 1]);
                    assert(turned[b] == chain[b0]);
                    lemma_distinct_from(chain, len, a + 1, b0);
                }
                assert forall|a: int| 0 <= a < len implies (#[trigger] turned[a]) < len by {
                    let a0 = if a < len - 1 { a + 1 } else { 0 };
                    assert(turned[a] == chain[a0]);
                }
            }
            assert(self.links_ok()) by {
                assert forall|a: int, b: int| 0 <= a && b == a + 1 && b < len implies {
                    &&& self.slot(#[trigger] turned[a]).next == Some(#[trigger] turned[b])
                    &&& self.slot(turned[b]).prev == Some(turned[a])
                } by {
                    let b0 = if b < len - 1 { b + 1 } else { 0 };
                    assert(turned[a] == chain[a + 1]);
                    assert(turned[b] == chain[b0]);
                    assert(chain[a + 1] < len && chain[b0] < len);
                    lemma_distinct_from(chain, len, a + 1, 0);
                    lemma_distinct_from(chain, len, a + 1, 1);
                    lemma_distinct_from(chain, len, a + 1, len - 1);
                    lemma_distinct_from(chain, len, b0, 0);
                    lemma_distinct_from(chain, len, b0, 1);
                    lemma_distinct_from(chain, len, b0, len - 1);
                    if b < len - 1 {
                        assert(before.slot(chain[a + 1]).next == Some(chain[b + 1]));
                    }
                }
                if len > 1 {
                    assert(turned[0] == chain[1]);
                }
                assert(turned[len - 1] == h);
            }
            assert(self.index_ok()) by {
                assert forall|a: int| 0 <= a < len implies {
                    &&& self.map@.contains_key(self.slot(#[trigger] turned[a]).key@)
                    &&& self.map@[self.slot(turned[a]).key@] == turned[a]
                } by {
                    if a < len - 1 {
                        assert(turned[a] == chain[a + 1]);
                        assert(self.slot(chain[a + 1]).key == before.slot(chain[a + 1]).key);
                        assert(before.map@.contains_key(before.slot(chain[a + 1]).key@));
                    }
                }
                assert forall|k: Seq<char>| #[trigger] self.map@.contains_key(k) implies {
                    &&& self.map@[k] < self.length
                    &&& self.slot(self.map@[k]).key@ == k
                } by {
                    if k != new_key {
                        let i = before.map@[k];
                        lemma_chain_covers(chain, len, i);
                        let r = choose|r: int| 0 <= r < len && chain[r] == i;
                        if r >= 1 {
                            assert(self.slot(chain[r]).key == before.slot(chain[r]).key);
                        }
                    }
                }
            }
            assert(self@ =~= entries.drop_first().push((new_key, value))) by {
                assert forall|q: int| 0 <= q < len implies #[trigger] self@[q]
                    == entries.drop_first().push((new_key, value))[q] by {
                    if q < len - 1 {
                        assert(turned[q] == chain[q + 1]);
                        assert(self.slot(chain[q + 1]).key == before.slot(chain[q + 1]).key);
                    }
                }
            }
        }
        h
    }

    /// Sets `key` to `value`. A key already held has its value overwritten
    /// in place; a new key takes a free slot, or the slot of the least
    /// recently used entry when none is free. Either way the entry becomes
    /// the most recently used.
    pub fn insert(&mut self, key: String, value: V)
        requires
            old(self).wf(),
        ensures
            final(self).wf(),
            final(self).spec_capacity() == old(self).spec_capacity(),
            final(self)@ == after_insert(
                old(self)@,
                old(self).spec_capacity() as nat,
                key@,
                value,
            ),
            final(self)@.len() <= final(self).spec_capacity(),
            has_key(final(self)@, key@),
            value_of(final(self)@, key@) == value,
            final(self)@.last() == (key@, value),
    {
        proof {
            self.lemma_index_agrees(key@);
            self.lemma_wf_view();
            lemma_insert_effect(self@, self.capacity as nat, key@, value, key@);
        }
        let found = match self.map.get(key.as_str()) {
            Some(i) => Some(*i),
            None => None,
        };
        match found {
            Some(idx) => {
                let ghost p = index_of(self@, key@);
                let ghost stored = self.slot(idx).key@;
                self.overwrite(idx, value);
                let ghost mid = self@;
                proof {
                    self.lemma_wf_view();
                    assert(mid[p] == (stored, value));
                    lemma_index_of(mid, stored, p);
                    assert(mid.remove(p) =~= old(self)@.remove(p)) by {
                        assert forall|q: int| 0 <= q < mid.len() - 1 implies mid.remove(p)[q]
                            == old(self)@.remove(p)[q] by {
                            let q0 = if q < p { q } else { q + 1 };
                            assert(mid[q0] == old(self)@[q0]) by {
                                lemma_distinct_from(
                                    old(self).chain@,
                                    old(self).length as int,
                                    q0,
                                    p,
                                );
                            }
                        }
                    }
                }
                let _ = self.touch(idx);
            },
            None => {
                let _ = self.array_insert(key, value);
            },
        }
    }

    /// Looks `key` up. A hit returns the value and makes the entry the most
    /// recently used: every read changes the recency order. A miss changes
    /// nothing.
    pub fn get(&mut self, key: &str) -> (result: Option<&V>)
        requires
            old(self).wf(),
        ensures
            final(self).wf(),
            final(self).spec_capacity() == old(self).spec_capacity(),
            final(self)@ == after_get(old(self)@, key@),
            final(self)@.len() == old(self)@.len(),
            result == if has_key(old(self)@, key@) {
                Some(&value_of(old(self)@, key@))
            } else {
                None::<&V>
            },
            result is Some ==> final(self)@.last() == (key@, value_of(old(self)@, key@)),
    {
        proof {
            self.lemma_wf_view();
            lemma_get_effect(self@, key@, key@);
        }
        proof {
            self.lemma_index_agrees(key@);
        }
        let idx = match self.map.get(key) {
            Some(i) => *i,
            None => {
                return None;
            },
        };
        match self.touch(idx) {
            Ok(()) => {},
            Err(_) => {
                return None;
            },
        }
        self.array_get(idx)
    }
}

} // verus!
