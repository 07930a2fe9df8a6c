//! The key-value store: a map from keys to values with an optional expiry.
//!
//! Keys are compared by their bytes. The store is a plain value with one
//! owner; sharing it between connections, behind a lock, is the caller's
//! part.

use crate::buffer::{bytes_seq, bytes_slice};
use crate::text::same_bytes;
use bytes::Bytes;
use vstd::prelude::*;

verus! {

/// What the store keeps under a key.
#[derive(Debug, Clone)]
pub struct StoredValue {
    /// The value.
    pub value: Bytes,
    /// The time, in milliseconds since the Unix epoch, from which on the
    /// entry counts as gone; `None` for an entry that never expires.
    pub expiry: Option<u128>,
}

/// A stored entry as a mathematical object.
pub struct StoredEntry {
    pub value: Seq<u8>,
    pub expiry: Option<u128>,
}

impl View for StoredValue {
    type V = StoredEntry;

    open spec fn view(&self) -> StoredEntry {
        StoredEntry { value: bytes_seq(&self.value), expiry: self.expiry }
    }
}

/// The key of the entry at position `i`.
pub open spec fn key_at(entries: Seq<(Bytes, StoredValue)>, i: int) -> Seq<u8> {
    bytes_seq(&entries[i].0)
}

/// Whether some entry has the key `k`.
pub open spec fn has_key(entries: Seq<(Bytes, StoredValue)>, k: Seq<u8>) -> bool {
    exists|i: int| 0 <= i < entries.len() && key_at(entries, i) == k
}

/// The position of an entry with the key `k`.
pub open spec fn index_of(entries: Seq<(Bytes, StoredValue)>, k: Seq<u8>) -> int {
    choose|i: int| 0 <= i < entries.len() && key_at(entries, i) == k
}

/// Whether no two entries have the same key.
pub open spec fn distinct_keys(entries: Seq<(Bytes, StoredValue)>) -> bool {
    forall|i: int, j: int|
        0 <= i < j < entries.len() ==> key_at(entries, i) != key_at(entries, j)
}

/// The map that a list of entries stands for.
pub open spec fn entries_map(entries: Seq<(Bytes, StoredValue)>) -> Map<Seq<u8>, StoredEntry> {
    Map::new(|k: Seq<u8>| has_key(entries, k), |k: Seq<u8>| entries[index_of(entries, k)].1@)
}

/// A map from keys to stored values. No key occurs twice.
pub struct Store {
    entries: Vec<(Bytes, StoredValue)>,
}

impl View for Store {
    type V = Map<Seq<u8>, StoredEntry>;

    closed spec fn view(&self) -> Map<Seq<u8>, StoredEntry> {
        entries_map(self.entries@)
    }
}

impl Store {
    /// What every store keeps: no key occurs twice.
    #[verifier::type_invariant]
    spec fn keys_are_distinct(self) -> bool {
        distinct_keys(self.entries@)
    }

    /// An empty store.
    pub fn new() -> (s: Store)
        ensures
            s@ == Map::<Seq<u8>, StoredEntry>::empty(),
    {
        let s = Store { entries: Vec::new() };
        assert(s@ =~= Map::<Seq<u8>, StoredEntry>::empty());
        s
    }

    /// The number of entries.
    pub fn len(&self) -> (n: usize)
        ensures
            n == self@.dom().len(),
            self@.dom().finite(),
    {
        proof {
            use_type_invariant(self);
            lemma_entries_map_len(self.entries@);
        }
        self.entries.len()
    }

    /// Takes the entries out and leaves the store empty.
    fn take_entries(&mut self) -> (entries: Vec<(Bytes, StoredValue)>)
        ensures
            entries == old(self).entries,
            distinct_keys(entries@),
    {
        proof {
            use_type_invariant(&*self);
        }
        let mut taken = Store { entries: Vec::new() };
        core::mem::swap(self, &mut taken);
        taken.entries
    }

    /// The position of the entry with the given key, if there is one.
    fn position(&self, key: &[u8]) -> (r: Option<usize>)
        ensures
            match r {
                Some(i) => i < self.entries@.len() && key_at(self.entries@, i as int) == key@,
                None => !has_key(self.entries@, key@),
            },
    {
        let mut i: usize = 0;
        while i < self.entries.len()
            invariant
                i <= self.entries@.len(),
                forall|j: int| 0 <= j < i ==> key_at(self.entries@, j) != key@,
            decreases self.entries.len() - i,
        {
            if same_bytes(bytes_slice(&self.entries[i].0), key) {
                return Some(i);
            }
            i += 1;
        }
        None
    }

    /// Whether the store has an entry under `key`.
    pub fn contains_key(&self, key: &[u8]) -> (r: bool)
        ensures
            r == self@.dom().contains(key@),
    {
        self.position(key).is_some()
    }

    /// The entry under `key`, if there is one.
    pub fn get(&self, key: &[u8]) -> (r: Option<&StoredValue>)
        ensures
            match r {
                Some(stored) => self@.dom().contains(key@) && stored@ == self@[key@],
                None => !self@.dom().contains(key@),
            },
    {
        proof {
            use_type_invariant(self);
        }
        match self.position(key) {
            Some(i) => {
                assert(index_of(self.entries@, key@) == i);
                Some(&self.entries[i].1)
            },
            None => None,
        }
    }

    /// Puts `value` under `key`, in place of what may have been there.
    pub fn insert(&mut self, key: Bytes, value: StoredValue)
        ensures
            final(self)@ == old(self)@.insert(bytes_seq(&key), value@),
    {
        let found = self.position(bytes_slice(&key));
        let mut entries = self.take_entries();
        let ghost before = entries@;
        match found {
            Some(i) => {
                entries.set(i, (key, value));
                proof {
                    lemma_entries_map_update(before, entries@, i as int);
                }
            },
            None => {
                entries.push((key, value));
                proof {
                    lemma_entries_map_push(before, entries@);
                }
            },
        }
        *self = Store { entries };
    }

    /// Takes away the entry under `key`, if there is one.
    pub fn remove(&mut self, key: &[u8])
        ensures
            final(self)@ == old(self)@.remove(key@),
    {
        match self.position(key) {
            Some(i) => {
                let mut entries = self.take_entries();
                let ghost before = entries@;
                entries.remove(i);
                proof {
                    lemma_entries_map_remove(before, entries@, i as int);
                }
                *self = Store { entries };
            },
            None => {
                assert(self@ =~= old(self)@.remove(key@));
            },
        }
    }
}

/// With distinct keys, an entry is found at the position where its key is.
proof fn lemma_index_of(entries: Seq<(Bytes, StoredValue)>, i: int)
    requires
        distinct_keys(entries),
        0 <= i < entries.len(),
    ensures
        has_key(entries, key_at(entries, i)),
        index_of(entries, key_at(entries, i)) == i,
{
    let k = key_at(entries, i);
    assert(0 <= i < entries.len() && key_at(entries, i) == k);
    let found = index_of(entries, k);
    if found < i {
        assert(key_at(entries, found) != key_at(entries, i));
    } else if i < found {
        assert(key_at(entries, i) != key_at(entries, found));
    }
}

/// Replacing the entry at a position, under the same key, replaces what the
/// map holds under that key.
proof fn lemma_entries_map_update(
    before: Seq<(Bytes, StoredValue)>,
    after: Seq<(Bytes, StoredValue)>,
    i: int,
)
    requires
        distinct_keys(before),
        0 <= i < before.len(),
        after.len() == before.len(),
        forall|j: int| 0 <= j < before.len() && j != i ==> after[j] == before[j],
        key_at(after, i) == key_at(before, i),
    ensures
        distinct_keys(after),
        entries_map(after) == entries_map(before).insert(key_at(after, i), after[i].1@),
{
    assert forall|a: int, b: int| 0 <= a < b < after.len() implies key_at(after, a) != key_at(
        after,
        b,
    ) by {
        assert(key_at(after, a) == key_at(before, a));
        assert(key_at(after, b) == key_at(before, b));
    }
    let m = entries_map(before).insert(key_at(after, i), after[i].1@);
    assert forall|k: Seq<u8>| entries_map(after).dom().contains(k) <==> m.dom().contains(k) by {
        if has_key(after, k) {
            let j = index_of(after, k);
            assert(key_at(before, j) == k);
        }
        if has_key(before, k) {
            let j = index_of(before, k);
            assert(key_at(after, j) == k);
        }
        if k == key_at(after, i) {
            assert(key_at(after, i) == k);
        }
    }
    assert forall|k: Seq<u8>| entries_map(after).dom().contains(k) implies entries_map(after)[k]
        == m[k] by {
        let j = index_of(after, k);
        lemma_index_of(after, j);
        assert(key_at(before, j) == k);
        lemma_index_of(before, j);
    }
    assert(entries_map(after) =~= m);
}

/// Adding an entry under a new key adds that key to the map.
proof fn lemma_entries_map_push(
    before: Seq<(Bytes, StoredValue)>,
    after: Seq<(Bytes, StoredValue)>,
)
    requires
        distinct_keys(before),
        after.len() == before.len() + 1,
        forall|j: int| 0 <= j < before.len() ==> after[j] == before[j],
        !has_key(before, key_at(after, before.len() as int)),
    ensures
        distinct_keys(after),
        entries_map(after) == entries_map(before).insert(
            key_at(after, before.len() as int),
            after[before.len() as int].1@,
        ),
{
    let n = before.len() as int;
    assert forall|a: int, b: int| 0 <= a < b < after.len() implies key_at(after, a) != key_at(
        after,
        b,
    ) by {
        assert(key_at(after, a) == key_at(before, a));
        if b < n {
            assert(key_at(after, b) == key_at(before, b));
        }
    }
    let m = entries_map(before).insert(key_at(after, n), after[n].1@);
    assert forall|k: Seq<u8>| entries_map(after).dom().contains(k) <==> m.dom().contains(k) by {
        if has_key(after, k) {
            let j = index_of(after, k);
            if j < n {
                assert(key_at(before, j) == k);
            }
        }
        if has_key(before, k) {
            let j = index_of(before, k);
            assert(key_at(after, j) == k);
        }
        if k == key_at(after, n) {
            assert(key_at(after, n) == k);
        }
    }
    assert forall|k: Seq<u8>| entries_map(after).dom().contains(k) implies entries_map(after)[k]
        == m[k] by {
        let j = index_of(after, k);
        lemma_index_of(after, j);
        if j < n {
            assert(key_at(before, j) == k);
            lemma_index_of(before, j);
        }
    }
    assert(entries_map(after) =~= m);
}

/// Taking the entry at a position away takes its key out of the map.
proof fn lemma_entries_map_remove(
    before: Seq<(Bytes, StoredValue)>,
    after: Seq<(Bytes, StoredValue)>,
    i: int,
)
    requires
        distinct_keys(before),
        0 <= i < before.len(),
        after == before.remove(i),
    ensures
        distinct_keys(after),
        entries_map(after) == entries_map(before).remove(key_at(before, i)),
{
    let shift = |j: int| if j < i { j } else { j + 1 };
    assert forall|j: int| 0 <= j < after.len() implies after[j] == before[shift(j)] by {}
    assert forall|a: int, b: int| 0 <= a < b < after.len() implies key_at(after, a) != key_at(
        after,
        b,
    ) by {
        assert(key_at(after, a) == key_at(before, shift(a)));
        assert(key_at(after, b) == key_at(before, shift(b)));
    }
    let m = entries_map(before).remove(key_at(before, i));
    assert forall|k: Seq<u8>| entries_map(after).dom().contains(k) <==> m.dom().contains(k) by {
        if has_key(after, k) {
            let j = index_of(after, k);
            assert(key_at(before, shift(j)) == k);
            assert(shift(j) != i);
            if k == key_at(before, i) {
                if shift(j) < i {
                    assert(key_at(before, shift(j)) != key_at(before, i));
                } else {
                    assert(key_at(before, i) != key_at(before, shift(j)));
                }
            }
        }
        if has_key(before, k) && k != key_at(before, i) {
            let j = index_of(before, k);
            if j < i {
                assert(key_at(after, j) == k);
            } else {
                assert(key_at(after, j - 1) == k);
            }
        }
    }
    assert forall|k: Seq<u8>| entries_map(after).dom().contains(k) implies entries_map(after)[k]
        == m[k] by {
        let j = index_of(after, k);
        lemma_index_of(after, j);
        assert(key_at(before, shift(j)) == k);
        lemma_index_of(before, shift(j));
    }
    assert(entries_map(after) =~= m);
}

/// A list of entries with distinct keys stands for a finite map of as many
/// keys.
proof fn lemma_entries_map_len(entries: Seq<(Bytes, StoredValue)>)
    requires
        distinct_keys(entries),
    ensures
        entries_map(entries).dom().finite(),
        entries_map(entries).dom().len() == entries.len(),
    decreases entries.len(),
{
    if entries.len() == 0 {
        assert(entries_map(entries).dom() =~= Set::<Seq<u8>>::empty());
    } else {
        let shorter = entries.drop_last();
        assert forall|a: int, b: int| 0 <= a < b < shorter.len() implies key_at(shorter, a)
            != key_at(shorter, b) by {
            assert(key_at(shorter, a) == key_at(entries, a));
            assert(key_at(shorter, b) == key_at(entries, b));
        }
        lemma_entries_map_len(shorter);
        let n = shorter.len() as int;
        if has_key(shorter, key_at(entries, n)) {
            let j = index_of(shorter, key_at(entries, n));
            assert(key_at(entries, j) == key_at(shorter, j));
            assert(key_at(entries, j) != key_at(entries, n));
        }
        lemma_entries_map_push(shorter, entries);
        assert(entries_map(entries).dom() =~= entries_map(shorter).dom().insert(
            key_at(entries, n),
        ));
    }
}

} // verus!
