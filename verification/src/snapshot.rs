//! Snapshots of the store: every entry of the map in one self-describing
//! binary encoding, which begins with the number of entries.

use crate::map::LockFreeMap;
use crate::messages::Key;
use std::sync::Arc;
use vstd::prelude::*;

verus! {

#[verifier::external_type_specification]
#[verifier::external_body]
pub struct ExErrorKind(bincode::ErrorKind);

/// Why a snapshot could not be written or read.
#[derive(Debug, Clone, Copy, PartialEq, Eq)]
pub enum SnapshotError {
    /// The entries could not be encoded.
    Encode,
    /// The bytes are no encoding of a list of entries.
    Decode,
}

/// The entries as plain values: each key with the text of its value.
pub open spec fn entry_views(entries: Seq<(Key, String)>) -> Seq<(Key, Seq<char>)> {
    Seq::new(entries.len(), |i: int| (entries[i].0, entries[i].1@))
}

/// The encoding of a list of entries, if it has one.
pub uninterp spec fn snapshot_encoding(entries: Seq<(Key, Seq<char>)>) -> Option<Seq<u8>>;

/// The list of entries that bytes encode, if they encode one.
pub uninterp spec fn snapshot_decoding(bytes: Seq<u8>) -> Option<Seq<(Key, Seq<char>)>>;

/// Trusted: `bincode::serialize`, on a list of pairs. The bytes depend on the
/// entries alone, and, as the crate documents of every value that it
/// encodes, they decode to the entries that were encoded.
#[verifier::external_body]
fn encode(entries: &Vec<(Key, String)>) -> (r: Result<Vec<u8>, Box<bincode::ErrorKind>>)
    ensures
        (r is Ok) == (snapshot_encoding(entry_views(entries@)) is Some),
        r matches Ok(bytes) ==> snapshot_encoding(entry_views(entries@)) == Some(bytes@)
            && snapshot_decoding(bytes@) == Some(entry_views(entries@)),
{
    bincode::serialize(entries)
}

/// Trusted: `bincode::deserialize`, to a list of pairs. The outcome depends
/// on the bytes alone.
#[verifier::external_body]
fn decode(bytes: &[u8]) -> (r: Result<Vec<(Key, String)>, Box<bincode::ErrorKind>>)
    ensures
        (r is Ok) == (snapshot_decoding(bytes@) is Some),
        r matches Ok(entries) ==> snapshot_decoding(bytes@) == Some(entry_views(entries@)),
{
    bincode::deserialize(bytes)
}

/// `entries` lists `store`, which holds finitely many keys: every key once,
/// each with its value.
pub open spec fn lists(entries: Seq<(Key, Seq<char>)>, store: Map<Key, Seq<char>>) -> bool {
    &&& store.dom().finite()
    &&& entries.len() == store.dom().len()
    &&& forall|k: Key| #[trigger]
        store.contains_key(k) ==> exists|i: int|
            0 <= i < entries.len() && (#[trigger] entries[i]).0 == k
    &&& forall|i: int, j: int|
        0 <= i < j < entries.len() ==> (#[trigger] entries[i]).0 != (#[trigger] entries[j]).0
    &&& forall|i: int|
        0 <= i < entries.len() ==> store.contains_key((#[trigger] entries[i]).0) && entries[i].1
            == store[entries[i].0]
}

/// The map that holds the entries, the earlier of two with one key: what
/// is stored under a key is never replaced.
pub open spec fn loaded(entries: Seq<(Key, Seq<char>)>) -> Map<Key, Seq<char>>
    decreases entries.len(),
{
    if entries.len() == 0 {
        Map::empty()
    } else {
        let prior = loaded(entries.drop_last());
        if prior.contains_key(entries.last().0) {
            prior
        } else {
            prior.insert(entries.last().0, entries.last().1)
        }
    }
}

/// Every entry of `store`, in no particular order.
pub fn entries_of(store: &LockFreeMap<String>) -> (entries: Vec<(Key, String)>)
    ensures
        lists(entry_views(entries@), store@),
{
    let keys = store.keys();
    let mut entries: Vec<(Key, String)> = Vec::new();
    let mut i: usize = 0;
    while i < keys.len()
        invariant
            i <= keys.len(),
            entries.len() == i,
            keys@.no_duplicates(),
            keys@.to_set() == store@.dom(),
            forall|j: int| 0 <= j < i ==> (#[trigger] entries[j]).0 == keys[j],
            forall|j: int| 0 <= j < i ==> (#[trigger] entries[j]).1@ == store@[keys[j]],
        decreases keys.len() - i,
    {
        let key: Key = keys[i];
        assert(keys@.to_set().contains(keys@[i as int]));
        match store.get(key) {
            Some(value) => {
                entries.push((key, (*value).clone()));
            },
            None => {},
        }
        i = i + 1;
    }
    assert forall|j: int| 0 <= j < entries.len() implies store@.contains_key(
        (#[trigger] entry_views(entries@)[j]).0,
    ) by {
        assert(keys@.to_set().contains(keys@[j]));
    }
    assert forall|k: Key| #[trigger] store@.contains_key(k) implies exists|j: int|
        0 <= j < entries.len() && (#[trigger] entry_views(entries@)[j]).0 == k by {
        assert(keys@.to_set().contains(k));
        let j = choose|j: int| 0 <= j < keys@.len() && keys@[j] == k;
        assert(entry_views(entries@)[j].0 == k);
    }
    entries
}

/// The encoding of `entries`.
pub fn encode_entries(entries: &Vec<(Key, String)>) -> (r: Result<Vec<u8>, SnapshotError>)
    ensures
        match snapshot_encoding(entry_views(entries@)) {
            Some(bytes) => r matches Ok(b) && b@ == bytes && snapshot_decoding(bytes) == Some(
                entry_views(entries@),
            ),
            None => r == Err::<Vec<u8>, SnapshotError>(SnapshotError::Encode),
        },
{
    match encode(entries) {
        Ok(bytes) => Ok(bytes),
        Err(_) => Err(SnapshotError::Encode),
    }
}

/// A snapshot of `store`.
pub fn snapshot(store: &LockFreeMap<String>) -> (r: Result<Vec<u8>, SnapshotError>)
    ensures
        r matches Ok(bytes) ==> exists|entries: Seq<(Key, Seq<char>)>|
            lists(entries, store@) && #[trigger] snapshot_encoding(entries) == Some(bytes@)
                && snapshot_decoding(bytes@) == Some(entries),
        r matches Err(e) ==> e == SnapshotError::Encode && exists|entries: Seq<(Key, Seq<char>)>|
            lists(entries, store@) && #[trigger] snapshot_encoding(entries) is None,
{
    let entries = entries_of(store);
    encode_entries(&entries)
}

/// The map that holds `entries`, the earlier of two with one key.
pub fn load(entries: Vec<(Key, String)>) -> (store: LockFreeMap<String>)
    ensures
        store@ == loaded(entry_views(entries@)),
{
    let mut store = LockFreeMap::<String>::new();
    let ghost all = entry_views(entries@);
    assert(all.take(0) =~= Seq::<(Key, Seq<char>)>::empty());
    for entry in it: entries
        invariant
            all == entry_views(it.seq()),
            store@ == loaded(all.take(it.index())),
    {
        let ghost n = it.index();
        assert(all.take(n + 1).drop_last() =~= all.take(n));
        assert(all.take(n + 1).last() == all[n]);
        store.insert_new(entry.0, Arc::new(entry.1));
    }
    assert(all.take(all.len() as int) =~= all);
    store
}

/// The store that a snapshot holds.
pub fn restore(bytes: &[u8]) -> (r: Result<LockFreeMap<String>, SnapshotError>)
    ensures
        match snapshot_decoding(bytes@) {
            Some(entries) => r matches Ok(store) && store@ == loaded(entries),
            None => r matches Err(e) && e == SnapshotError::Decode,
        },
{
    match decode(bytes) {
        Ok(entries) => Ok(load(entries)),
        Err(_) => Err(SnapshotError::Decode),
    }
}

/// A list of a map holds what the map holds.
pub proof fn lemma_loaded_lists(entries: Seq<(Key, Seq<char>)>, store: Map<Key, Seq<char>>)
    requires
        lists(entries, store),
        store.dom().finite(),
    ensures
        loaded(entries) == store,
{
    lemma_loaded_entries(entries);
    let keys = Seq::new(entries.len(), |i: int| entries[i].0);
    assert(keys.no_duplicates());
    keys.unique_seq_to_set();
    assert(keys.to_set().subset_of(store.dom())) by {
        assert forall|k: Key| keys.to_set().contains(k) implies store.dom().contains(k) by {
            let i = choose|i: int| 0 <= i < keys.len() && keys[i] == k;
            assert(store.contains_key(entries[i].0));
        }
    }
    vstd::set_lib::lemma_subset_equality(keys.to_set(), store.dom());
    assert(loaded(entries) =~= store) by {
        assert forall|k: Key| loaded(entries).contains_key(k) == store.contains_key(k) by {
            if loaded(entries).contains_key(k) {
                let i = choose|i: int| 0 <= i < entries.len() && entries[i].0 == k;
                assert(store.contains_key(entries[i].0));
            }
            if store.contains_key(k) {
                assert(keys.to_set().contains(k));
                let i = choose|i: int| 0 <= i < keys.len() && keys[i] == k;
                assert(entries[i].0 == k);
            }
        }
        assert forall|k: Key| loaded(entries).contains_key(k) implies loaded(entries)[k] == store[k] by {
            let i = choose|i: int|
                0 <= i < entries.len() && entries[i].0 == k && loaded(entries)[k] == entries[i].1;
            assert(store.contains_key(entries[i].0));
        }
    }
}

/// What a loaded map holds under a key is the value of an entry with that
/// key, and every entry's key is held.
pub proof fn lemma_loaded_entries(entries: Seq<(Key, Seq<char>)>)
    ensures
        forall|k: Key| #[trigger]
            loaded(entries).contains_key(k) <==> exists|i: int|
                0 <= i < entries.len() && (#[trigger] entries[i]).0 == k,
        forall|k: Key| #[trigger]
            loaded(entries).contains_key(k) ==> exists|i: int|
                0 <= i < entries.len() && (#[trigger] entries[i]).0 == k && loaded(entries)[k]
                    == entries[i].1,
    decreases entries.len(),
{
    if entries.len() > 0 {
        let prior = entries.drop_last();
        lemma_loaded_entries(prior);
        let n = entries.len() - 1;
        assert forall|k: Key| #[trigger] loaded(entries).contains_key(k) implies exists|i: int|
            0 <= i < entries.len() && (#[trigger] entries[i]).0 == k && loaded(entries)[k]
                == entries[i].1 by {
            if loaded(prior).contains_key(k) {
                let i = choose|i: int|
                    0 <= i < prior.len() && (#[trigger] prior[i]).0 == k && loaded(prior)[k]
                        == prior[i].1;
                assert(entries[i].0 == k);
            } else {
                assert(entries[n].0 == k);
            }
        }
        assert forall|k: Key|
            (exists|i: int| 0 <= i < entries.len() && (#[trigger] entries[i]).0 == k) implies #[trigger]
            loaded(entries).contains_key(k) by {
            let i = choose|i: int| 0 <= i < entries.len() && (#[trigger] entries[i]).0 == k;
            if i < n {
                assert(prior[i].0 == k);
                assert(loaded(prior).contains_key(k));
            }
        }
    }
}

/// A snapshot gives back the store it was taken of.
pub proof fn lemma_snapshot_round_trip(
    store: Map<Key, Seq<char>>,
    entries: Seq<(Key, Seq<char>)>,
    bytes: Seq<u8>,
)
    requires
        store.dom().finite(),
        lists(entries, store),
        snapshot_encoding(entries) == Some(bytes),
        snapshot_decoding(bytes) == Some(entries),
    ensures
        snapshot_decoding(bytes) matches Some(decoded) && loaded(decoded) == store,
{
    lemma_loaded_lists(entries, store);
}

} // verus!
