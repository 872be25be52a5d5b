//! Bringing a replica back from what it left on disk, and taking the
//! snapshots from which it is brought back.

use crate::laws::lemma_replayed_keys;
use crate::log::{
    beyond, entries_in, fits_a_line, lemma_log_read, lines_of, log_of, read_back, read_log,
    uncovered, watermark_of, LogError, WATERMARK_MAX,
};
use crate::map::LockFreeMap;
use crate::messages::{Key, ReplicaId};
use crate::replica::Replica;
use crate::snapshot::{
    entry_views, lemma_loaded_lists, lists, loaded, restore, snapshot, snapshot_decoding,
    snapshot_encoding, SnapshotError,
};
use std::sync::Arc;
use vstd::prelude::*;

verus! {

/// Why a replica could not be brought back.
#[derive(Debug, Clone, Copy, PartialEq, Eq)]
pub enum RecoverError {
    /// The snapshot cannot be read.
    Snapshot(SnapshotError),
    /// The commit log cannot be read.
    Log(LogError),
}

/// A replica that was brought back, and the number of commits in its log.
pub struct Recovery {
    pub replica: Replica,
    pub commits: usize,
}

/// The store after the entries were put into it, one after the other. An
/// entry whose key the store holds by then changes nothing: what is stored
/// under a key is never replaced.
pub open spec fn replayed(store: Map<Key, Seq<char>>, entries: Seq<(Key, Seq<char>)>) -> Map<
    Key,
    Seq<char>,
>
    decreases entries.len(),
{
    if entries.len() == 0 {
        store
    } else {
        let prior = replayed(store, entries.drop_last());
        if prior.contains_key(entries.last().0) {
            prior
        } else {
            prior.insert(entries.last().0, entries.last().1)
        }
    }
}

/// The store that a snapshot holds; the empty store where there is no
/// snapshot; nothing where the snapshot cannot be read.
pub open spec fn snapshot_store(snapshot: Option<&[u8]>) -> Option<Map<Key, Seq<char>>> {
    match snapshot {
        None => Some(Map::empty()),
        Some(bytes) => match snapshot_decoding(bytes@) {
            Some(entries) => Some(loaded(entries)),
            None => None,
        },
    }
}

/// The entries of a log that no snapshot covers, with the number of commits
/// in the log; no entries where there is no log; nothing where the log
/// cannot be read.
pub open spec fn log_tail(log: Option<&[u8]>) -> Option<(Seq<(Key, Seq<char>)>, int)> {
    match log {
        None => Some((Seq::empty(), 0int)),
        Some(bytes) => match watermark_of(bytes@) {
            Some(mark) => Some(
                (entries_in(uncovered(lines_of(bytes@), mark as int)), lines_of(bytes@).len() - 1),
            ),
            None => None,
        },
    }
}

impl Replica {
    /// Brings a replica back from what it left on disk: the store is what
    /// the snapshot holds, then what the log holds beyond the snapshot under
    /// keys that the snapshot does not hold. The
    /// replica knows itself, with every key of the store, and its
    /// neighbours, with no key.
    pub fn recover(
        id: ReplicaId,
        snapshot: Option<&[u8]>,
        log: Option<&[u8]>,
        neighbours: &Vec<ReplicaId>,
    ) -> (r: Result<Recovery, RecoverError>)
        ensures
            match (snapshot_store(snapshot), log_tail(log)) {
                (None, _) => r matches Err(e) && e == RecoverError::Snapshot(SnapshotError::Decode),
                (Some(_), None) => r matches Err(e) && e == RecoverError::Log(LogError::BadHeader),
                (Some(store), Some((entries, commits))) => {
                    &&& r matches Ok(back)
                    &&& back.commits == commits
                    &&& back.replica.wf()
                    &&& back.replica@.id == id
                    &&& back.replica@.store == replayed(store, entries)
                    &&& back.replica@.index.dom() == neighbours@.to_set().insert(id)
                    &&& back.replica@.index[id].no_duplicates()
                    &&& back.replica@.index[id].to_set() == back.replica@.store.dom()
                    &&& forall|n: ReplicaId|
                        back.replica@.index.contains_key(n) && n != id ==> back.replica@.index[n]
                            == Seq::<Key>::empty()
                },
            },
    {
        let mut store = match snapshot {
            None => LockFreeMap::<String>::new(),
            Some(bytes) => match restore(bytes) {
                Ok(store) => store,
                Err(e) => {
                    return Err(RecoverError::Snapshot(e));
                },
            },
        };
        let ghost start = store@;
        let mut commits: usize = 0;
        match log {
            None => {},
            Some(bytes) => match read_log(bytes) {
                Err(e) => {
                    return Err(RecoverError::Log(e));
                },
                Ok(found) => {
                    commits = found.commits;
                    let ghost all = entry_views(found.entries@);
                    assert(all.take(0) =~= Seq::<(Key, Seq<char>)>::empty());
                    for entry in it: found.entries
                        invariant
                            all == entry_views(it.seq()),
                            store@ == replayed(start, all.take(it.index())),
                    {
                        let ghost n = it.index();
                        assert(all.take(n + 1).drop_last() =~= all.take(n));
                        assert(all.take(n + 1).last() == all[n]);
                        store.insert_new(entry.0, Arc::new(entry.1));
                    }
                    assert(all.take(all.len() as int) =~= all);
                },
            },
        }
        let own = store.keys();
        Ok(Recovery { replica: Replica::assemble(id, store, own, neighbours), commits })
    }

    /// A snapshot of the store.
    pub fn snapshot(&self) -> (r: Result<Vec<u8>, SnapshotError>)
        ensures
            r matches Ok(bytes) ==> exists|entries: Seq<(Key, Seq<char>)>|
                lists(entries, self@.store) && #[trigger] snapshot_encoding(entries) == Some(bytes@)
                    && snapshot_decoding(bytes@) == Some(entries),
            r matches Err(e) ==> e == SnapshotError::Encode && exists|entries: Seq<(Key, Seq<char>)>|
                lists(entries, self@.store) && #[trigger] snapshot_encoding(entries) is None,
    {
        snapshot(self.store())
    }
}

/// What is brought back from a snapshot of a store and a log that holds,
/// after a header with the number `mark`, the lines of `commits`: the keys of
/// the store, and the keys of the commits from the `mark`-th on.
pub proof fn lemma_recovered_keys(
    store: Map<Key, Seq<char>>,
    entries: Seq<(Key, Seq<char>)>,
    snapshot: &[u8],
    mark: nat,
    commits: Seq<(Key, Seq<u8>)>,
    log: &[u8],
)
    requires
        store.dom().finite(),
        lists(entries, store),
        snapshot_decoding(snapshot@) == Some(entries),
        mark <= WATERMARK_MAX,
        forall|i: int| 0 <= i < commits.len() ==> fits_a_line(#[trigger] commits[i].1),
        log@ == log_of(mark, commits),
    ensures
        snapshot_store(Some(snapshot)) == Some(store),
        log_tail(Some(log)) == Some((read_back(beyond(commits, mark)), commits.len() as int)),
        forall|k: Key| #[trigger]
            replayed(store, read_back(beyond(commits, mark))).contains_key(k) <==> store.contains_key(
                k,
            ) || exists|i: int| mark <= i < commits.len() && (#[trigger] commits[i]).0 == k,
{
    let tail = read_back(beyond(commits, mark));
    lemma_loaded_lists(entries, store);
    lemma_log_read(mark, commits);
    lemma_replayed_keys(store, tail);
    assert forall|k: Key| #[trigger]
        replayed(store, tail).contains_key(k) <==> store.contains_key(k) || exists|i: int|
            mark <= i < commits.len() && (#[trigger] commits[i]).0 == k by {
        if exists|n: int| 0 <= n < tail.len() && (#[trigger] tail[n]).0 == k {
            let n = choose|n: int| 0 <= n < tail.len() && (#[trigger] tail[n]).0 == k;
            assert(commits[mark + n].0 == k);
        }
        if exists|i: int| mark <= i < commits.len() && (#[trigger] commits[i]).0 == k {
            let i = choose|i: int| mark <= i < commits.len() && (#[trigger] commits[i]).0 == k;
            assert(tail[i - mark].0 == k);
        }
    }
}

} // verus!
