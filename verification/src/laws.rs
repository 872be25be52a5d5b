//! What holds of a replica whatever messages it handles.

use crate::hashing::fingerprint_of;
use crate::messages::{DigestPair, FoundValue, KVPair, Key, Message, ReplicaId, UpdateMessage};
use crate::gossip::{
    absorbed, answers, extended, lemma_keys_through, list_views, scan_step, scanned, stop_at,
    taken, updated, Scan, UPDATE_CAP,
};
use crate::recovery::replayed;
use crate::replica::{observed, request_handled, Outcome, ReplicaState};
use vstd::prelude::*;

verus! {

/// After a push under the fingerprint of its value, the key can be
/// retrieved at once. What is retrieved is the value that was pushed, unless
/// the key was known before: then it is the value that was stored, which a
/// push does not replace. The two differ only where two values have one
/// fingerprint.
pub proof fn lemma_read_your_writes(
    before: ReplicaState,
    pair: KVPair,
    now: u128,
    after: ReplicaState,
    pushed: Outcome,
    later: u128,
    last: ReplicaState,
    retrieved: Outcome,
)
    requires
        pair.key == fingerprint_of(pair.value@),
        request_handled(before, Message::PushReq(pair), now, after, pushed),
        request_handled(after, Message::RetrieveReq { key: pair.key }, later, last, retrieved),
    ensures
        pushed.reply == Some(Message::PushResp { success: true }),
        retrieved.reply matches Some(Message::RetrieveResp { result: FoundValue::Success { value } })
            && value@ == (if before.store.contains_key(pair.key) {
            before.store[pair.key]
        } else {
            pair.value@
        }),
{
}

/// A push under a key that is not the fingerprint of its value is refused
/// and changes nothing: it is answered with an error and gives no commit.
pub proof fn lemma_push_refused(
    before: ReplicaState,
    pair: KVPair,
    now: u128,
    after: ReplicaState,
    out: Outcome,
)
    requires
        pair.key != fingerprint_of(pair.value@),
        request_handled(before, Message::PushReq(pair), now, after, out),
    ensures
        after == before,
        out.reply matches Some(Message::Error(_)),
        out.commit is None,
{
}

/// No request takes a key out of the store or replaces a value that is
/// stored, and none shortens or rewrites a list of the index.
pub proof fn lemma_request_keeps(
    before: ReplicaState,
    message: Message,
    now: u128,
    after: ReplicaState,
    out: Outcome,
)
    requires
        before.index.contains_key(before.id),
        request_handled(before, message, now, after, out),
    ensures
        before.store.dom().subset_of(after.store.dom()),
        forall|k: Key| before.store.contains_key(k) ==> #[trigger] after.store[k] == before.store[k],
        forall|r: ReplicaId| #[trigger]
            before.index.contains_key(r) ==> after.index.contains_key(r)
                && before.index[r].is_prefix_of(after.index[r]),
{
    match message {
        Message::PushReq(pair) => {
            if pair.key == fingerprint_of(pair.value@) {
                lemma_observed_keeps(before, pair.key, pair.value@);
            }
        },
        _ => {},
    }
}

/// Seeing a value takes no key out of the store, replaces no value that is
/// stored, and only ever appends to the replica's own list.
pub proof fn lemma_observed_keeps(s: ReplicaState, key: Key, value: Seq<char>)
    requires
        s.index.contains_key(s.id),
    ensures
        observed(s, key, value).id == s.id,
        observed(s, key, value).index.dom() == s.index.dom(),
        s.store.dom().subset_of(observed(s, key, value).store.dom()),
        forall|k: Key|
            s.store.contains_key(k) ==> #[trigger] observed(s, key, value).store[k] == s.store[k],
        forall|r: ReplicaId| #[trigger]
            s.index.contains_key(r) ==> s.index[r].is_prefix_of(observed(s, key, value).index[r]),
        forall|r: ReplicaId|
            s.index.contains_key(r) && r != s.id ==> #[trigger] observed(s, key, value).index[r]
                == s.index[r],
{
    assert(observed(s, key, value).index.dom() =~= s.index.dom());
}

/// Seeing values takes no key out of the store, replaces no value that is
/// stored, and only ever appends to the replica's own list.
pub proof fn lemma_absorbed_keeps(s: ReplicaState, pairs: Seq<KVPair>)
    requires
        s.index.contains_key(s.id),
    ensures
        absorbed(s, pairs).id == s.id,
        absorbed(s, pairs).index.dom() == s.index.dom(),
        s.store.dom().subset_of(absorbed(s, pairs).store.dom()),
        forall|k: Key|
            s.store.contains_key(k) ==> #[trigger] absorbed(s, pairs).store[k] == s.store[k],
        forall|r: ReplicaId| #[trigger]
            s.index.contains_key(r) ==> s.index[r].is_prefix_of(absorbed(s, pairs).index[r]),
        forall|r: ReplicaId|
            s.index.contains_key(r) && r != s.id ==> #[trigger] absorbed(s, pairs).index[r]
                == s.index[r],
        forall|i: int|
            0 <= i < pairs.len() ==> absorbed(s, pairs).store.contains_key(#[trigger] pairs[i].key),
    decreases pairs.len(),
{
    if pairs.len() > 0 {
        let prior = absorbed(s, pairs.drop_last());
        lemma_absorbed_keeps(s, pairs.drop_last());
        lemma_observed_keeps(prior, pairs.last().key, pairs.last().value@);
        assert forall|i: int| 0 <= i < pairs.len() implies absorbed(s, pairs).store.contains_key(
            #[trigger] pairs[i].key,
        ) by {
            if i < pairs.len() - 1 {
                assert(pairs.drop_last()[i] == pairs[i]);
            }
        }
    }
}

/// Values that are seen replace none that is stored.
pub proof fn lemma_absorbed_stored(s: ReplicaState, pairs: Seq<KVPair>)
    ensures
        forall|k: Key| #[trigger]
            s.store.contains_key(k) ==> absorbed(s, pairs).store.contains_key(k) && absorbed(
                s,
                pairs,
            ).store[k] == s.store[k],
    decreases pairs.len(),
{
    if pairs.len() > 0 {
        let prior = absorbed(s, pairs.drop_last());
        lemma_absorbed_stored(s, pairs.drop_last());
        assert forall|k: Key| #[trigger] s.store.contains_key(k) implies absorbed(
            s,
            pairs,
        ).store.contains_key(k) && absorbed(s, pairs).store[k] == s.store[k] by {
            assert(prior.store.contains_key(k) && prior.store[k] == s.store[k]);
        }
    }
}

/// After values were seen, the store holds under a key that was not known
/// the value of the first pair with that key.
pub proof fn lemma_absorbed_store(s: ReplicaState, pairs: Seq<KVPair>, i: int)
    requires
        0 <= i < pairs.len(),
        !s.store.contains_key(pairs[i].key),
        forall|j: int| 0 <= j < i ==> (#[trigger] pairs[j]).key != pairs[i].key,
    ensures
        absorbed(s, pairs).store.contains_key(pairs[i].key),
        absorbed(s, pairs).store[pairs[i].key] == pairs[i].value@,
    decreases pairs.len(),
{
    let prior = pairs.drop_last();
    if i < pairs.len() - 1 {
        assert(prior[i] == pairs[i]);
        assert forall|j: int| 0 <= j < i implies (#[trigger] prior[j]).key != prior[i].key by {
            assert(prior[j] == pairs[j]);
        }
        lemma_absorbed_store(s, prior, i);
    } else {
        lemma_absorbed_unseen(s, prior, pairs[i].key);
    }
}

/// A key that was not known and is the key of none of the values seen is
/// not known afterwards.
pub proof fn lemma_absorbed_unseen(s: ReplicaState, pairs: Seq<KVPair>, key: Key)
    requires
        !s.store.contains_key(key),
        forall|j: int| 0 <= j < pairs.len() ==> (#[trigger] pairs[j]).key != key,
    ensures
        !absorbed(s, pairs).store.contains_key(key),
    decreases pairs.len(),
{
    if pairs.len() > 0 {
        let prior = pairs.drop_last();
        assert forall|j: int| 0 <= j < prior.len() implies (#[trigger] prior[j]).key != key by {
            assert(prior[j] == pairs[j]);
        }
        lemma_absorbed_unseen(s, prior, key);
        assert(pairs[pairs.len() - 1].key != key);
    }
}

/// What an answer carries is in the store of the replica that takes it up:
/// every key of the answer that the answering replica held a value for is
/// held afterwards, with that value if the key was not known, and with the
/// value that was stored if it was.
pub proof fn lemma_update_delivers(
    s: ReplicaState,
    update: UpdateMessage,
    scan: Scan,
    store: Map<Key, Seq<char>>,
    sending_rate: u64,
)
    requires
        answers(update, scan, store, sending_rate),
    ensures
        forall|k: Key| #[trigger]
            scan.keys.contains(k) && store.contains_key(k) ==> updated(
                s,
                update,
            ).store.contains_key(k) && updated(s, update).store[k] == (if s.store.contains_key(
                k,
            ) {
                s.store[k]
            } else {
                store[k]
            }),
{
    let pairs = update.key_values@;
    lemma_absorbed_stored(s, pairs);
    assert forall|k: Key| #[trigger] scan.keys.contains(k) && store.contains_key(k) implies updated(
        s,
        update,
    ).store.contains_key(k) && updated(s, update).store[k] == (if s.store.contains_key(k) {
        s.store[k]
    } else {
        store[k]
    }) by {
        if s.store.contains_key(k) {
            assert(absorbed(s, pairs).store[k] == s.store[k]);
        } else {
            let i = choose|i: int| 0 <= i < pairs.len() && (#[trigger] pairs[i]).key == k;
            assert forall|j: int| 0 <= j < i implies (#[trigger] pairs[j]).key != pairs[i].key by {}
            lemma_absorbed_store(s, pairs, i);
        }
    }
}

/// Merging what a peer tells of a list only ever appends to the list.
pub proof fn lemma_extended_keeps(local: Seq<Key>, list: Seq<(Key, usize)>)
    ensures
        local.is_prefix_of(extended(local, list)),
    decreases list.len(),
{
    if list.len() > 0 {
        lemma_extended_keeps(local, list.drop_last());
    }
}

/// Keys that are told with the positions that follow the end of a list are
/// all appended to it, in order: the list becomes what the teller holds up to
/// the last key told.
pub proof fn lemma_extended_taken(local: Seq<Key>, theirs: Seq<Key>, to: int)
    requires
        local.len() <= to <= theirs.len(),
        theirs.len() <= usize::MAX,
    ensures
        extended(local, taken(theirs, local.len() as int, to)) == local + theirs.subrange(
            local.len() as int,
            to,
        ),
    decreases to - local.len(),
{
    let from = local.len() as int;
    if to == from {
        assert(taken(theirs, from, to) =~= Seq::<(Key, usize)>::empty());
        assert(local + theirs.subrange(from, to) =~= local);
    } else {
        lemma_extended_taken(local, theirs, to - 1);
        assert(taken(theirs, from, to).drop_last() =~= taken(theirs, from, to - 1));
        assert(taken(theirs, from, to).last() == (theirs[to - 1], (to - 1) as usize));
        assert(local + theirs.subrange(from, to) =~= (local + theirs.subrange(from, to - 1)).push(
            theirs[to - 1],
        ));
    }
}

/// A replica whose list of another is a prefix of what a peer holds comes,
/// by merging the keys that the peer tells from the end of its list on, to
/// hold what the peer holds up to the last key told.
pub proof fn lemma_exchange_catches_up(mine: Seq<Key>, theirs: Seq<Key>, to: int)
    requires
        mine.is_prefix_of(theirs),
        mine.len() <= to <= theirs.len(),
        theirs.len() <= usize::MAX,
    ensures
        extended(mine, taken(theirs, mine.len() as int, to)) == theirs.take(to),
{
    lemma_extended_taken(mine, theirs, to);
    assert(mine + theirs.subrange(mine.len() as int, to) =~= theirs.take(to));
}

/// A walk that begins below the cap and before the end of the list passes
/// at least one key.
pub proof fn lemma_walk_advances(list: Seq<Key>, from: int, keys: Set<Key>)
    requires
        0 <= from < list.len(),
        keys.finite(),
        keys.len() < UPDATE_CAP,
    ensures
        from < stop_at(list, from, keys) <= list.len(),
{
    lemma_keys_through(list, from + 1, keys.insert(list[from]));
}

/// An update takes no key out of the store and none out of the index, and
/// replaces no value that is stored; the keys of the
/// values it carries are in the store afterwards, every replica it tells of
/// is in the index afterwards, and every list of the index is a prefix of
/// what it is afterwards: no position is ever given another key.
pub proof fn lemma_updated_keeps(s: ReplicaState, update: UpdateMessage)
    requires
        s.index.contains_key(s.id),
    ensures
        updated(s, update).id == s.id,
        s.store.dom().subset_of(updated(s, update).store.dom()),
        forall|k: Key| s.store.contains_key(k) ==> #[trigger] updated(s, update).store[k] == s.store[k],
        forall|i: int|
            0 <= i < update.key_values@.len() ==> updated(s, update).store.contains_key(
                #[trigger] update.key_values@[i].key,
            ),
        forall|r: ReplicaId| #[trigger]
            update.replica_keys@.contains_key(r) ==> updated(s, update).index.contains_key(r)
                || r == s.id,
        forall|r: ReplicaId| #[trigger]
            s.index.contains_key(r) ==> updated(s, update).index.contains_key(r)
                && s.index[r].is_prefix_of(updated(s, update).index[r]),
{
    let a = absorbed(s, update.key_values@);
    let told = list_views(update.replica_keys@);
    lemma_absorbed_keeps(s, update.key_values@);
    assert forall|r: ReplicaId| #[trigger] s.index.contains_key(r) implies updated(
        s,
        update,
    ).index.contains_key(r) && s.index[r].is_prefix_of(updated(s, update).index[r]) by {
        assert(a.index.contains_key(r));
        assert(s.index[r].is_prefix_of(a.index[r]));
        if told.contains_key(r) && r != a.id {
            lemma_extended_keeps(a.index[r], told[r]);
        }
    }
}

/// A line of a digest takes no replica out of the index. It leaves every
/// list as it is, but for the list of the replica that the line is about,
/// which may be emptied if that replica sent the digest.
pub proof fn lemma_scan_step_keeps(s: Scan, sender: ReplicaId, pair: DigestPair)
    ensures
        s.index.dom().subset_of(scan_step(s, sender, pair).index.dom()),
        !s.stopped ==> scan_step(s, sender, pair).index.contains_key(pair.replica_id)
            || scan_step(s, sender, pair).stopped,
        forall|r: ReplicaId| #[trigger]
            s.index.contains_key(r) ==> scan_step(s, sender, pair).index[r] == s.index[r] || (r
                == sender && r == pair.replica_id && scan_step(s, sender, pair).index[r]
                == Seq::<Key>::empty()),
{
}

/// A digest takes no replica out of the index, and changes no list but
/// that of the replica that sent it, which it may empty.
pub proof fn lemma_scanned_keeps(
    index: Map<ReplicaId, Seq<Key>>,
    sender: ReplicaId,
    digest: Seq<DigestPair>,
)
    ensures
        index.dom().subset_of(scanned(index, sender, digest).index.dom()),
        forall|r: ReplicaId| #[trigger]
            index.contains_key(r) ==> scanned(index, sender, digest).index[r] == index[r] || (r
                == sender && scanned(index, sender, digest).index[r] == Seq::<Key>::empty()),
        forall|r: ReplicaId| #[trigger]
            scanned(index, sender, digest).index.contains_key(r) && !index.contains_key(r)
                ==> scanned(index, sender, digest).index[r] == Seq::<Key>::empty(),
    decreases digest.len(),
{
    if digest.len() > 0 {
        let prior = scanned(index, sender, digest.drop_last());
        lemma_scanned_keeps(index, sender, digest.drop_last());
        lemma_scan_step_keeps(prior, sender, digest.last());
        assert forall|r: ReplicaId| #[trigger] index.contains_key(r) implies scanned(
            index,
            sender,
            digest,
        ).index[r] == index[r] || (r == sender && scanned(index, sender, digest).index[r]
            == Seq::<Key>::empty()) by {
            assert(prior.index.contains_key(r));
        }
    }
}

/// The keys of a store into which entries were put are the keys it had and
/// the keys of the entries.
pub proof fn lemma_replayed_keys(store: Map<Key, Seq<char>>, entries: Seq<(Key, Seq<char>)>)
    ensures
        forall|k: Key| #[trigger]
            replayed(store, entries).contains_key(k) <==> store.contains_key(k) || exists|i: int|
                0 <= i < entries.len() && (#[trigger] entries[i]).0 == k,
    decreases entries.len(),
{
    if entries.len() > 0 {
        let prior = entries.drop_last();
        let n = entries.len() - 1;
        lemma_replayed_keys(store, prior);
        assert forall|k: Key| #[trigger] replayed(store, entries).contains_key(k) implies store.contains_key(
            k,
        ) || exists|i: int| 0 <= i < entries.len() && (#[trigger] entries[i]).0 == k by {
            if k == entries.last().0 {
                assert(entries[n].0 == k);
            } else if !store.contains_key(k) {
                assert(replayed(store, prior).contains_key(k));
                let i = choose|i: int| 0 <= i < prior.len() && (#[trigger] prior[i]).0 == k;
                assert(entries[i].0 == k);
            }
        }
        assert forall|k: Key|
            store.contains_key(k) || (exists|i: int|
                0 <= i < entries.len() && (#[trigger] entries[i]).0 == k) implies #[trigger] replayed(
            store,
            entries,
        ).contains_key(k) by {
            if store.contains_key(k) {
                assert(replayed(store, prior).contains_key(k));
            } else {
                let i = choose|i: int| 0 <= i < entries.len() && (#[trigger] entries[i]).0 == k;
                if i < n {
                    assert(prior[i].0 == k);
                    assert(replayed(store, prior).contains_key(k));
                }
            }
        }
    }
}

/// Entries that are put into a store replace no value that it holds.
pub proof fn lemma_replayed_keeps(store: Map<Key, Seq<char>>, entries: Seq<(Key, Seq<char>)>)
    ensures
        forall|k: Key| #[trigger]
            store.contains_key(k) ==> replayed(store, entries).contains_key(k) && replayed(
                store,
                entries,
            )[k] == store[k],
    decreases entries.len(),
{
    if entries.len() > 0 {
        let prior = replayed(store, entries.drop_last());
        lemma_replayed_keeps(store, entries.drop_last());
        assert forall|k: Key| #[trigger] store.contains_key(k) implies replayed(
            store,
            entries,
        ).contains_key(k) && replayed(store, entries)[k] == store[k] by {
            assert(prior.contains_key(k) && prior[k] == store[k]);
        }
    }
}

} // verus!
