//! A cluster at rest comes to hold the same everywhere.
//!
//! At rest no client pushes, and the replicas do nothing but ask each other
//! ([`at_rest`]). The cluster is taken to be linked ([`linked`]): every
//! replica holds what it attributes to itself, knows of every other a prefix
//! of what that other holds, and holds a value for every key it knows of; and
//! where two replicas hold one key they hold one value. Replicas that start
//! with nothing are linked ([`lemma_fresh_linked`]), a value that one of them
//! takes up leaves them linked unless another holds another value under its
//! key ([`lemma_observed_linked`]), and gossip leaves them linked
//! ([`lemma_step`]). Gossip is taken to be fair ([`fair`]): within some
//! number of steps every replica asks every other. Which peer a replica asks
//! is left to chance when it runs; of chance nothing is claimed here.
//!
//! The proof counts what the replicas know of each other ([`known`]). No
//! exchange lessens it ([`lemma_span`]), every window of fair gossip raises
//! it until all have caught up ([`lemma_window`]), it cannot pass a bound
//! ([`lemma_known_bound`]), and replicas that have caught up hold the same
//! ([`lemma_caught_up_same`]). Hence [`lemma_converges`].

use crate::gossip::{
    absorbed, answers, exchange, exchanged, keys_through, lemma_keys_through, list_views,
    scanned, stop_at, taken, updated, Scan, UPDATE_CAP,
};
use crate::laws::{lemma_absorbed_store, lemma_exchange_catches_up, lemma_walk_advances};
use crate::messages::{DigestPair, KVPair, Key, ReplicaId, UpdateMessage};
use crate::replica::{observed, ReplicaState};
use vstd::prelude::*;

verus! {

/// A walk gathers the keys that it passes.
pub proof fn lemma_keys_passed(list: Seq<Key>, from: int, keys: Set<Key>)
    requires
        0 <= from <= list.len(),
        keys.finite(),
    ensures
        keys_through(list, from, keys) == keys.union(
            list.subrange(from, stop_at(list, from, keys)).to_set(),
        ),
        from <= stop_at(list, from, keys) <= list.len(),
    decreases list.len() - from,
{
    if from >= list.len() || keys.len() >= UPDATE_CAP {
        assert(list.subrange(from, from).to_set() =~= Set::<Key>::empty());
        assert(keys.union(Set::<Key>::empty()) =~= keys);
    } else {
        let more = keys.insert(list[from]);
        lemma_keys_passed(list, from + 1, more);
        let stop = stop_at(list, from, keys);
        let short = list.subrange(from + 1, stop);
        let long = list.subrange(from, stop);
        assert(long =~= seq![list[from]] + short);
        assert(more.union(short.to_set()) =~= keys.union(long.to_set())) by {
            assert forall|k: Key| more.union(short.to_set()).contains(k) == keys.union(
                long.to_set(),
            ).contains(k) by {
                if short.to_set().contains(k) {
                    let i = choose|i: int| 0 <= i < short.len() && short[i] == k;
                    assert(long[i + 1] == k);
                }
                if k == list[from] {
                    assert(long[0] == k);
                }
                if long.to_set().contains(k) {
                    let i = choose|i: int| 0 <= i < long.len() && long[i] == k;
                    if i > 0 {
                        assert(short[i - 1] == k);
                    }
                }
            }
        }
    }
}

/// A replica is settled when its own list holds the keys of its store, each
/// once.
pub open spec fn settled(s: ReplicaState) -> bool {
    &&& s.index.contains_key(s.id)
    &&& s.index[s.id].no_duplicates()
    &&& s.index[s.id].to_set() == s.store.dom()
}

/// The keys of pairs, as a set.
pub open spec fn keys_in(pairs: Seq<KVPair>) -> Set<Key> {
    Set::new(|k: Key| exists|i: int| 0 <= i < pairs.len() && (#[trigger] pairs[i]).key == k)
}

/// Seeing a value leaves a settled replica settled.
pub proof fn lemma_observed_settled(s: ReplicaState, key: Key, value: Seq<char>)
    requires
        settled(s),
    ensures
        settled(observed(s, key, value)),
        observed(s, key, value).store.dom() == s.store.dom().insert(key),
        forall|k: Key|
            s.store.contains_key(k) ==> #[trigger] observed(s, key, value).store[k] == s.store[k],
{
    let after = observed(s, key, value);
    assert(after.store.dom() =~= s.store.dom().insert(key));
    if s.store.contains_key(key) {
        assert(s.store.dom().insert(key) =~= s.store.dom());
    } else {
        let own = s.index[s.id];
        own.lemma_push_to_set_commute(key);
        assert(!own.to_set().contains(key));
        assert(own.push(key).no_duplicates());
    }
}

/// Seeing values leaves a settled replica settled; its store then holds
/// the keys it held and the keys of the values, and under the keys that it
/// held it holds what it held.
pub proof fn lemma_absorbed_settled(s: ReplicaState, pairs: Seq<KVPair>)
    requires
        settled(s),
    ensures
        settled(absorbed(s, pairs)),
        absorbed(s, pairs).id == s.id,
        absorbed(s, pairs).index.dom() == s.index.dom(),
        s.index[s.id].is_prefix_of(absorbed(s, pairs).index[s.id]),
        forall|r: ReplicaId|
            s.index.contains_key(r) && r != s.id ==> #[trigger] absorbed(s, pairs).index[r]
                == s.index[r],
        absorbed(s, pairs).store.dom() == s.store.dom().union(keys_in(pairs)),
        forall|k: Key|
            s.store.contains_key(k) ==> #[trigger] absorbed(s, pairs).store[k] == s.store[k],
    decreases pairs.len(),
{
    if pairs.len() == 0 {
        assert(s.store.dom().union(keys_in(pairs)) =~= s.store.dom());
    } else {
        let prior = pairs.drop_last();
        let last = pairs.last();
        let before = absorbed(s, prior);
        lemma_absorbed_settled(s, prior);
        lemma_observed_settled(before, last.key, last.value@);
        let after = absorbed(s, pairs);
        assert(after.index.dom() =~= s.index.dom());
        assert(keys_in(pairs) =~= keys_in(prior).insert(last.key)) by {
            assert forall|k: Key| keys_in(pairs).contains(k) == keys_in(prior).insert(
                last.key,
            ).contains(k) by {
                if keys_in(pairs).contains(k) {
                    let i = choose|i: int| 0 <= i < pairs.len() && (#[trigger] pairs[i]).key == k;
                    if i < prior.len() {
                        assert(prior[i].key == k);
                    }
                }
                if keys_in(prior).contains(k) {
                    let i = choose|i: int| 0 <= i < prior.len() && (#[trigger] prior[i]).key == k;
                    assert(pairs[i].key == k);
                }
                if k == last.key {
                    assert(pairs[pairs.len() - 1].key == k);
                }
            }
        }
        assert(after.store.dom() =~= s.store.dom().union(keys_in(pairs)));
        assert forall|k: Key| s.store.contains_key(k) implies #[trigger] after.store[k]
            == s.store[k] by {
            assert(before.store[k] == s.store[k]);
            assert(before.store.contains_key(k));
        }
    }
}

/// Two stores agree when they hold the same value wherever they hold the
/// same key.
pub open spec fn agree(x: Map<Key, Seq<char>>, y: Map<Key, Seq<char>>) -> bool {
    forall|k: Key| x.contains_key(k) && y.contains_key(k) ==> #[trigger] x[k] == y[k]
}

/// The replica holds a value for every key that it attributes to `other`.
pub open spec fn holds_keys_of(s: ReplicaState, other: ReplicaId) -> bool {
    forall|i: int| 0 <= i < s.index[other].len() ==> s.store.contains_key(#[trigger] s.index[other][i])
}

/// The key `k` stands in one of the lists of `index`.
pub open spec fn listed(index: Map<ReplicaId, Seq<Key>>, k: Key) -> bool {
    exists|r: ReplicaId, i: int|
        index.contains_key(r) && 0 <= i < index[r].len() && #[trigger] index[r][i] == k
}

/// What a scan of an asker's digest has told is sound: it has changed no
/// list of the answerer's index `theirs`; every key it carries stands in a
/// list of that index; and of every replica it tells, which is never the
/// asker, it tells the keys that follow those that the asker knows, one at
/// least, all of them carried.
pub open spec fn sound(
    scan: Scan,
    theirs: Map<ReplicaId, Seq<Key>>,
    mine: Map<ReplicaId, Seq<Key>>,
    asker: ReplicaId,
) -> bool {
    &&& scan.index == theirs
    &&& scan.keys.finite()
    &&& scan.keys.len() <= UPDATE_CAP
    &&& scan.replica_keys.dom() =~= Set::<ReplicaId>::empty() ==> scan.keys =~= Set::<Key>::empty()
        && !scan.stopped
    &&& forall|k: Key| #[trigger] scan.keys.contains(k) ==> listed(theirs, k)
    &&& forall|r: ReplicaId| #[trigger]
        scan.replica_keys.contains_key(r) ==> tells(scan, theirs, mine, asker, r)
}

/// What a scan tells of the replica `r` is what follows in the answerer's
/// list the keys that the asker knows.
pub open spec fn tells(
    scan: Scan,
    theirs: Map<ReplicaId, Seq<Key>>,
    mine: Map<ReplicaId, Seq<Key>>,
    asker: ReplicaId,
    r: ReplicaId,
) -> bool {
    let told = scan.replica_keys[r];
    let from = mine[r].len() as int;
    &&& r != asker
    &&& theirs.contains_key(r)
    &&& mine.contains_key(r)
    &&& 1 <= told.len()
    &&& from + told.len() <= theirs[r].len()
    &&& told == taken(theirs[r], from, from + told.len())
    &&& forall|i: int| from <= i < from + told.len() ==> scan.keys.contains(#[trigger] theirs[r][i])
}

/// The answerer knows of the replica of each line more than the line
/// counts.
pub open spec fn lacking(
    lines: Seq<DigestPair>,
    theirs: Map<ReplicaId, Seq<Key>>,
    asker: ReplicaId,
    i: int,
) -> bool {
    lines[i].replica_id != asker && theirs[lines[i].replica_id].len() > lines[i].keys
}

/// The scan of a digest of the asker's index `mine` over an index `theirs`
/// that knows every replica of the digest, and knows of the asker no more
/// than the asker does, is sound; and it tells of some replica if it knows
/// more of any than the asker does.
pub proof fn lemma_scan_sound(
    theirs: Map<ReplicaId, Seq<Key>>,
    mine: Map<ReplicaId, Seq<Key>>,
    asker: ReplicaId,
    lines: Seq<DigestPair>,
)
    requires
        forall|i: int| 0 <= i < lines.len() ==> theirs.contains_key((#[trigger] lines[i]).replica_id),
        forall|i: int|
            0 <= i < lines.len() ==> mine.contains_key((#[trigger] lines[i]).replica_id)
                && lines[i].keys == mine[lines[i].replica_id].len(),
        theirs.contains_key(asker) && mine.contains_key(asker) ==> theirs[asker].len()
            <= mine[asker].len(),
    ensures
        sound(scanned(theirs, asker, lines), theirs, mine, asker),
        (exists|i: int| 0 <= i < lines.len() && #[trigger] lacking(lines, theirs, asker, i))
            ==> !(scanned(theirs, asker, lines).replica_keys.dom() =~= Set::<ReplicaId>::empty()),
    decreases lines.len(),
{
    let scan = scanned(theirs, asker, lines);
    if lines.len() == 0 {
        assert(scan.keys =~= Set::<Key>::empty());
    } else {
        let prior = lines.drop_last();
        let last = lines.last();
        let n = lines.len() - 1;
        let before = scanned(theirs, asker, prior);
        assert forall|i: int| 0 <= i < prior.len() implies theirs.contains_key(
            (#[trigger] prior[i]).replica_id,
        ) by {
            assert(prior[i] == lines[i]);
        }
        assert forall|i: int| 0 <= i < prior.len() implies mine.contains_key(
            (#[trigger] prior[i]).replica_id,
        ) && prior[i].keys == mine[prior[i].replica_id].len() by {
            assert(prior[i] == lines[i]);
        }
        lemma_scan_sound(theirs, mine, asker, prior);
        assert(lines[n] == last);
        let r = last.replica_id;
        assert(theirs.contains_key(r) && mine.contains_key(r));
        assert(last.keys == mine[r].len());
        let list = theirs[r];
        let from = last.keys as int;
        if before.stopped {
            assert(scan == before);
        } else if list.len() <= last.keys {
            assert(scan == before);
        } else if r == asker {
            assert(false);
        } else if before.keys.len() >= UPDATE_CAP {
            assert(scan.keys == before.keys);
            assert(scan.replica_keys == before.replica_keys);
            assert(!(before.keys =~= Set::<Key>::empty())) by {
                if before.keys =~= Set::<Key>::empty() {
                    assert(before.keys.len() == 0);
                }
            }
            assert forall|q: ReplicaId| #[trigger]
                scan.replica_keys.contains_key(q) implies tells(scan, theirs, mine, asker, q) by {
                assert(tells(before, theirs, mine, asker, q));
            }
        } else {
            let to = stop_at(list, from, before.keys);
            lemma_walk_advances(list, from, before.keys);
            lemma_keys_passed(list, from, before.keys);
            lemma_keys_through(list, from, before.keys);
            let passed = list.subrange(from, to);
            assert(scan.keys == before.keys.union(passed.to_set()));
            assert(scan.replica_keys == before.replica_keys.insert(r, taken(list, from, to)));
            assert(scan.replica_keys.contains_key(r));
            assert forall|k: Key| #[trigger] scan.keys.contains(k) implies listed(theirs, k) by {
                if !before.keys.contains(k) {
                    let i = choose|i: int| 0 <= i < passed.len() && passed[i] == k;
                    assert(theirs[r][from + i] == k);
                }
            }
            assert forall|q: ReplicaId| #[trigger]
                scan.replica_keys.contains_key(q) implies tells(scan, theirs, mine, asker, q) by {
                if q == r {
                    assert(scan.replica_keys[r] == taken(list, from, to));
                    assert forall|i: int| from <= i < to implies scan.keys.contains(
                        #[trigger] theirs[r][i],
                    ) by {
                        assert(passed[i - from] == list[i]);
                        assert(passed.to_set().contains(list[i]));
                    }
                } else {
                    assert(tells(before, theirs, mine, asker, q));
                }
            }
        }
        if exists|i: int| 0 <= i < lines.len() && #[trigger] lacking(lines, theirs, asker, i) {
            let i = choose|i: int| 0 <= i < lines.len() && #[trigger] lacking(lines, theirs, asker, i);
            if i < n {
                assert(prior[i] == lines[i]);
                assert(lacking(prior, theirs, asker, i));
            }
        }
    }
}

/// What becomes of an asker that takes up the answer of a sound scan, where
/// the answerer holds a value for every key of its lists and the asker knows
/// of every replica a prefix of what the answerer knows or more: it holds
/// the keys it held, with the values it held, and those that the answer
/// carries, with the answerer's values where it did not hold them; of every
/// replica that the answer tells it knows what
/// the answerer knows up to the last key told; its own list has only grown;
/// and its other lists are as they were.
pub proof fn lemma_answer_taken_up(
    x: ReplicaState,
    theirs: Map<ReplicaId, Seq<Key>>,
    store: Map<Key, Seq<char>>,
    body: UpdateMessage,
    scan: Scan,
    sending_rate: u64,
)
    requires
        settled(x),
        sound(scan, theirs, x.index, x.id),
        answers(body, scan, store, sending_rate),
        forall|k: Key| listed(theirs, k) ==> store.contains_key(k),
        forall|r: ReplicaId| #[trigger]
            scan.replica_keys.contains_key(r) ==> x.index[r].is_prefix_of(theirs[r])
                && theirs[r].len() <= usize::MAX,
    ensures
        updated(x, body).id == x.id,
        settled(updated(x, body)),
        updated(x, body).store.dom() == x.store.dom().union(scan.keys),
        forall|k: Key|
            scan.keys.contains(k) && !x.store.contains_key(k) ==> #[trigger] updated(x, body).store[k]
                == store[k],
        forall|k: Key| x.store.contains_key(k) ==> #[trigger] updated(x, body).store[k] == x.store[k],
        updated(x, body).index.dom() == x.index.dom(),
        x.index[x.id].is_prefix_of(updated(x, body).index[x.id]),
        forall|r: ReplicaId| #[trigger]
            scan.replica_keys.contains_key(r) ==> updated(x, body).index[r] == theirs[r].take(
                (x.index[r].len() + scan.replica_keys[r].len()) as int,
            ),
        forall|r: ReplicaId|
            x.index.contains_key(r) && !scan.replica_keys.contains_key(r) && r != x.id
                ==> #[trigger] updated(x, body).index[r] == x.index[r],
{
    let pairs = body.key_values@;
    let told = list_views(body.replica_keys@);
    let seen = absorbed(x, pairs);
    let after = updated(x, body);
    lemma_absorbed_settled(x, pairs);
    assert(told =~= scan.replica_keys);
    assert(keys_in(pairs) =~= scan.keys) by {
        assert forall|k: Key| keys_in(pairs).contains(k) == scan.keys.contains(k) by {
            if keys_in(pairs).contains(k) {
                let i = choose|i: int| 0 <= i < pairs.len() && (#[trigger] pairs[i]).key == k;
                assert(scan.keys.contains(pairs[i].key));
            }
            if scan.keys.contains(k) {
                assert(listed(theirs, k));
                assert(store.contains_key(k));
                let i = choose|i: int| 0 <= i < pairs.len() && (#[trigger] pairs[i]).key == k;
                assert(pairs[i].key == k);
            }
        }
    }
    assert forall|k: Key| scan.keys.contains(k) && !x.store.contains_key(k) implies #[trigger] after.store[k]
        == store[k] by {
        let i = choose|i: int| 0 <= i < pairs.len() && (#[trigger] pairs[i]).key == k;
        assert forall|j: int| 0 <= j < i implies (#[trigger] pairs[j]).key != pairs[i].key by {}
        lemma_absorbed_store(x, pairs, i);
    }
    assert(after.index.dom() =~= x.index.dom()) by {
        assert forall|r: ReplicaId| after.index.contains_key(r) == x.index.contains_key(r) by {
            if told.contains_key(r) {
                assert(tells(scan, theirs, x.index, x.id, r));
            }
        }
    }
    assert(!told.contains_key(x.id)) by {
        if told.contains_key(x.id) {
            assert(tells(scan, theirs, x.index, x.id, x.id));
        }
    }
    assert forall|r: ReplicaId| #[trigger] scan.replica_keys.contains_key(r) implies after.index[r]
        == theirs[r].take((x.index[r].len() + scan.replica_keys[r].len()) as int) by {
        assert(tells(scan, theirs, x.index, x.id, r));
        assert(seen.index[r] == x.index[r]);
        lemma_exchange_catches_up(
            x.index[r],
            theirs[r],
            (x.index[r].len() + scan.replica_keys[r].len()) as int,
        );
    }
}

/// The ids of the replicas of a cluster.
pub open spec fn names(c: Seq<ReplicaState>) -> Set<ReplicaId> {
    Set::new(|r: ReplicaId| exists|i: int| 0 <= i < c.len() && (#[trigger] c[i]).id == r)
}

/// The replica `x` follows the replica `y`: it knows of `y` a prefix of what
/// `y` holds, holds a value for every key it knows of `y`, and holds the
/// same value as `y` wherever both hold a key.
pub open spec fn follows(x: ReplicaState, y: ReplicaState) -> bool {
    &&& x.index[y.id].is_prefix_of(y.index[y.id])
    &&& holds_keys_of(x, y.id)
    &&& agree(x.store, y.store)
}

/// The `i`-th replica of a cluster is settled, knows the replicas of the
/// cluster and no others, and has an own list that fits in memory.
pub open spec fn member(c: Seq<ReplicaState>, i: int) -> bool {
    &&& settled(c[i])
    &&& c[i].index.dom() == names(c)
    &&& c[i].index[c[i].id].len() <= usize::MAX
}

/// A cluster is linked when its replicas have ids of their own, each is a
/// member, and each follows every other.
pub open spec fn linked(c: Seq<ReplicaState>) -> bool {
    &&& forall|i: int, j: int| 0 <= i < j < c.len() ==> (#[trigger] c[i]).id != (#[trigger] c[j]).id
    &&& forall|i: int| 0 <= i < c.len() ==> #[trigger] member(c, i)
    &&& forall|i: int, j: int| 0 <= i < c.len() && 0 <= j < c.len() ==> #[trigger] follows(c[i], c[j])
}

/// The keys that the replicas of a cluster hold between them.
pub open spec fn all_keys(c: Seq<ReplicaState>) -> Set<Key> {
    Set::new(|k: Key| exists|i: int| 0 <= i < c.len() && (#[trigger] c[i]).store.contains_key(k))
}

/// Of two prefixes of one list, the shorter is a prefix of the longer.
pub proof fn lemma_prefixes(short: Seq<Key>, long: Seq<Key>, whole: Seq<Key>)
    requires
        short.is_prefix_of(whole),
        long.is_prefix_of(whole),
        short.len() <= long.len(),
    ensures
        short.is_prefix_of(long),
{
    assert forall|i: int| 0 <= i < short.len() implies short[i] == long[i] by {
        assert(short[i] == whole[i]);
        assert(long[i] == whole[i]);
    }
}

/// One exchange in a linked cluster, in which the `i`-th replica asks the
/// `j`-th, leaves the answerer as it was and the cluster linked. No list of
/// the asker gets shorter. If the answerer knew more of some replica than
/// the asker, a list of the asker gets longer; if not, the asker stays as it
/// was. Between them the replicas hold the keys they held.
pub proof fn lemma_cluster_exchange(
    c: Seq<ReplicaState>,
    i: int,
    j: int,
    lines: Seq<DigestPair>,
    body: UpdateMessage,
    sending_rate: u64,
    x2: ReplicaState,
    y2: ReplicaState,
)
    requires
        linked(c),
        0 <= i < c.len(),
        0 <= j < c.len(),
        i != j,
        exchanged(c[i], c[j], lines, body, sending_rate, x2, y2),
        x2.index[x2.id].len() <= usize::MAX,
    ensures
        y2 == c[j],
        x2.id == c[i].id,
        linked(c.update(i, x2)),
        all_keys(c.update(i, x2)) == all_keys(c),
        forall|m: int|
            0 <= m < c.len() ==> c[i].index[(#[trigger] c[m]).id].len() <= x2.index[c[m].id].len(),
        (exists|m: int|
            0 <= m < c.len() && c[i].index[(#[trigger] c[m]).id].len() < c[j].index[c[m].id].len())
            ==> (exists|m: int|
            0 <= m < c.len() && c[i].index[(#[trigger] c[m]).id].len() < x2.index[c[m].id].len()),
        (forall|m: int|
            0 <= m < c.len() ==> c[j].index[(#[trigger] c[m]).id].len() <= c[i].index[c[m].id].len())
            ==> x2 == c[i],
{
    let x = c[i];
    let y = c[j];
    let scan = scanned(y.index, x.id, lines);
    let d = c.update(i, x2);
    assert(member(c, i) && member(c, j));
    assert(follows(y, x));
    assert(names(c).contains(x.id) && names(c).contains(y.id));
    assert forall|n: int| 0 <= n < lines.len() implies y.index.contains_key(
        (#[trigger] lines[n]).replica_id,
    ) by {
        assert(x.index.contains_key(lines[n].replica_id));
    }
    lemma_scan_sound(y.index, x.index, x.id, lines);
    assert(y2 == y);
    assert forall|k: Key| listed(y.index, k) implies y.store.contains_key(k) by {
        let (r, n) = choose|r: ReplicaId, n: int|
            y.index.contains_key(r) && 0 <= n < y.index[r].len() && #[trigger] y.index[r][n] == k;
        assert(names(c).contains(r));
        let m = choose|m: int| 0 <= m < c.len() && (#[trigger] c[m]).id == r;
        assert(follows(y, c[m]));
    }
    assert forall|r: ReplicaId| #[trigger] scan.replica_keys.contains_key(r) implies x.index[r].is_prefix_of(
        y.index[r],
    ) && y.index[r].len() <= usize::MAX by {
        assert(tells(scan, y.index, x.index, x.id, r));
        assert(names(c).contains(r));
        let m = choose|m: int| 0 <= m < c.len() && (#[trigger] c[m]).id == r;
        assert(follows(x, c[m]));
        assert(follows(y, c[m]));
        assert(member(c, m));
        lemma_prefixes(x.index[r], y.index[r], c[m].index[r]);
    }
    lemma_answer_taken_up(x, y.index, y.store, body, scan, sending_rate);
    assert(x2.id == x.id);
    assert(names(d) =~= names(c)) by {
        assert forall|r: ReplicaId| names(d).contains(r) == names(c).contains(r) by {
            if names(d).contains(r) {
                let m = choose|m: int| 0 <= m < d.len() && (#[trigger] d[m]).id == r;
                assert(c[m].id == r);
            }
            if names(c).contains(r) {
                let m = choose|m: int| 0 <= m < c.len() && (#[trigger] c[m]).id == r;
                assert(d[m].id == r);
            }
        }
    }
    assert forall|m: int| 0 <= m < c.len() implies c[i].index[(#[trigger] c[m]).id].len()
        <= x2.index[c[m].id].len() by {
        let r = c[m].id;
        assert(names(c).contains(r));
        if scan.replica_keys.contains_key(r) {
            assert(tells(scan, y.index, x.index, x.id, r));
        }
    }
    lemma_follows_after(c, i, j, scan, x2);
    assert(linked(d)) by {
        assert forall|p: int, q: int| 0 <= p < q < d.len() implies (#[trigger] d[p]).id != (
        #[trigger] d[q]).id by {
            assert(c[p].id != c[q].id);
        }
        assert forall|p: int| 0 <= p < d.len() implies #[trigger] member(d, p) by {
            assert(member(c, p));
        }
        assert forall|p: int, q: int| 0 <= p < d.len() && 0 <= q < d.len() implies #[trigger] follows(
            d[p],
            d[q],
        ) by {
            if p != i && q != i {
                assert(follows(c[p], c[q]));
            }
        }
    }
    assert(all_keys(d) =~= all_keys(c)) by {
        assert forall|k: Key| all_keys(d).contains(k) == all_keys(c).contains(k) by {
            if all_keys(d).contains(k) {
                let m = choose|m: int| 0 <= m < d.len() && (#[trigger] d[m]).store.contains_key(k);
                if m == i {
                    if scan.keys.contains(k) {
                        assert(listed(y.index, k));
                        assert(c[j].store.contains_key(k));
                    } else {
                        assert(c[i].store.contains_key(k));
                    }
                } else {
                    assert(c[m].store.contains_key(k));
                }
            }
            if all_keys(c).contains(k) {
                let m = choose|m: int| 0 <= m < c.len() && (#[trigger] c[m]).store.contains_key(k);
                assert(d[m].store.contains_key(k));
            }
        }
    }
    if exists|m: int|
        0 <= m < c.len() && c[i].index[(#[trigger] c[m]).id].len() < c[j].index[c[m].id].len() {
        let m = choose|m: int|
            0 <= m < c.len() && c[i].index[(#[trigger] c[m]).id].len() < c[j].index[c[m].id].len();
        let r = c[m].id;
        assert(names(c).contains(r));
        assert(r != x.id);
        let n = choose|n: int| 0 <= n < lines.len() && (#[trigger] lines[n]).replica_id == r;
        assert(lacking(lines, y.index, x.id, n));
        assert(!(scan.replica_keys.dom() =~= Set::<ReplicaId>::empty()));
        let q = choose|q: ReplicaId| scan.replica_keys.dom().contains(q);
        assert(scan.replica_keys.contains_key(q));
        assert(tells(scan, y.index, x.index, x.id, q));
        assert(names(c).contains(q));
        let w = choose|w: int| 0 <= w < c.len() && (#[trigger] c[w]).id == q;
        assert(c[i].index[c[w].id].len() < x2.index[c[w].id].len());
    }
    if forall|m: int|
        0 <= m < c.len() ==> c[j].index[(#[trigger] c[m]).id].len() <= c[i].index[c[m].id].len() {
        assert(scan.replica_keys.dom() =~= Set::<ReplicaId>::empty()) by {
            assert forall|q: ReplicaId| !scan.replica_keys.contains_key(q) by {
                if scan.replica_keys.contains_key(q) {
                    assert(tells(scan, y.index, x.index, x.id, q));
                    assert(names(c).contains(q));
                    let w = choose|w: int| 0 <= w < c.len() && (#[trigger] c[w]).id == q;
                    assert(c[j].index[c[w].id].len() <= c[i].index[c[w].id].len());
                }
            }
        }
        assert(scan.keys =~= Set::<Key>::empty());
        assert(x2.store =~= x.store);
        assert(x2.index =~= x.index) by {
            assert(x2.index[x.id] =~= x.index[x.id]) by {
                x.index[x.id].unique_seq_to_set();
                x2.index[x.id].unique_seq_to_set();
            }
        }
    }
}

/// After such an exchange the asker follows every replica of the cluster,
/// and every replica follows the asker.
proof fn lemma_follows_after(c: Seq<ReplicaState>, i: int, j: int, scan: Scan, x2: ReplicaState)
    requires
        linked(c),
        0 <= i < c.len(),
        0 <= j < c.len(),
        i != j,
        sound(scan, c[j].index, c[i].index, c[i].id),
        forall|k: Key| scan.keys.contains(k) ==> c[j].store.contains_key(k),
        x2.id == c[i].id,
        settled(x2),
        x2.store.dom() == c[i].store.dom().union(scan.keys),
        forall|k: Key|
            scan.keys.contains(k) && !c[i].store.contains_key(k) ==> #[trigger] x2.store[k]
                == c[j].store[k],
        forall|k: Key| c[i].store.contains_key(k) ==> #[trigger] x2.store[k] == c[i].store[k],
        x2.index.dom() == c[i].index.dom(),
        c[i].index[c[i].id].is_prefix_of(x2.index[c[i].id]),
        forall|r: ReplicaId| #[trigger]
            scan.replica_keys.contains_key(r) ==> x2.index[r] == c[j].index[r].take(
                (c[i].index[r].len() + scan.replica_keys[r].len()) as int,
            ),
        forall|r: ReplicaId|
            c[i].index.contains_key(r) && !scan.replica_keys.contains_key(r) && r != c[i].id
                ==> #[trigger] x2.index[r] == c[i].index[r],
    ensures
        forall|q: int| 0 <= q < c.len() && q != i ==> #[trigger] follows(x2, c[q]),
        forall|p: int| 0 <= p < c.len() && p != i ==> #[trigger] follows(c[p], x2),
        follows(x2, x2),
{
    let x = c[i];
    let y = c[j];
    assert(member(c, i));
    assert forall|q: int| 0 <= q < c.len() && q != i implies #[trigger] follows(x2, c[q]) by {
        let r = c[q].id;
        let whole = c[q].index[r];
        assert(member(c, q));
        assert(follows(x, c[q]));
        assert(follows(y, c[q]));
        assert(names(c).contains(r));
        assert(r != x.id) by {
            if q < i {
                assert(c[q].id != c[i].id);
            } else {
                assert(c[i].id != c[q].id);
            }
        }
        if scan.replica_keys.contains_key(r) {
            assert(tells(scan, y.index, x.index, x.id, r));
            let to = (x.index[r].len() + scan.replica_keys[r].len()) as int;
            lemma_prefixes(x.index[r], y.index[r], whole);
            assert(x2.index[r] == y.index[r].take(to));
            assert(x2.index[r].is_prefix_of(whole));
            assert forall|n: int| 0 <= n < x2.index[r].len() implies x2.store.contains_key(
                #[trigger] x2.index[r][n],
            ) by {
                if n < x.index[r].len() {
                    assert(x.index[r][n] == y.index[r][n]);
                    assert(x.store.contains_key(x.index[r][n]));
                } else {
                    assert(scan.keys.contains(y.index[r][n]));
                }
            }
        } else {
            assert(x2.index[r] == x.index[r]);
            assert forall|n: int| 0 <= n < x2.index[r].len() implies x2.store.contains_key(
                #[trigger] x2.index[r][n],
            ) by {
                assert(x.store.contains_key(x.index[r][n]));
            }
        }
        assert forall|k: Key| x2.store.contains_key(k) && c[q].store.contains_key(k) implies #[trigger] x2.store[k]
            == c[q].store[k] by {
            if x.store.contains_key(k) {
                assert(x2.store[k] == x.store[k]);
            } else {
                assert(scan.keys.contains(k));
                assert(y.store.contains_key(k));
                assert(x2.store[k] == y.store[k]);
            }
        }
    }
    assert forall|p: int| 0 <= p < c.len() && p != i implies #[trigger] follows(c[p], x2) by {
        assert(follows(c[p], x));
        assert(follows(c[p], y));
        assert(follows(y, c[p]));
        assert(c[p].index[x.id].is_prefix_of(x2.index[x.id])) by {
            assert forall|n: int| 0 <= n < c[p].index[x.id].len() implies c[p].index[x.id][n]
                == x2.index[x.id][n] by {
                assert(c[p].index[x.id][n] == x.index[x.id][n]);
            }
        }
        assert forall|k: Key| c[p].store.contains_key(k) && x2.store.contains_key(k) implies #[trigger] c[p].store[k]
            == x2.store[k] by {
            if x.store.contains_key(k) {
                assert(x2.store[k] == x.store[k]);
            } else {
                assert(scan.keys.contains(k));
                assert(y.store.contains_key(k));
                assert(x2.store[k] == y.store[k]);
            }
        }
    }
    assert(follows(x2, x2)) by {
        assert forall|n: int| 0 <= n < x2.index[x2.id].len() implies x2.store.contains_key(
            #[trigger] x2.index[x2.id][n],
        ) by {
            assert(x2.index[x2.id].to_set().contains(x2.index[x2.id][n]));
        }
    }
}

/// The lengths of the first `n` lists of the `i`-th replica, added up.
pub open spec fn row(c: Seq<ReplicaState>, i: int, n: int) -> int
    decreases n,
{
    if n <= 0 {
        0
    } else {
        row(c, i, n - 1) + c[i].index[c[n - 1].id].len()
    }
}

/// The lengths of the lists of the first `m` replicas, added up.
pub open spec fn total(c: Seq<ReplicaState>, m: int) -> int
    decreases m,
{
    if m <= 0 {
        0
    } else {
        total(c, m - 1) + row(c, m - 1, c.len() as int)
    }
}

/// How much the replicas of a cluster know of each other: the lengths of
/// all their lists, added up.
pub open spec fn known(c: Seq<ReplicaState>) -> int {
    total(c, c.len() as int)
}

/// The cluster `d` is the cluster `c` with lists that are as long or longer.
pub open spec fn grown(c: Seq<ReplicaState>, d: Seq<ReplicaState>) -> bool {
    &&& d.len() == c.len()
    &&& forall|i: int| 0 <= i < c.len() ==> (#[trigger] d[i]).id == c[i].id
    &&& forall|i: int, m: int|
        0 <= i < c.len() && 0 <= m < c.len() ==> #[trigger] c[i].index[c[m].id].len()
            <= d[i].index[c[m].id].len()
}

/// The `i`-th replica knows more of the `m`-th in `d` than in `c`.
pub open spec fn longer(c: Seq<ReplicaState>, d: Seq<ReplicaState>, i: int, m: int) -> bool {
    0 <= i < c.len() && 0 <= m < c.len() && c[i].index[c[m].id].len() < d[i].index[c[m].id].len()
}

proof fn lemma_row_grows(c: Seq<ReplicaState>, d: Seq<ReplicaState>, i: int, n: int)
    requires
        grown(c, d),
        0 <= i < c.len(),
        0 <= n <= c.len(),
    ensures
        row(c, i, n) <= row(d, i, n),
        forall|m: int| 0 <= m < n && #[trigger] longer(c, d, i, m) ==> row(c, i, n) < row(d, i, n),
    decreases n,
{
    if n > 0 {
        lemma_row_grows(c, d, i, n - 1);
        assert(d[n - 1].id == c[n - 1].id);
        assert(c[i].index[c[n - 1].id].len() <= d[i].index[c[n - 1].id].len());
        assert forall|m: int| 0 <= m < n && #[trigger] longer(c, d, i, m) implies row(c, i, n) < row(
            d,
            i,
            n,
        ) by {
            if m < n - 1 {
                assert(row(c, i, n - 1) < row(d, i, n - 1));
            }
        }
    }
}

proof fn lemma_total_grows(c: Seq<ReplicaState>, d: Seq<ReplicaState>, n: int)
    requires
        grown(c, d),
        0 <= n <= c.len(),
    ensures
        total(c, n) <= total(d, n),
        forall|i: int, m: int|
            0 <= i < n && #[trigger] longer(c, d, i, m) ==> total(c, n) < total(d, n),
    decreases n,
{
    if n > 0 {
        lemma_total_grows(c, d, n - 1);
        lemma_row_grows(c, d, n - 1, c.len() as int);
        assert forall|i: int, m: int| 0 <= i < n && #[trigger] longer(c, d, i, m) implies total(c, n)
            < total(d, n) by {
            if i < n - 1 {
                assert(total(c, n - 1) < total(d, n - 1));
            } else {
                assert(row(c, i, c.len() as int) < row(d, i, c.len() as int));
            }
        }
    }
}

/// A cluster whose lists have grown knows as much or more, and more if one
/// list has got longer.
pub proof fn lemma_known_grows(c: Seq<ReplicaState>, d: Seq<ReplicaState>)
    requires
        grown(c, d),
    ensures
        known(c) <= known(d),
        (exists|i: int, m: int| #[trigger] longer(c, d, i, m)) ==> known(c) < known(d),
{
    lemma_total_grows(c, d, c.len() as int);
}

/// Growing is transitive.
pub proof fn lemma_grown_on(c: Seq<ReplicaState>, d: Seq<ReplicaState>, e: Seq<ReplicaState>)
    requires
        grown(c, d),
        grown(d, e),
    ensures
        grown(c, e),
{
    assert forall|i: int, m: int| 0 <= i < c.len() && 0 <= m < c.len() implies #[trigger] c[i].index[c[m].id].len()
        <= e[i].index[c[m].id].len() by {
        assert(d[m].id == c[m].id);
        assert(c[i].index[c[m].id].len() <= d[i].index[c[m].id].len());
        assert(d[i].index[d[m].id].len() <= e[i].index[d[m].id].len());
    }
    assert forall|i: int| 0 <= i < c.len() implies (#[trigger] e[i]).id == c[i].id by {
        assert(d[i].id == c[i].id);
    }
}

/// Every replica of the cluster knows of every other all that the other
/// holds.
pub open spec fn caught_up(c: Seq<ReplicaState>) -> bool {
    forall|i: int, m: int|
        0 <= i < c.len() && 0 <= m < c.len() ==> #[trigger] c[i].index[c[m].id].len()
            == c[m].index[c[m].id].len()
}

/// In a linked cluster that has caught up, all replicas hold the same.
pub proof fn lemma_caught_up_same(c: Seq<ReplicaState>, i: int, j: int)
    requires
        linked(c),
        caught_up(c),
        0 <= i < c.len(),
        0 <= j < c.len(),
    ensures
        c[i].store == c[j].store,
{
    assert(follows(c[i], c[j]));
    assert(follows(c[j], c[i]));
    assert(member(c, i) && member(c, j));
    assert(c[i].index[c[j].id].len() == c[j].index[c[j].id].len());
    assert(c[j].index[c[i].id].len() == c[i].index[c[i].id].len());
    assert(c[i].index[c[j].id] =~= c[j].index[c[j].id]);
    assert(c[j].index[c[i].id] =~= c[i].index[c[i].id]);
    assert forall|k: Key| c[j].store.contains_key(k) implies c[i].store.contains_key(k) by {
        assert(c[j].index[c[j].id].to_set().contains(k));
        let n = choose|n: int| 0 <= n < c[j].index[c[j].id].len() && c[j].index[c[j].id][n] == k;
        assert(c[i].store.contains_key(c[i].index[c[j].id][n]));
    }
    assert forall|k: Key| c[i].store.contains_key(k) implies c[j].store.contains_key(k) by {
        assert(c[i].index[c[i].id].to_set().contains(k));
        let n = choose|n: int| 0 <= n < c[i].index[c[i].id].len() && c[i].index[c[i].id][n] == k;
        assert(c[j].store.contains_key(c[j].index[c[i].id][n]));
    }
    assert(c[i].store =~= c[j].store);
}

/// The keys that the first `n` replicas of a cluster hold between them.
pub open spec fn keys_upto(c: Seq<ReplicaState>, n: int) -> Set<Key> {
    Set::new(
        |k: Key|
            exists|i: int|
                0 <= i < n && 0 <= i < c.len() && (#[trigger] c[i]).store.contains_key(k),
    )
}

proof fn lemma_keys_upto_finite(c: Seq<ReplicaState>, n: int)
    requires
        linked(c),
        0 <= n <= c.len(),
    ensures
        keys_upto(c, n).finite(),
    decreases n,
{
    if n == 0 {
        assert(keys_upto(c, n) =~= Set::<Key>::empty());
    } else {
        lemma_keys_upto_finite(c, n - 1);
        assert(member(c, n - 1));
        vstd::seq_lib::seq_to_set_is_finite(c[n - 1].index[c[n - 1].id]);
        assert(keys_upto(c, n) =~= keys_upto(c, n - 1).union(c[n - 1].store.dom()));
    }
}

proof fn lemma_row_bound(c: Seq<ReplicaState>, i: int, n: int, most: int)
    requires
        0 <= i < c.len(),
        0 <= n <= c.len(),
        forall|m: int| 0 <= m < c.len() ==> #[trigger] c[i].index[c[m].id].len() <= most,
    ensures
        row(c, i, n) <= n * most,
    decreases n,
{
    if n > 0 {
        lemma_row_bound(c, i, n - 1, most);
        assert(c[i].index[c[n - 1].id].len() <= most);
        assert((n - 1) * most + most == n * most) by (nonlinear_arith);
    } else {
        assert(n * most == 0) by (nonlinear_arith)
            requires
                n == 0,
        ;
    }
}

proof fn lemma_total_bound(c: Seq<ReplicaState>, n: int, most: int)
    requires
        0 <= n <= c.len(),
        forall|i: int, m: int|
            0 <= i < c.len() && 0 <= m < c.len() ==> #[trigger] c[i].index[c[m].id].len() <= most,
    ensures
        total(c, n) <= n * (c.len() * most),
    decreases n,
{
    if n > 0 {
        lemma_total_bound(c, n - 1, most);
        lemma_row_bound(c, n - 1, c.len() as int, most);
        let each = c.len() * most;
        assert((n - 1) * each + each == n * each) by (nonlinear_arith);
    } else {
        assert(n * (c.len() * most) == 0) by (nonlinear_arith)
            requires
                n == 0,
        ;
    }
}

/// The keys of a linked cluster are finitely many, and no list of it is
/// longer than that.
pub proof fn lemma_known_bound(c: Seq<ReplicaState>)
    requires
        linked(c),
    ensures
        all_keys(c).finite(),
        known(c) <= c.len() * (c.len() * all_keys(c).len()),
{
    lemma_keys_upto_finite(c, c.len() as int);
    assert(keys_upto(c, c.len() as int) =~= all_keys(c));
    let most = all_keys(c).len() as int;
    assert forall|i: int, m: int| 0 <= i < c.len() && 0 <= m < c.len() implies #[trigger] c[i].index[c[m].id].len()
        <= most by {
        assert(follows(c[i], c[m]));
        assert(member(c, m));
        let own = c[m].index[c[m].id];
        own.unique_seq_to_set();
        assert(c[m].store.dom().subset_of(all_keys(c)));
        vstd::set_lib::lemma_len_subset(c[m].store.dom(), all_keys(c));
    }
    lemma_total_bound(c, c.len() as int, most);
}

/// The cluster `d` is what the cluster `c` becomes when its `i`-th replica
/// asks its `j`-th: the two are as the exchange leaves them, the asker with
/// an own list that fits in memory, and the others are as they were.
pub open spec fn asks(c: Seq<ReplicaState>, i: int, j: int, d: Seq<ReplicaState>) -> bool {
    &&& 0 <= i < c.len()
    &&& 0 <= j < c.len()
    &&& i != j
    &&& d.len() == c.len()
    &&& exchange(c[i], c[j], d[i], d[j])
    &&& d[i].index[d[i].id].len() <= usize::MAX
    &&& forall|m: int| 0 <= m < c.len() && m != i && m != j ==> #[trigger] d[m] == c[m]
}

/// The `t`-th step of a history: the replica `asked[t].0` asks the replica
/// `asked[t].1`.
pub open spec fn moved(history: Seq<Seq<ReplicaState>>, asked: Seq<(int, int)>, t: int) -> bool {
    asks(history[t], asked[t].0, asked[t].1, history[t + 1])
}

/// A history of a cluster at rest: nothing happens but that one replica
/// after the other asks another.
pub open spec fn at_rest(history: Seq<Seq<ReplicaState>>, asked: Seq<(int, int)>) -> bool {
    &&& history.len() == asked.len() + 1
    &&& forall|t: int| 0 <= t < asked.len() ==> #[trigger] moved(history, asked, t)
}

/// Within the `window` steps from the `s`-th on, the `i`-th replica asks
/// the `j`-th.
pub open spec fn asked_within(asked: Seq<(int, int)>, s: int, window: int, i: int, j: int) -> bool {
    exists|t: int| s <= t < s + window && #[trigger] asked[t] == (i, j)
}

/// Gossip is fair when, within any `window` steps one after the other, each
/// of the `size` replicas asks every other.
pub open spec fn fair(asked: Seq<(int, int)>, size: int, window: int) -> bool {
    &&& window > 0
    &&& forall|s: int, i: int, j: int|
        0 <= s && s + window <= asked.len() && 0 <= i < size && 0 <= j < size && i != j
            ==> #[trigger] asked_within(asked, s, window, i, j)
}

/// The `j`-th replica knows more of some replica than the `i`-th.
pub open spec fn wanting(c: Seq<ReplicaState>, i: int, j: int) -> bool {
    exists|m: int|
        0 <= m < c.len() && c[i].index[(#[trigger] c[m]).id].len() < c[j].index[c[m].id].len()
}

/// One step of a history at rest leaves a linked cluster linked, with the
/// keys it held; no list gets shorter; a list of the asker gets longer if
/// the answerer knew more of some replica; and nothing changes in a cluster
/// that has caught up.
pub proof fn lemma_step(history: Seq<Seq<ReplicaState>>, asked: Seq<(int, int)>, t: int)
    requires
        at_rest(history, asked),
        0 <= t < asked.len(),
        linked(history[t]),
    ensures
        linked(history[t + 1]),
        grown(history[t], history[t + 1]),
        all_keys(history[t + 1]) == all_keys(history[t]),
        wanting(history[t], asked[t].0, asked[t].1) ==> exists|i: int, m: int| #[trigger]
            longer(history[t], history[t + 1], i, m),
        caught_up(history[t]) ==> history[t + 1] == history[t],
{
    let c = history[t];
    let d = history[t + 1];
    let (i, j) = asked[t];
    assert(moved(history, asked, t));
    let (lines, body, rate) = choose|lines: Seq<DigestPair>, body: UpdateMessage, rate: u64| #[trigger]
        exchanged(c[i], c[j], lines, body, rate, d[i], d[j]);
    assert(member(c, i));
    lemma_absorbed_settled(c[i], body.key_values@);
    lemma_cluster_exchange(c, i, j, lines, body, rate, d[i], d[j]);
    assert(d =~= c.update(i, d[i])) by {
        assert forall|m: int| 0 <= m < c.len() implies d[m] == c.update(i, d[i])[m] by {
            if m != i && m != j {
                assert(d[m] == c[m]);
            }
        }
    }
    assert(grown(c, d)) by {
        assert forall|p: int, m: int| 0 <= p < c.len() && 0 <= m < c.len() implies #[trigger] c[p].index[c[m].id].len()
            <= d[p].index[c[m].id].len() by {
            if p == i {
                assert(c[i].index[c[m].id].len() <= d[i].index[c[m].id].len());
            }
        }
    }
    if wanting(c, i, j) {
        let m = choose|m: int|
            0 <= m < c.len() && c[i].index[(#[trigger] c[m]).id].len() < d[i].index[c[m].id].len();
        assert(longer(c, d, i, m));
    }
    if caught_up(c) {
        assert forall|m: int| 0 <= m < c.len() implies c[j].index[(#[trigger] c[m]).id].len()
            <= c[i].index[c[m].id].len() by {
            assert(c[j].index[c[m].id].len() == c[m].index[c[m].id].len());
            assert(c[i].index[c[m].id].len() == c[m].index[c[m].id].len());
        }
    }
}

/// From one step of a history at rest to a later one a linked cluster stays
/// linked, with the keys it held, and no list gets shorter; a cluster that
/// has caught up stays as it is.
pub proof fn lemma_span(history: Seq<Seq<ReplicaState>>, asked: Seq<(int, int)>, s: int, t: int)
    requires
        at_rest(history, asked),
        0 <= s <= t <= asked.len(),
        linked(history[s]),
    ensures
        linked(history[t]),
        grown(history[s], history[t]),
        known(history[s]) <= known(history[t]),
        all_keys(history[t]) == all_keys(history[s]),
        caught_up(history[s]) ==> history[t] == history[s],
    decreases t - s,
{
    if s < t {
        lemma_span(history, asked, s, t - 1);
        lemma_step(history, asked, t - 1);
        lemma_grown_on(history[s], history[t - 1], history[t]);
    }
    lemma_known_grows(history[s], history[t]);
}

/// Within any window of fair gossip a linked cluster that has not caught up
/// comes to know more.
pub proof fn lemma_window(
    history: Seq<Seq<ReplicaState>>,
    asked: Seq<(int, int)>,
    s: int,
    window: int,
)
    requires
        at_rest(history, asked),
        linked(history[s]),
        fair(asked, history[s].len() as int, window),
        0 <= s,
        s + window <= asked.len(),
        !caught_up(history[s]),
    ensures
        known(history[s]) < known(history[s + window]),
{
    let c = history[s];
    let (i, m) = choose|i: int, m: int|
        0 <= i < c.len() && 0 <= m < c.len() && #[trigger] c[i].index[c[m].id].len()
            != c[m].index[c[m].id].len();
    assert(follows(c[i], c[m]));
    assert(c[i].index[c[m].id].len() < c[m].index[c[m].id].len());
    assert(i != m);
    assert(asked_within(asked, s, window, i, m));
    let t = choose|t: int| s <= t < s + window && #[trigger] asked[t] == (i, m);
    let e = history[t];
    let f = history[t + 1];
    lemma_span(history, asked, s, t);
    lemma_step(history, asked, t);
    lemma_span(history, asked, t + 1, s + window);
    lemma_known_grows(e, f);
    assert(e[m].id == c[m].id);
    assert(c[m].index[c[m].id].len() <= e[m].index[c[m].id].len());
    assert(c[i].index[c[m].id].len() <= e[i].index[c[m].id].len());
    if e[i].index[e[m].id].len() < e[m].index[e[m].id].len() {
        assert(wanting(e, i, m));
    } else {
        assert(longer(c, e, i, m));
        lemma_known_grows(c, e);
    }
}

/// After `r` windows of fair gossip a linked cluster has caught up or has
/// come to know more `r` times.
pub proof fn lemma_rounds(
    history: Seq<Seq<ReplicaState>>,
    asked: Seq<(int, int)>,
    window: int,
    r: int,
)
    requires
        at_rest(history, asked),
        linked(history[0]),
        fair(asked, history[0].len() as int, window),
        0 <= r,
        r * window <= asked.len(),
    ensures
        0 <= r * window,
        linked(history[r * window]),
        caught_up(history[r * window]) || known(history[0]) + r <= known(history[r * window]),
    decreases r,
{
    if r == 0 {
        assert(r * window == 0) by (nonlinear_arith)
            requires
                r == 0,
        ;
    } else {
        let s = (r - 1) * window;
        assert(s + window == r * window && 0 <= s) by (nonlinear_arith)
            requires
                s == (r - 1) * window,
                r >= 1,
                window > 0,
        ;
        lemma_rounds(history, asked, window, r - 1);
        lemma_span(history, asked, 0, s);
        lemma_span(history, asked, s, s + window);
        assert(history[s].len() == history[0].len());
        if !caught_up(history[s]) {
            lemma_window(history, asked, s, window);
        }
    }
}

/// A cluster at rest comes to hold the same everywhere. Where the replicas
/// are linked and gossip is fair, all hold the same after as many windows
/// as there are keys among them, times the square of their number, and one
/// more.
pub proof fn lemma_converges(
    history: Seq<Seq<ReplicaState>>,
    asked: Seq<(int, int)>,
    window: int,
    rounds: int,
)
    requires
        at_rest(history, asked),
        linked(history[0]),
        fair(asked, history[0].len() as int, window),
        rounds * window <= asked.len(),
        rounds > history[0].len() * (history[0].len() * all_keys(history[0]).len()),
    ensures
        forall|i: int, j: int|
            0 <= i < history.last().len() && 0 <= j < history.last().len()
                ==> (#[trigger] history.last()[i]).store == (#[trigger] history.last()[j]).store,
{
    let size = history[0].len();
    let most = all_keys(history[0]).len();
    assert(0 <= size * (size * most)) by (nonlinear_arith)
        requires
            0 <= size,
            0 <= most,
    ;
    lemma_rounds(history, asked, window, rounds);
    let s = rounds * window;
    lemma_span(history, asked, 0, s);
    lemma_known_bound(history[s]);
    lemma_known_bound(history[0]);
    assert(0 <= known(history[0])) by {
        lemma_total_sign(history[0], history[0].len() as int);
    }
    assert(caught_up(history[s]));
    lemma_span(history, asked, s, asked.len() as int);
    assert(history.last() == history[s]);
    assert forall|i: int, j: int|
        0 <= i < history.last().len() && 0 <= j < history.last().len() implies (
    #[trigger] history.last()[i]).store == (#[trigger] history.last()[j]).store by {
        lemma_caught_up_same(history[s], i, j);
    }
}

proof fn lemma_total_sign(c: Seq<ReplicaState>, n: int)
    requires
        0 <= n <= c.len(),
    ensures
        0 <= total(c, n),
    decreases n,
{
    if n > 0 {
        lemma_total_sign(c, n - 1);
        lemma_row_sign(c, n - 1, c.len() as int);
    }
}

proof fn lemma_row_sign(c: Seq<ReplicaState>, i: int, n: int)
    ensures
        0 <= row(c, i, n),
    decreases n,
{
    if n > 0 {
        lemma_row_sign(c, i, n - 1);
    }
}

/// Replicas that hold nothing, know each other and nobody else, and have ids
/// of their own are linked.
pub proof fn lemma_fresh_linked(c: Seq<ReplicaState>)
    requires
        forall|i: int, j: int| 0 <= i < j < c.len() ==> (#[trigger] c[i]).id != (#[trigger] c[j]).id,
        forall|i: int|
            0 <= i < c.len() ==> (#[trigger] c[i]).store == Map::<Key, Seq<char>>::empty()
                && c[i].index.dom() == names(c),
        forall|i: int, j: int|
            0 <= i < c.len() && 0 <= j < c.len() ==> #[trigger] c[i].index[c[j].id].len() == 0,
    ensures
        linked(c),
{
    assert forall|i: int| 0 <= i < c.len() implies #[trigger] member(c, i) by {
        assert(names(c).contains(c[i].id));
        assert(c[i].index[c[i].id].len() == 0);
        assert(c[i].index[c[i].id].to_set() =~= c[i].store.dom());
    }
    assert forall|i: int, j: int| 0 <= i < c.len() && 0 <= j < c.len() implies #[trigger] follows(
        c[i],
        c[j],
    ) by {
        assert(c[i].index[c[j].id].len() == 0);
    }
}

/// A value that a replica of a linked cluster takes up leaves the cluster
/// linked, unless another replica holds another value under the same key.
pub proof fn lemma_observed_linked(c: Seq<ReplicaState>, i: int, key: Key, value: Seq<char>)
    requires
        linked(c),
        0 <= i < c.len(),
        forall|j: int|
            0 <= j < c.len() && (#[trigger] c[j]).store.contains_key(key) ==> c[j].store[key]
                == value,
        observed(c[i], key, value).index[c[i].id].len() <= usize::MAX,
    ensures
        linked(c.update(i, observed(c[i], key, value))),
{
    let x = c[i];
    let x2 = observed(x, key, value);
    let d = c.update(i, x2);
    assert(member(c, i));
    lemma_observed_settled(x, key, value);
    assert(x2.index.dom() =~= x.index.dom());
    assert(names(d) =~= names(c)) by {
        assert forall|r: ReplicaId| names(d).contains(r) == names(c).contains(r) by {
            if names(d).contains(r) {
                let m = choose|m: int| 0 <= m < d.len() && (#[trigger] d[m]).id == r;
                assert(c[m].id == r);
            }
            if names(c).contains(r) {
                let m = choose|m: int| 0 <= m < c.len() && (#[trigger] c[m]).id == r;
                assert(d[m].id == r);
            }
        }
    }
    assert forall|p: int, q: int| 0 <= p < q < d.len() implies (#[trigger] d[p]).id != (
    #[trigger] d[q]).id by {
        assert(c[p].id != c[q].id);
    }
    assert forall|p: int| 0 <= p < d.len() implies #[trigger] member(d, p) by {
        assert(member(c, p));
    }
    assert forall|p: int, q: int| 0 <= p < d.len() && 0 <= q < d.len() implies #[trigger] follows(
        d[p],
        d[q],
    ) by {
        assert(follows(c[p], c[q]));
        assert(follows(c[p], x));
        assert(follows(x, c[q]));
        if p == i && q == i {
            assert forall|n: int| 0 <= n < x2.index[x2.id].len() implies x2.store.contains_key(
                #[trigger] x2.index[x2.id][n],
            ) by {
                assert(x2.index[x2.id].to_set().contains(x2.index[x2.id][n]));
            }
        } else if p == i {
            assert(c[q].id != x.id) by {
                if q < i {
                    assert(c[q].id != c[i].id);
                } else {
                    assert(c[i].id != c[q].id);
                }
            }
            assert(names(c).contains(c[q].id));
            assert(x2.index[c[q].id] == x.index[c[q].id]);
            assert forall|n: int| 0 <= n < x2.index[c[q].id].len() implies x2.store.contains_key(
                #[trigger] x2.index[c[q].id][n],
            ) by {
                assert(x.store.contains_key(x.index[c[q].id][n]));
            }
        } else if q == i {
            assert forall|n: int| 0 <= n < c[p].index[x.id].len() implies c[p].index[x.id][n]
                == x2.index[x.id][n] by {
                assert(c[p].index[x.id][n] == x.index[x.id][n]);
            }
        }
    }
}

} // verus!
