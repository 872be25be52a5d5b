//! Anti-entropy: the digests by which replicas tell each other how much
//! they know, and the updates with which they answer.
//!
//! A digest says of every replica how many of its keys the sender knows. The
//! receiver answers with the keys it knows beyond that count, each with its
//! position in the list of the replica that took it up, and with the values
//! of those keys. One update carries at most [`UPDATE_CAP`] keys; what does
//! not fit is told when the next digest asks for it.

use crate::map::LockFreeMap;
use crate::messages::{DigestPair, KVPair, Key, Message, ReplicaId, UpdateMessage};
use crate::replica::{observed, Commit, Replica, ReplicaState};
use std::collections::{HashMap, HashSet};
use std::sync::Arc;
use vstd::prelude::*;

verus! {

/// The most keys that one update carries.
pub const UPDATE_CAP: usize = 250;

/// Where a walk over `list` from position `from` ends when it stops as soon
/// as `keys`, to which it adds every key it passes, has reached the cap.
pub open spec fn stop_at(list: Seq<Key>, from: int, keys: Set<Key>) -> int
    decreases list.len() - from,
{
    if from >= list.len() || keys.len() >= UPDATE_CAP {
        from
    } else {
        stop_at(list, from + 1, keys.insert(list[from]))
    }
}

/// The set `keys` after such a walk.
pub open spec fn keys_through(list: Seq<Key>, from: int, keys: Set<Key>) -> Set<Key>
    decreases list.len() - from,
{
    if from >= list.len() || keys.len() >= UPDATE_CAP {
        keys
    } else {
        keys_through(list, from + 1, keys.insert(list[from]))
    }
}

/// The keys of `list` from position `from` up to `to`, each with its
/// position.
pub open spec fn taken(list: Seq<Key>, from: int, to: int) -> Seq<(Key, usize)> {
    Seq::new((to - from) as nat, |j: int| (list[from + j], (from + j) as usize))
}

/// How far the answer to a digest has come.
pub struct Scan {
    /// The replica index.
    pub index: Map<ReplicaId, Seq<Key>>,
    /// The keys that the answer carries.
    pub keys: Set<Key>,
    /// For each replica of which the asker lacks keys, those keys.
    pub replica_keys: Map<ReplicaId, Seq<(Key, usize)>>,
    /// The answer is full: the lines that follow are not looked at.
    pub stopped: bool,
}

/// One line of a digest. A replica that is not known gets an empty list. A
/// list that is longer than the asker says of itself is emptied. Of a list
/// that is longer than the asker knows of another replica, the keys from the
/// asker's count on go into the answer, as far as the cap allows.
pub open spec fn scan_step(s: Scan, sender: ReplicaId, pair: DigestPair) -> Scan {
    let r = pair.replica_id;
    if s.stopped {
        s
    } else if !s.index.contains_key(r) {
        Scan { index: s.index.insert(r, Seq::empty()), ..s }
    } else if s.index[r].len() <= pair.keys {
        s
    } else if r == sender {
        Scan { index: s.index.insert(r, Seq::empty()), ..s }
    } else if s.keys.len() >= UPDATE_CAP {
        Scan { stopped: true, ..s }
    } else {
        let list = s.index[r];
        let from = pair.keys as int;
        Scan {
            keys: keys_through(list, from, s.keys),
            replica_keys: s.replica_keys.insert(r, taken(list, from, stop_at(list, from, s.keys))),
            ..s
        }
    }
}

/// The lines of a digest, one after the other.
pub open spec fn scanned(
    index: Map<ReplicaId, Seq<Key>>,
    sender: ReplicaId,
    digest: Seq<DigestPair>,
) -> Scan
    decreases digest.len(),
{
    if digest.len() == 0 {
        Scan { index, keys: Set::empty(), replica_keys: Map::empty(), stopped: false }
    } else {
        scan_step(scanned(index, sender, digest.drop_last()), sender, digest.last())
    }
}

/// `pairs` holds, once each, the keys of `keys` that the store has, each with
/// its value.
pub open spec fn resolves(pairs: Seq<KVPair>, keys: Set<Key>, store: Map<Key, Seq<char>>) -> bool {
    &&& forall|i: int, j: int|
        0 <= i < j < pairs.len() ==> (#[trigger] pairs[i]).key != (#[trigger] pairs[j]).key
    &&& forall|i: int|
        0 <= i < pairs.len() ==> {
            &&& keys.contains((#[trigger] pairs[i]).key)
            &&& store.contains_key(pairs[i].key)
            &&& pairs[i].value@ == store[pairs[i].key]
        }
    &&& forall|k: Key|
        keys.contains(k) && store.contains_key(k) ==> exists|i: int|
            0 <= i < pairs.len() && (#[trigger] pairs[i]).key == k
}

/// `body` is the answer that the scan `scan` gives over the store `store`.
pub open spec fn answers(
    body: UpdateMessage,
    scan: Scan,
    store: Map<Key, Seq<char>>,
    sending_rate: u64,
) -> bool {
    &&& body.sending_rate == sending_rate
    &&& body.replica_keys@.dom() == scan.replica_keys.dom()
    &&& forall|r: ReplicaId| #[trigger]
        scan.replica_keys.contains_key(r) ==> body.replica_keys@[r]@ == scan.replica_keys[r]
    &&& resolves(body.key_values@, scan.keys, store)
    &&& body.key_values@.len() <= UPDATE_CAP
}

/// `digest` tells of `index`: one line for every replica, with the length of
/// its list.
pub open spec fn is_digest_of(digest: Seq<DigestPair>, index: Map<ReplicaId, Seq<Key>>) -> bool {
    &&& index.dom().finite()
    &&& digest.len() == index.dom().len()
    &&& forall|i: int, j: int|
        0 <= i < j < digest.len() ==> (#[trigger] digest[i]).replica_id != (
        #[trigger] digest[j]).replica_id
    &&& forall|i: int|
        0 <= i < digest.len() ==> index.contains_key((#[trigger] digest[i]).replica_id)
            && digest[i].keys == index[digest[i].replica_id].len()
    &&& forall|r: ReplicaId| #[trigger]
        index.contains_key(r) ==> exists|i: int|
            0 <= i < digest.len() && (#[trigger] digest[i]).replica_id == r
}

/// A walk adds keys only below the cap.
pub proof fn lemma_keys_through(list: Seq<Key>, from: int, keys: Set<Key>)
    requires
        keys.finite(),
        keys.len() <= UPDATE_CAP,
        0 <= from,
    ensures
        keys_through(list, from, keys).finite(),
        keys_through(list, from, keys).len() <= UPDATE_CAP,
        keys.subset_of(keys_through(list, from, keys)),
        from <= stop_at(list, from, keys),
        from <= list.len() ==> stop_at(list, from, keys) <= list.len(),
    decreases list.len() - from,
{
    if from >= list.len() || keys.len() >= UPDATE_CAP {
    } else {
        lemma_keys_through(list, from + 1, keys.insert(list[from]));
    }
}

/// No answer carries more keys than the cap.
pub proof fn lemma_scan_cap(
    index: Map<ReplicaId, Seq<Key>>,
    sender: ReplicaId,
    digest: Seq<DigestPair>,
)
    ensures
        scanned(index, sender, digest).keys.finite(),
        scanned(index, sender, digest).keys.len() <= UPDATE_CAP,
    decreases digest.len(),
{
    if digest.len() > 0 {
        lemma_scan_cap(index, sender, digest.drop_last());
        let s = scanned(index, sender, digest.drop_last());
        let pair = digest.last();
        if s.index.contains_key(pair.replica_id) {
            lemma_keys_through(s.index[pair.replica_id], pair.keys as int, s.keys);
        }
    }
}

/// Once an answer is full, further lines change nothing.
pub proof fn lemma_scan_stopped(
    index: Map<ReplicaId, Seq<Key>>,
    sender: ReplicaId,
    digest: Seq<DigestPair>,
    n: int,
)
    requires
        0 <= n <= digest.len(),
        scanned(index, sender, digest.take(n)).stopped,
    ensures
        scanned(index, sender, digest) == scanned(index, sender, digest.take(n)),
    decreases digest.len() - n,
{
    if n == digest.len() {
        assert(digest.take(n) =~= digest);
    } else {
        assert(digest.take(n + 1).drop_last() =~= digest.take(n));
        lemma_scan_stopped(index, sender, digest, n + 1);
    }
}

/// The lists of a map of vectors.
pub open spec fn list_views(m: Map<ReplicaId, Vec<(Key, usize)>>) -> Map<
    ReplicaId,
    Seq<(Key, usize)>,
> {
    m.map_values(|v: Vec<(Key, usize)>| v@)
}

/// The digest of `map`.
pub fn create_digest(map: &LockFreeMap<Vec<Key>>) -> (digest: Vec<DigestPair>)
    ensures
        is_digest_of(digest@, map@),
{
    let ids = map.keys();
    let mut digest: Vec<DigestPair> = Vec::new();
    let mut i: usize = 0;
    while i < ids.len()
        invariant
            i <= ids.len(),
            digest.len() == i,
            ids@.no_duplicates(),
            ids@.to_set() == map@.dom(),
            forall|j: int| 0 <= j < i ==> (#[trigger] digest[j]).replica_id == ids[j],
            forall|j: int| 0 <= j < i ==> (#[trigger] digest[j]).keys == map@[ids[j]].len(),
        decreases ids.len() - i,
    {
        let id: ReplicaId = ids[i];
        assert(ids@.to_set().contains(ids@[i as int]));
        match map.get(id) {
            Some(list) => {
                digest.push(DigestPair { replica_id: id, keys: list.len() });
            },
            None => {},
        }
        i = i + 1;
    }
    assert forall|j: int| 0 <= j < digest.len() implies map@.contains_key(
        (#[trigger] digest[j]).replica_id,
    ) by {
        assert(ids@.to_set().contains(ids@[j]));
    }
    assert forall|r: ReplicaId| #[trigger] map@.contains_key(r) implies exists|j: int|
        0 <= j < digest.len() && (#[trigger] digest[j]).replica_id == r by {
        assert(ids@.to_set().contains(r));
        let j = choose|j: int| 0 <= j < ids@.len() && ids@[j] == r;
        assert(digest[j].replica_id == r);
    }
    digest
}

impl Replica {
    /// The digest of this replica's index.
    pub fn digest(&self) -> (digest: Vec<DigestPair>)
        ensures
            is_digest_of(digest@, self@.index),
    {
        create_digest(self.index())
    }

    /// The values of the keys `order`, as far as the store has them.
    fn resolve(&self, order: &Vec<Key>) -> (pairs: Vec<KVPair>)
        requires
            order@.no_duplicates(),
        ensures
            resolves(pairs@, order@.to_set(), self@.store),
            pairs@.len() <= order@.len(),
    {
        let mut pairs: Vec<KVPair> = Vec::new();
        let ghost mut source: Seq<int> = Seq::empty();
        let mut i: usize = 0;
        while i < order.len()
            invariant
                i <= order.len(),
                order@.no_duplicates(),
                source.len() == pairs.len(),
                pairs.len() <= i,
                forall|j: int|
                    0 <= j < pairs.len() ==> 0 <= #[trigger] source[j] < i && order[source[j]]
                        == pairs[j].key,
                forall|j: int, k: int| 0 <= j < k < pairs.len() ==> source[j] < source[k],
                forall|j: int|
                    0 <= j < pairs.len() ==> self@.store.contains_key((#[trigger] pairs[j]).key)
                        && pairs[j].value@ == self@.store[pairs[j].key],
                forall|m: int|
                    0 <= m < i && self@.store.contains_key(#[trigger] order[m]) ==> exists|j: int|
                        0 <= j < pairs.len() && (#[trigger] pairs[j]).key == order[m],
            decreases order.len() - i,
        {
            let key: Key = order[i];
            let ghost before = pairs@;
            match self.value(key) {
                Some(value) => {
                    pairs.push(KVPair { key, value: (*value).clone() });
                    proof {
                        source = source.push(i as int);
                        assert(pairs@[before.len() as int].key == order[i as int]);
                    }
                },
                None => {},
            }
            assert forall|m: int|
                0 <= m < i + 1 && self@.store.contains_key(#[trigger] order[m]) implies exists|
                j: int,
            |
                0 <= j < pairs.len() && (#[trigger] pairs[j]).key == order[m] by {
                if m < i {
                    let j = choose|j: int|
                        0 <= j < before.len() && (#[trigger] before[j]).key == order[m];
                    assert(pairs[j].key == order[m]);
                } else {
                    assert(pairs[before.len() as int].key == order[m]);
                }
            }
            i = i + 1;
        }
        proof {
            assert forall|j: int, k: int| 0 <= j < k < pairs.len() implies (#[trigger] pairs[j]).key != (
            #[trigger] pairs[k]).key by {
                assert(source[j] < source[k]);
                assert(order[source[j]] != order[source[k]]);
            }
            assert forall|j: int| 0 <= j < pairs.len() implies order@.to_set().contains(
                (#[trigger] pairs[j]).key,
            ) by {
                assert(order@[source[j]] == pairs[j].key);
            }
            assert forall|k: Key|
                order@.to_set().contains(k) && self@.store.contains_key(k) implies exists|i: int|
                0 <= i < pairs.len() && (#[trigger] pairs[i]).key == k by {
                let m = choose|m: int| 0 <= m < order@.len() && order@[m] == k;
                assert(self@.store.contains_key(order[m]));
            }
        }
        pairs
    }

    /// Answers a digest whose lines are taken in the order given: brings the
    /// index up to date with what the digest says and returns the update for
    /// the replica `sender` that sent it.
    pub fn answer_digest(
        &mut self,
        sender: ReplicaId,
        digest: &Vec<DigestPair>,
        sending_rate: u64,
    ) -> (body: UpdateMessage)
        requires
            old(self).wf(),
        ensures
            final(self).wf(),
            final(self)@.id == old(self)@.id,
            final(self)@.store == old(self)@.store,
            final(self)@.index == scanned(old(self)@.index, sender, digest@).index,
            answers(
                body,
                scanned(old(self)@.index, sender, digest@),
                old(self)@.store,
                sending_rate,
            ),
    {
        broadcast use vstd::std_specs::hash::group_hash_axioms;
        let mut keys: HashSet<Key> = HashSet::new();
        let mut order: Vec<Key> = Vec::new();
        let mut host_keys: HashMap<ReplicaId, Vec<(Key, usize)>> = HashMap::new();
        let mut stopped: bool = false;
        let mut n: usize = 0;
        let ghost start = self@.index;
        assert(digest@.take(0) =~= Seq::<DigestPair>::empty());
        assert(list_views(host_keys@) =~= Map::<ReplicaId, Seq<(Key, usize)>>::empty());
        while n < digest.len() && !stopped
            invariant
                n <= digest.len(),
                self.wf(),
                self@.id == old(self)@.id,
                self@.store == old(self)@.store,
                start == old(self)@.index,
                keys@.finite(),
                keys@.len() <= UPDATE_CAP,
                order@.no_duplicates(),
                order@.to_set() == keys@,
                order@.len() == keys@.len(),
                scanned(start, sender, digest@.take(n as int)) == (Scan {
                    index: self@.index,
                    keys: keys@,
                    replica_keys: list_views(host_keys@),
                    stopped,
                }),
            decreases digest.len() - n + (if stopped { 0int } else { 1int }),
        {
            let pair: DigestPair = digest[n];
            let ghost before = scanned(start, sender, digest@.take(n as int));
            assert(digest@.take(n + 1).drop_last() =~= digest@.take(n as int));
            assert(digest@.take(n + 1).last() == pair);
            let replica: ReplicaId = pair.replica_id;
            match self.list(replica) {
                None => {
                    self.set_list(replica, Vec::new());
                    n = n + 1;
                },
                Some(local) => {
                    let len: usize = local.len();
                    if len <= pair.keys {
                        n = n + 1;
                    } else if replica == sender {
                        self.set_list(replica, Vec::new());
                        n = n + 1;
                    } else if keys.len() >= UPDATE_CAP {
                        stopped = true;
                        n = n + 1;
                    } else {
                        let ghost keys0 = keys@;
                        let mut found: Vec<(Key, usize)> = Vec::new();
                        let mut i: usize = pair.keys;
                        while i < len && keys.len() < UPDATE_CAP
                            invariant
                                pair.keys <= i <= len,
                                len == local@.len(),
                                keys@.finite(),
                                keys@.len() <= UPDATE_CAP,
                                order@.no_duplicates(),
                                order@.to_set() == keys@,
                                order@.len() == keys@.len(),
                                stop_at(local@, i as int, keys@) == stop_at(
                                    local@,
                                    pair.keys as int,
                                    keys0,
                                ),
                                keys_through(local@, i as int, keys@) == keys_through(
                                    local@,
                                    pair.keys as int,
                                    keys0,
                                ),
                                found@ == taken(local@, pair.keys as int, i as int),
                            decreases len - i,
                        {
                            let key: Key = local[i];
                            let ghost old_order = order@;
                            if keys.insert(key) {
                                order.push(key);
                                proof {
                                    old_order.lemma_push_to_set_commute(key);
                                }
                            } else {
                                assert(keys@ =~= old_order.to_set());
                            }
                            found.push((key, i));
                            i = i + 1;
                            assert(found@ =~= taken(local@, pair.keys as int, i as int));
                        }
                        host_keys.insert(replica, found);
                        assert(list_views(host_keys@) =~= before.replica_keys.insert(
                            replica,
                            found@,
                        ));
                        n = n + 1;
                    }
                },
            }
        }
        proof {
            if stopped {
                lemma_scan_stopped(start, sender, digest@, n as int);
            } else {
                assert(digest@.take(n as int) =~= digest@);
            }
        }
        let key_values = self.resolve(&order);
        let body = UpdateMessage { sending_rate, replica_keys: host_keys, key_values };
        proof {
            let scan = scanned(start, sender, digest@);
            assert(body.replica_keys@.dom() =~= scan.replica_keys.dom());
        }
        body
    }
}

/// Trusted: `rand::seq::SliceRandom::shuffle`, with the generator that
/// `rand::thread_rng` hands out. The lines are the same afterwards, in an
/// order of which nothing is known.
#[verifier::external_body]
fn shuffle_lines(lines: &mut Vec<DigestPair>)
    ensures
        final(lines)@.to_multiset() == old(lines)@.to_multiset(),
{
    rand::seq::SliceRandom::shuffle(lines.as_mut_slice(), &mut rand::thread_rng())
}

/// Trusted: `rand::seq::SliceRandom::choose`, with the generator that
/// `rand::thread_rng` hands out. One of the peers, unless there is none.
#[verifier::external_body]
fn pick_peer(peers: &Vec<ReplicaId>) -> (picked: Option<ReplicaId>)
    ensures
        peers@.len() == 0 ==> picked is None,
        peers@.len() > 0 ==> picked is Some && peers@.contains(picked->0),
{
    rand::seq::SliceRandom::choose(peers.as_slice(), &mut rand::thread_rng()).copied()
}

/// The list `local` of a replica once the keys `list` that a peer tells of it
/// are merged in, one after the other: a key whose position lies at or beyond
/// the end of the list is appended, any other is passed over.
pub open spec fn extended(local: Seq<Key>, list: Seq<(Key, usize)>) -> Seq<Key>
    decreases list.len(),
{
    if list.len() == 0 {
        local
    } else {
        let prior = extended(local, list.drop_last());
        if list.last().1 >= prior.len() {
            prior.push(list.last().0)
        } else {
            prior
        }
    }
}

/// The keys of `list`, without their positions.
pub open spec fn keys_of(list: Seq<(Key, usize)>) -> Seq<Key> {
    Seq::new(list.len(), |j: int| list[j].0)
}

/// The state after the pairs `pairs` were seen, one after the other.
pub open spec fn absorbed(s: ReplicaState, pairs: Seq<KVPair>) -> ReplicaState
    decreases pairs.len(),
{
    if pairs.len() == 0 {
        s
    } else {
        observed(absorbed(s, pairs.drop_last()), pairs.last().key, pairs.last().value@)
    }
}

/// The pairs of `pairs` that are seen for the first time when all are seen
/// one after the other in state `s`.
pub open spec fn first_seen(s: ReplicaState, pairs: Seq<KVPair>) -> Seq<(Key, Seq<char>)>
    decreases pairs.len(),
{
    if pairs.len() == 0 {
        Seq::empty()
    } else {
        let prior = first_seen(s, pairs.drop_last());
        if absorbed(s, pairs.drop_last()).store.contains_key(pairs.last().key) {
            prior
        } else {
            prior.push(pairs.last()@)
        }
    }
}

/// The index once what a peer tells of other replicas is merged in. What it
/// tells of this replica itself is passed over. A replica that was not known
/// gets the keys that the peer tells of it.
pub open spec fn merged(
    index: Map<ReplicaId, Seq<Key>>,
    own: ReplicaId,
    told: Map<ReplicaId, Seq<(Key, usize)>>,
) -> Map<ReplicaId, Seq<Key>> {
    Map::new(
        |r: ReplicaId| index.contains_key(r) || (told.contains_key(r) && r != own),
        |r: ReplicaId|
            if told.contains_key(r) && r != own {
                if index.contains_key(r) {
                    extended(index[r], told[r])
                } else {
                    keys_of(told[r])
                }
            } else {
                index[r]
            },
    )
}

/// The state after an update: first its values are seen, then what it tells
/// of other replicas is merged into the index.
pub open spec fn updated(s: ReplicaState, update: UpdateMessage) -> ReplicaState {
    let a = absorbed(s, update.key_values@);
    ReplicaState {
        id: a.id,
        store: a.store,
        index: merged(a.index, a.id, list_views(update.replica_keys@)),
    }
}

/// `commits` are the commits for `seen`, all made at time `now`.
pub open spec fn commits_for(
    commits: Seq<Commit>,
    seen: Seq<(Key, Seq<char>)>,
    now: u128,
) -> bool {
    &&& commits.len() == seen.len()
    &&& forall|i: int|
        0 <= i < commits.len() ==> (#[trigger] commits[i]).key == seen[i].0 && commits[i].value@
            == seen[i].1 && commits[i].timestamp == now
}

/// What a digest does: `after` and `reply` are the state and the reply of
/// handling the digest `digest` of the replica `sender` in state `before`.
/// The lines of the digest are scanned in some order, and the reply is the
/// update that the scan gives.
pub open spec fn digest_handled(
    before: ReplicaState,
    sender: ReplicaId,
    digest: Seq<DigestPair>,
    sending_rate: u64,
    after: ReplicaState,
    reply: Message,
) -> bool {
    &&& after.id == before.id
    &&& after.store == before.store
    &&& exists|lines: Seq<DigestPair>|
        {
            &&& #[trigger] lines.to_multiset() == digest.to_multiset()
            &&& after.index == scanned(before.index, sender, lines).index
            &&& reply matches Message::UpdateMessage(from, body)
            &&& from == before.id
            &&& answers(body, scanned(before.index, sender, lines), before.store, sending_rate)
        }
}

/// What a message from a peer calls for.
pub enum PeerAction {
    /// Send the message to the replica `to`, over a new connection.
    Answer { to: ReplicaId, message: Message },
    /// Hand the commits to the log.
    Log(Vec<Commit>),
    /// Send the message back on the connection on which the peer's came.
    Refuse(Message),
}

/// What a message from a peer does: `after` and `action` are the state and
/// what is called for after handling `message` at time `now` in state
/// `before`. A digest is answered with an update for its sender, an update
/// is taken up, and any other message is refused and changes nothing.
pub open spec fn peer_handled(
    before: ReplicaState,
    message: Message,
    sending_rate: u64,
    now: u128,
    after: ReplicaState,
    action: PeerAction,
) -> bool {
    match message {
        Message::DigestMessage(sender, digest) => {
            &&& action matches PeerAction::Answer { to, message: reply }
            &&& to == sender
            &&& digest_handled(before, sender, digest@, sending_rate, after, reply)
        },
        Message::UpdateMessage(_, update) => {
            &&& action matches PeerAction::Log(commits)
            &&& after == updated(before, update)
            &&& commits_for(commits@, first_seen(before, update.key_values@), now)
        },
        _ => {
            &&& after == before
            &&& action matches PeerAction::Refuse(Message::Error(text))
            &&& text@ == "Invalid Message Sent."@
        },
    }
}

impl Replica {
    /// Handles a digest from the replica `sender`: shuffles its lines, so
    /// that none is starved by the cap, brings the index up to date and
    /// returns the update to send back to `sender`.
    pub fn handle_digest(
        &mut self,
        sender: ReplicaId,
        digest: Vec<DigestPair>,
        sending_rate: u64,
    ) -> (reply: Message)
        requires
            old(self).wf(),
        ensures
            final(self).wf(),
            digest_handled(old(self)@, sender, digest@, sending_rate, final(self)@, reply),
    {
        let mut lines = digest;
        shuffle_lines(&mut lines);
        let body = self.answer_digest(sender, &lines, sending_rate);
        Message::UpdateMessage(self.id(), body)
    }

    /// Handles a message that a peer sent at time `now`.
    pub fn handle_peer(&mut self, message: Message, sending_rate: u64, now: u128) -> (action:
        PeerAction)
        requires
            old(self).wf(),
        ensures
            final(self).wf(),
            peer_handled(old(self)@, message, sending_rate, now, final(self)@, action),
    {
        match message {
            Message::DigestMessage(sender, digest) => {
                let reply = self.handle_digest(sender, digest, sending_rate);
                PeerAction::Answer { to: sender, message: reply }
            },
            Message::UpdateMessage(_, update) => {
                let commits = self.handle_update(&update, now);
                PeerAction::Log(commits)
            },
            _ => PeerAction::Refuse(Message::Error("Invalid Message Sent.".to_string())),
        }
    }

    /// The peer to gossip with next, picked at random among the replicas of
    /// the index other than this one, and the digest to send it.
    pub fn gossip(&self) -> (round: Option<(ReplicaId, Message)>)
        ensures
            round is None <==> (forall|r: ReplicaId|
                self@.index.contains_key(r) ==> r == self@.id),
            round matches Some((peer, message)) ==> {
                &&& peer != self@.id
                &&& self@.index.contains_key(peer)
                &&& message matches Message::DigestMessage(from, digest)
                &&& from == self@.id
                &&& is_digest_of(digest@, self@.index)
            },
    {
        let ids = self.index().keys();
        let own: ReplicaId = self.id();
        let mut peers: Vec<ReplicaId> = Vec::new();
        let mut i: usize = 0;
        while i < ids.len()
            invariant
                i <= ids.len(),
                forall|j: int|
                    0 <= j < peers.len() ==> #[trigger] peers[j] != own && ids@.contains(peers[j]),
                forall|j: int| 0 <= j < i && ids[j] != own ==> peers@.contains(#[trigger] ids[j]),
            decreases ids.len() - i,
        {
            let ghost before = peers@;
            if ids[i] != own {
                peers.push(ids[i]);
                assert(peers@[before.len() as int] == ids[i as int]);
            }
            assert forall|j: int| 0 <= j < i + 1 && ids[j] != own implies peers@.contains(
                #[trigger] ids[j],
            ) by {
                if j < i {
                    let m = choose|m: int| 0 <= m < before.len() && before[m] == ids[j];
                    assert(peers@[m] == ids[j]);
                }
            }
            i = i + 1;
        }
        match pick_peer(&peers) {
            None => {
                assert forall|r: ReplicaId| self@.index.contains_key(r) implies r == self@.id by {
                    if r != self@.id {
                        assert(ids@.to_set().contains(r));
                        let j = choose|j: int| 0 <= j < ids@.len() && ids@[j] == r;
                        assert(peers@.contains(ids[j]));
                    }
                }
                None
            },
            Some(peer) => {
                assert(ids@.to_set().contains(peer));
                Some((peer, Message::DigestMessage(own, self.digest())))
            },
        }
    }

    /// Handles an update at time `now`: takes up the values it carries,
    /// merges what it tells of other replicas into the index, and returns the
    /// commits for the values that were new.
    pub fn handle_update(&mut self, update: &UpdateMessage, now: u128) -> (commits: Vec<Commit>)
        requires
            old(self).wf(),
        ensures
            final(self).wf(),
            final(self)@ == updated(old(self)@, *update),
            commits_for(commits@, first_seen(old(self)@, update.key_values@), now),
    {
        broadcast use vstd::std_specs::hash::group_hash_axioms;
        let mut commits: Vec<Commit> = Vec::new();
        let mut n: usize = 0;
        assert(update.key_values@.take(0) =~= Seq::<KVPair>::empty());
        while n < update.key_values.len()
            invariant
                n <= update.key_values.len(),
                self.wf(),
                self@ == absorbed(old(self)@, update.key_values@.take(n as int)),
                commits_for(
                    commits@,
                    first_seen(old(self)@, update.key_values@.take(n as int)),
                    now,
                ),
            decreases update.key_values.len() - n,
        {
            let pair = &update.key_values[n];
            assert(update.key_values@.take(n + 1).drop_last() =~= update.key_values@.take(
                n as int,
            ));
            assert(update.key_values@.take(n + 1).last() == *pair);
            match self.observe(pair.key, Arc::new(pair.value.clone()), now) {
                Some(commit) => {
                    commits.push(commit);
                },
                None => {},
            }
            n = n + 1;
        }
        assert(update.key_values@.take(n as int) =~= update.key_values@);
        let ghost a = self@;
        let ghost told = list_views(update.replica_keys@);
        for line in it: update.replica_keys.iter()
            invariant
                self.wf(),
                self@.id == a.id,
                self@.store == a.store,
                told == list_views(update.replica_keys@),
                it.seq().no_duplicates(),
                forall|j: int|
                    0 <= j < it.seq().len() ==> update.replica_keys@.contains_key(
                        *(#[trigger] it.seq()[j]).0,
                    ) && update.replica_keys@[*it.seq()[j].0] == *it.seq()[j].1,
                forall|r: ReplicaId|
                    update.replica_keys@.contains_key(r) ==> exists|j: int|
                        0 <= j < it.seq().len() && *(#[trigger] it.seq()[j]).0 == r,
                forall|r: ReplicaId| #[trigger]
                    self@.index.contains_key(r) <==> a.index.contains_key(r) || (r != a.id && exists|
                        j: int,
                    |
                        0 <= j < it.index() && *(#[trigger] it.seq()[j]).0 == r),
                forall|r: ReplicaId| #[trigger]
                    self@.index.contains_key(r) ==> self@.index[r] == if r != a.id && exists|j: int|
                        0 <= j < it.index() && *(#[trigger] it.seq()[j]).0 == r {
                        merged(a.index, a.id, told)[r]
                    } else {
                        a.index[r]
                    },
        {
            let (replica, list) = line;
            let ghost at = it.index();
            assert(*it.seq()[at].0 == *replica);
            assert(told[*replica] == list@);
            if *replica != self.id() {
                let held = self.list(*replica);
                let known: bool = held.is_some();
                let mut longer: Vec<Key> = match held {
                    Some(local) => (*local).clone(),
                    None => Vec::new(),
                };
                let ghost local = longer@;
                let mut i: usize = 0;
                assert(list@.take(0) =~= Seq::<(Key, usize)>::empty());
                while i < list.len()
                    invariant
                        i <= list.len(),
                        known ==> longer@ == extended(local, list@.take(i as int)),
                        !known ==> longer@ == keys_of(list@.take(i as int)),
                    decreases list.len() - i,
                {
                    let (key, position) = list[i];
                    assert(list@.take(i + 1).drop_last() =~= list@.take(i as int));
                    assert(list@.take(i + 1).last() == list@[i as int]);
                    if !known || position >= longer.len() {
                        longer.push(key);
                    }
                    i = i + 1;
                    assert(!known ==> longer@ =~= keys_of(list@.take(i as int)));
                }
                assert(list@.take(i as int) =~= list@);
                self.set_list(*replica, longer);
            }
        }
        assert(self@.index =~= merged(a.index, a.id, told));
        commits
    }
}

/// One exchange: the asker sends the digest `lines` of its index, the
/// answerer scans it and answers with `body`, and the asker takes the
/// answer up.
pub open spec fn exchanged(
    asker: ReplicaState,
    answerer: ReplicaState,
    lines: Seq<DigestPair>,
    body: UpdateMessage,
    sending_rate: u64,
    asker_after: ReplicaState,
    answerer_after: ReplicaState,
) -> bool {
    let scan = scanned(answerer.index, asker.id, lines);
    &&& is_digest_of(lines, asker.index)
    &&& answers(body, scan, answerer.store, sending_rate)
    &&& answerer_after == (ReplicaState {
        id: answerer.id,
        store: answerer.store,
        index: scan.index,
    })
    &&& asker_after == updated(asker, body)
}

/// One replica asks another, and takes the answer up.
pub open spec fn exchange(
    asker: ReplicaState,
    answerer: ReplicaState,
    asker_after: ReplicaState,
    answerer_after: ReplicaState,
) -> bool {
    exists|lines: Seq<DigestPair>, body: UpdateMessage, sending_rate: u64| #[trigger]
        exchanged(asker, answerer, lines, body, sending_rate, asker_after, answerer_after)
}

/// A digest whose lines were put in another order is a digest still.
pub proof fn lemma_shuffled_digest(
    digest: Seq<DigestPair>,
    lines: Seq<DigestPair>,
    index: Map<ReplicaId, Seq<Key>>,
)
    requires
        is_digest_of(digest, index),
        lines.to_multiset() == digest.to_multiset(),
    ensures
        is_digest_of(lines, index),
{
    vstd::seq_lib::to_multiset_len(digest);
    vstd::seq_lib::to_multiset_len(lines);
    assert(digest.no_duplicates()) by {
        assert forall|i: int, j: int| 0 <= i < digest.len() && 0 <= j < digest.len() && i != j implies digest[i]
            != digest[j] by {
            if i < j {
                assert(digest[i].replica_id != digest[j].replica_id);
            } else {
                assert(digest[j].replica_id != digest[i].replica_id);
            }
        }
    }
    digest.lemma_multiset_has_no_duplicates();
    lines.lemma_multiset_has_no_duplicates_conv();
    assert forall|i: int| 0 <= i < lines.len() implies digest.contains(#[trigger] lines[i]) by {
        vstd::seq_lib::to_multiset_contains(lines, lines[i]);
        vstd::seq_lib::to_multiset_contains(digest, lines[i]);
        assert(lines.contains(lines[i]));
    }
    assert forall|i: int| 0 <= i < lines.len() implies index.contains_key(
        (#[trigger] lines[i]).replica_id,
    ) && lines[i].keys == index[lines[i].replica_id].len() by {
        assert(digest.contains(lines[i]));
        let p = choose|p: int| 0 <= p < digest.len() && digest[p] == lines[i];
        assert(index.contains_key(digest[p].replica_id));
    }
    assert forall|i: int, j: int| 0 <= i < j < lines.len() implies (#[trigger] lines[i]).replica_id != (
    #[trigger] lines[j]).replica_id by {
        assert(digest.contains(lines[i]));
        assert(digest.contains(lines[j]));
        let p = choose|p: int| 0 <= p < digest.len() && digest[p] == lines[i];
        let q = choose|q: int| 0 <= q < digest.len() && digest[q] == lines[j];
        assert(lines[i] != lines[j]);
        if p < q {
            assert(digest[p].replica_id != digest[q].replica_id);
        } else if q < p {
            assert(digest[q].replica_id != digest[p].replica_id);
        }
    }
    assert forall|r: ReplicaId| #[trigger] index.contains_key(r) implies exists|i: int|
        0 <= i < lines.len() && (#[trigger] lines[i]).replica_id == r by {
        let p = choose|p: int| 0 <= p < digest.len() && (#[trigger] digest[p]).replica_id == r;
        vstd::seq_lib::to_multiset_contains(digest, digest[p]);
        vstd::seq_lib::to_multiset_contains(lines, digest[p]);
        assert(digest.contains(digest[p]));
        let i = choose|i: int| 0 <= i < lines.len() && lines[i] == digest[p];
        assert(lines[i].replica_id == r);
    }
}

impl Replica {
    /// Asks `peer` for what this replica lacks and takes the answer up at
    /// time `now`: one exchange, with no network between the two. Returns
    /// the commits for the values that were new.
    pub fn ask(&mut self, peer: &mut Replica, sending_rate: u64, now: u128) -> (commits: Vec<Commit>)
        requires
            old(self).wf(),
            old(peer).wf(),
        ensures
            final(self).wf(),
            final(peer).wf(),
            exchange(old(self)@, old(peer)@, final(self)@, final(peer)@),
            exists|lines: Seq<DigestPair>, body: UpdateMessage|
                {
                    &&& #[trigger] exchanged(
                        old(self)@,
                        old(peer)@,
                        lines,
                        body,
                        sending_rate,
                        final(self)@,
                        final(peer)@,
                    )
                    &&& commits_for(commits@, first_seen(old(self)@, body.key_values@), now)
                },
    {
        let digest = self.digest();
        let ghost told = digest@;
        let reply = peer.handle_digest(self.id(), digest, sending_rate);
        assert(reply is UpdateMessage);
        match reply {
            Message::UpdateMessage(_, body) => {
                let commits = self.handle_update(&body, now);
                proof {
                    let lines = choose|lines: Seq<DigestPair>|
                        {
                            &&& #[trigger] lines.to_multiset() == told.to_multiset()
                            &&& peer@.index == scanned(
                                old(peer)@.index,
                                old(self)@.id,
                                lines,
                            ).index
                            &&& reply matches Message::UpdateMessage(from, body)
                            &&& from == old(peer)@.id
                            &&& answers(
                                body,
                                scanned(old(peer)@.index, old(self)@.id, lines),
                                old(peer)@.store,
                                sending_rate,
                            )
                        };
                    lemma_shuffled_digest(told, lines, old(self)@.index);
                    assert(exchanged(
                        old(self)@,
                        old(peer)@,
                        lines,
                        body,
                        sending_rate,
                        self@,
                        peer@,
                    ));
                }
                commits
            },
            _ => Vec::new(),
        }
    }
}

} // verus!
