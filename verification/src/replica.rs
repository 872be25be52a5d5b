//! The state of one replica and what the requests of clients do to it.
//!
//! A replica holds the store, a map from fingerprint to value out of which
//! no key is ever taken, and the replica index, which records for every
//! replica it has heard of the keys that replica is known to hold, in the
//! order in which it took them up. Every function that handles a message is
//! one step of a state machine: it takes the message, changes the state, and
//! returns what is to be sent or logged. Receiving, sending and logging are
//! the caller's.

use crate::address::{socket_of, socket_text};
use crate::hashing::{fingerprint, fingerprint_of};
use crate::map::LockFreeMap;
use crate::messages::{ClusterNode, FoundValue, KVPair, Key, Message, ReplicaId};
use std::sync::Arc;
use vstd::prelude::*;
use vstd::utf8::encode_utf8;

verus! {

/// A first observation of a value, to be appended to the commit log.
/// `timestamp` counts the nanoseconds since the Unix epoch at which the value
/// was taken up.
#[derive(Debug)]
pub struct Commit {
    pub key: u64,
    pub value: Arc<String>,
    pub timestamp: u128,
}

/// What a replica holds.
pub struct ReplicaState {
    pub id: ReplicaId,
    pub store: Map<Key, Seq<char>>,
    pub index: Map<ReplicaId, Seq<Key>>,
}

/// A replica.
pub struct Replica {
    id: ReplicaId,
    store: LockFreeMap<String>,
    index: LockFreeMap<Vec<Key>>,
}

/// What is to be done after a request, in this order: a reply to send on the
/// connection, a commit to hand to the log, and whether to close the
/// connection.
pub struct Outcome {
    pub reply: Option<Message>,
    pub commit: Option<Commit>,
    pub close: bool,
}

/// The state after the value `value` was seen under `key`. A key that is
/// known keeps the value that is stored under it, whatever value is seen:
/// nothing changes. A key that is not known is stored with the value and
/// appended to the replica's own list.
pub open spec fn observed(s: ReplicaState, key: Key, value: Seq<char>) -> ReplicaState {
    if s.store.contains_key(key) {
        s
    } else {
        ReplicaState {
            id: s.id,
            store: s.store.insert(key, value),
            index: s.index.insert(s.id, s.index[s.id].push(key)),
        }
    }
}

/// `pairs` lists the store, which holds finitely many keys: every key once,
/// each with its value.
pub open spec fn is_dump_of(pairs: Seq<KVPair>, store: Map<Key, Seq<char>>) -> bool {
    &&& store.dom().finite()
    &&& pairs.len() == store.dom().len()
    &&& forall|k: Key| #[trigger]
        store.contains_key(k) ==> exists|i: int|
            0 <= i < pairs.len() && (#[trigger] pairs[i]).key == k
    &&& forall|i: int, j: int|
        0 <= i < j < pairs.len() ==> (#[trigger] pairs[i]).key != (#[trigger] pairs[j]).key
    &&& forall|i: int|
        0 <= i < pairs.len() ==> store.contains_key((#[trigger] pairs[i]).key) && pairs[i].value@
            == store[pairs[i].key]
}

/// `nodes` lists the replicas `ids`: every one once, written as `ip:port`.
pub open spec fn is_cluster_of(nodes: Seq<ClusterNode>, ids: Set<ReplicaId>) -> bool {
    exists|order: Seq<ReplicaId>|
        {
            &&& order.no_duplicates()
            &&& order.to_set() == ids
            &&& #[trigger] order.len() == nodes.len()
            &&& forall|i: int|
                0 <= i < nodes.len() ==> encode_utf8((#[trigger] nodes[i]).replica_id@)
                    == socket_of(order[i]).notation()
        }
}

/// What a request does: `after` and `out` are the state and the outcome of
/// handling `message` at time `now` in state `before`. A push under a key
/// that is known is answered with success and changes nothing: the value
/// that is stored under the key is kept, also where the value that was pushed
/// is another with the same fingerprint.
pub open spec fn request_handled(
    before: ReplicaState,
    message: Message,
    now: u128,
    after: ReplicaState,
    out: Outcome,
) -> bool {
    match message {
        Message::PushReq(pair) => {
            if pair.key != fingerprint_of(pair.value@) {
                &&& after == before
                &&& out.reply matches Some(Message::Error(text))
                &&& text@ == "Hash of value doesn't match."@
                &&& out.commit is None
                &&& !out.close
            } else {
                &&& after == observed(before, pair.key, pair.value@)
                &&& out.reply == Some(Message::PushResp { success: true })
                &&& (out.commit is Some) == !before.store.contains_key(pair.key)
                &&& out.commit matches Some(c) ==> c.key == pair.key && c.value@ == pair.value@
                    && c.timestamp == now
                &&& !out.close
            }
        },
        Message::RetrieveReq { key } => {
            &&& after == before
            &&& out.commit is None
            &&& !out.close
            &&& out.reply matches Some(Message::RetrieveResp { result })
            &&& if before.store.contains_key(key) {
                result matches FoundValue::Success { value } && value@ == before.store[key]
            } else {
                result is Failure
            }
        },
        Message::DumpReq => {
            &&& after == before
            &&& out.commit is None
            &&& !out.close
            &&& out.reply matches Some(Message::DumpResp(pairs))
            &&& is_dump_of(pairs@, before.store)
        },
        Message::DumpLenReq => {
            &&& after == before
            &&& out.commit is None
            &&& !out.close
            &&& before.store.dom().finite()
            &&& out.reply == Some(Message::DumpLenResp(before.store.dom().len() as usize))
        },
        Message::ClusterReq => {
            &&& after == before
            &&& out.commit is None
            &&& !out.close
            &&& out.reply matches Some(Message::ClusterResp(nodes))
            &&& is_cluster_of(nodes@, before.index.dom())
        },
        _ => {
            &&& after == before
            &&& out.reply is None
            &&& out.commit is None
            &&& out.close
        },
    }
}

impl View for Replica {
    type V = ReplicaState;

    closed spec fn view(&self) -> ReplicaState {
        ReplicaState { id: self.id, store: self.store@, index: self.index@ }
    }
}

impl Replica {
    /// A replica always has a list of its own in the index.
    pub open spec fn wf(&self) -> bool {
        self@.index.contains_key(self@.id)
    }

    /// The id of this replica.
    pub fn id(&self) -> (id: ReplicaId)
        ensures
            id == self@.id,
    {
        self.id
    }

    /// Whether the replica has a list of its own in the index, as every
    /// replica that this module hands out has.
    pub fn knows_itself(&self) -> (known: bool)
        ensures
            known == self.wf(),
    {
        self.index.get(self.id).is_some()
    }

    /// The keys that the replica `replica` is known to hold, in the order in
    /// which they were taken up, if the replica is known.
    pub fn known_keys(&self, replica: ReplicaId) -> (keys: Option<Vec<Key>>)
        ensures
            (keys is Some) == self@.index.contains_key(replica),
            keys matches Some(list) ==> list@ == self@.index[replica],
    {
        match self.index.get(replica) {
            Some(list) => Some((*list).clone()),
            None => None,
        }
    }

    /// A replica that holds nothing and knows only itself.
    pub fn new(id: ReplicaId) -> (r: Replica)
        ensures
            r.wf(),
            r@.id == id,
            r@.store == Map::<Key, Seq<char>>::empty(),
            r@.index == Map::<ReplicaId, Seq<Key>>::empty().insert(id, Seq::<Key>::empty()),
    {
        let store = LockFreeMap::<String>::new();
        let mut index = LockFreeMap::<Vec<Key>>::new();
        index.insert(id, Arc::new(Vec::new()));
        Replica { id, store, index }
    }

    /// A replica with the given store, which knows itself, with the keys
    /// `own` in that order, and the replicas `neighbours`.
    pub(crate) fn assemble(
        id: ReplicaId,
        store: LockFreeMap<String>,
        own: Vec<Key>,
        neighbours: &Vec<ReplicaId>,
    ) -> (r: Replica)
        ensures
            r.wf(),
            r@.id == id,
            r@.store == store@,
            r@.index.dom() == neighbours@.to_set().insert(id),
            r@.index[id] == own@,
            forall|n: ReplicaId|
                r@.index.contains_key(n) && n != id ==> r@.index[n] == Seq::<Key>::empty(),
    {
        let mut index = LockFreeMap::<Vec<Key>>::new();
        let mut i: usize = 0;
        while i < neighbours.len()
            invariant
                i <= neighbours.len(),
                index@.dom() == neighbours@.take(i as int).to_set(),
                forall|n: ReplicaId| index@.contains_key(n) ==> index@[n] == Seq::<Key>::empty(),
            decreases neighbours.len() - i,
        {
            index.insert(neighbours[i], Arc::new(Vec::new()));
            proof {
                let before = neighbours@.take(i as int);
                before.lemma_push_to_set_commute(neighbours@[i as int]);
                assert(neighbours@.take(i + 1) =~= before.push(neighbours@[i as int]));
            }
            i = i + 1;
        }
        assert(neighbours@.take(i as int) =~= neighbours@);
        index.insert(id, Arc::new(own));
        Replica { id, store, index }
    }

    /// The store.
    pub(crate) fn store(&self) -> (store: &LockFreeMap<String>)
        ensures
            store@ == self@.store,
    {
        &self.store
    }

    /// The replica index.
    pub(crate) fn index(&self) -> (index: &LockFreeMap<Vec<Key>>)
        ensures
            index@ == self@.index,
    {
        &self.index
    }

    /// The value under `key`, if there is one.
    pub(crate) fn value(&self, key: Key) -> (found: Option<Arc<String>>)
        ensures
            (found is Some) == self@.store.contains_key(key),
            found matches Some(v) ==> v@ == self@.store[key],
    {
        self.store.get(key)
    }

    /// The list of the replica `replica`, if the replica is known.
    pub(crate) fn list(&self, replica: ReplicaId) -> (found: Option<Arc<Vec<Key>>>)
        ensures
            (found is Some) == self@.index.contains_key(replica),
            found matches Some(l) ==> l@ == self@.index[replica],
    {
        self.index.get(replica)
    }

    /// Makes `list` the list of the replica `replica`.
    pub(crate) fn set_list(&mut self, replica: ReplicaId, list: Vec<Key>)
        ensures
            final(self)@.id == old(self)@.id,
            final(self)@.store == old(self)@.store,
            final(self)@.index == old(self)@.index.insert(replica, list@),
    {
        self.index.insert(replica, Arc::new(list));
    }

    /// Appends `key` to the list of the replica `replica`, which is known.
    fn append(&mut self, replica: ReplicaId, key: Key)
        requires
            old(self)@.index.contains_key(replica),
        ensures
            final(self)@.id == old(self)@.id,
            final(self)@.store == old(self)@.store,
            final(self)@.index == old(self)@.index.insert(
                replica,
                old(self)@.index[replica].push(key),
            ),
    {
        match self.index.get(replica) {
            Some(list) => {
                let mut longer: Vec<Key> = (*list).clone();
                longer.push(key);
                self.set_list(replica, longer);
            },
            None => {},
        }
    }

    /// Takes up the value `value` under `key` unless the key is known, and
    /// returns the commit for a value that was taken up. The value under a
    /// key that is known stays as it is.
    pub fn observe(&mut self, key: Key, value: Arc<String>, now: u128) -> (commit: Option<Commit>)
        requires
            old(self).wf(),
        ensures
            final(self).wf(),
            final(self)@ == observed(old(self)@, key, value@),
            (commit is Some) == !old(self)@.store.contains_key(key),
            commit matches Some(c) ==> c.key == key && c.value@ == value@ && c.timestamp == now,
    {
        let logged = value.clone();
        if self.store.insert_new(key, value) {
            self.append(self.id, key);
            Some(Commit { key, value: logged, timestamp: now })
        } else {
            None
        }
    }

    /// The value under `key`.
    pub fn retrieve(&self, key: Key) -> (result: FoundValue)
        ensures
            if self@.store.contains_key(key) {
                result matches FoundValue::Success { value } && value@ == self@.store[key]
            } else {
                result is Failure
            },
    {
        match self.store.get(key) {
            Some(value) => FoundValue::Success { value: (*value).clone() },
            None => FoundValue::Failure,
        }
    }

    /// Every entry of the store.
    pub fn dump(&self) -> (pairs: Vec<KVPair>)
        ensures
            is_dump_of(pairs@, self@.store),
    {
        let keys = self.store.keys();
        let mut pairs: Vec<KVPair> = Vec::new();
        let mut i: usize = 0;
        while i < keys.len()
            invariant
                i <= keys.len(),
                pairs.len() == i,
                keys@.no_duplicates(),
                keys@.to_set() == self@.store.dom(),
                forall|j: int| 0 <= j < i ==> (#[trigger] pairs[j]).key == keys[j],
                forall|j: int|
                    0 <= j < i ==> (#[trigger] pairs[j]).value@ == self@.store[keys[j]],
            decreases keys.len() - i,
        {
            let key: Key = keys[i];
            assert(keys@.to_set().contains(keys@[i as int]));
            match self.store.get(key) {
                Some(value) => {
                    pairs.push(KVPair { key, value: (*value).clone() });
                },
                None => {},
            }
            i = i + 1;
        }
        assert forall|j: int| 0 <= j < pairs.len() implies self@.store.contains_key(
            (#[trigger] pairs[j]).key,
        ) by {
            assert(keys@.to_set().contains(keys@[j]));
        }
        assert forall|k: Key| #[trigger] self@.store.contains_key(k) implies exists|j: int|
            0 <= j < pairs.len() && (#[trigger] pairs[j]).key == k by {
            assert(keys@.to_set().contains(k));
            let j = choose|j: int| 0 <= j < keys@.len() && keys@[j] == k;
            assert(pairs[j].key == k);
        }
        pairs
    }

    /// The number of entries of the store, which are finitely many.
    pub fn dump_len(&self) -> (n: usize)
        ensures
            self@.store.dom().finite(),
            n == self@.store.dom().len(),
    {
        self.store.keys().len()
    }

    /// Every replica of the index, written as `ip:port`.
    pub fn cluster(&self) -> (nodes: Vec<ClusterNode>)
        ensures
            is_cluster_of(nodes@, self@.index.dom()),
    {
        let ids = self.index.keys();
        let mut nodes: Vec<ClusterNode> = Vec::new();
        let mut i: usize = 0;
        while i < ids.len()
            invariant
                i <= ids.len(),
                nodes.len() == i,
                forall|j: int|
                    0 <= j < i ==> encode_utf8((#[trigger] nodes[j]).replica_id@) == socket_of(
                        ids[j],
                    ).notation(),
            decreases ids.len() - i,
        {
            nodes.push(ClusterNode { replica_id: socket_text(ids[i]) });
            i = i + 1;
        }
        assert(ids@.len() == nodes@.len());
        nodes
    }

    /// Serves one request of a client at time `now`.
    pub fn handle_request(&mut self, message: Message, now: u128) -> (out: Outcome)
        requires
            old(self).wf(),
        ensures
            final(self).wf(),
            request_handled(old(self)@, message, now, final(self)@, out),
    {
        match message {
            Message::PushReq(pair) => {
                let hashed: Key = fingerprint(&pair.value);
                if hashed != pair.key {
                    let text = "Hash of value doesn't match.".to_string();
                    Outcome { reply: Some(Message::Error(text)), commit: None, close: false }
                } else {
                    let commit = self.observe(hashed, Arc::new(pair.value), now);
                    Outcome {
                        reply: Some(Message::PushResp { success: true }),
                        commit,
                        close: false,
                    }
                }
            },
            Message::RetrieveReq { key } => {
                let result = self.retrieve(key);
                Outcome {
                    reply: Some(Message::RetrieveResp { result }),
                    commit: None,
                    close: false,
                }
            },
            Message::DumpReq => {
                let pairs = self.dump();
                Outcome { reply: Some(Message::DumpResp(pairs)), commit: None, close: false }
            },
            Message::DumpLenReq => {
                let n: usize = self.dump_len();
                Outcome { reply: Some(Message::DumpLenResp(n)), commit: None, close: false }
            },
            Message::ClusterReq => {
                let nodes = self.cluster();
                Outcome { reply: Some(Message::ClusterResp(nodes)), commit: None, close: false }
            },
            _ => Outcome { reply: None, commit: None, close: true },
        }
    }
}

} // verus!
