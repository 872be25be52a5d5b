use secko::address::{socketaddr_to_u64, SocketAddrV4};
use secko::hashing::fingerprint;
use secko::messages::{DigestPair, FoundValue, KVPair, Message, UpdateMessage};
use secko::gossip::{create_digest, PeerAction, UPDATE_CAP};
use secko::replica::Replica;
use secko::map::LockFreeMap;
use std::collections::HashMap;
use std::sync::Arc;

fn local(port: u16) -> u64 {
    socketaddr_to_u64(&SocketAddrV4 { octets: [127, 0, 0, 1], port })
}

fn replica(port: u16, neighbours: &[u16]) -> Replica {
    let neighbours: Vec<u64> = neighbours.iter().map(|port| local(*port)).collect();
    Replica::recover(local(port), None, None, &neighbours).unwrap().replica
}

fn push(replica: &mut Replica, value: &str) -> u64 {
    let value = value.to_string();
    let key = fingerprint(&value);
    let out = replica.handle_request(Message::PushReq(KVPair { key, value }), 0);
    assert_eq!(out.reply, Some(Message::PushResp { success: true }));
    key
}

fn pair(key: u64, value: &str) -> KVPair {
    KVPair { key, value: value.to_string() }
}

fn update(replica_keys: Vec<(u64, Vec<(u64, usize)>)>, key_values: Vec<KVPair>) -> UpdateMessage {
    UpdateMessage {
        sending_rate: 1.0f64.to_bits(),
        replica_keys: replica_keys.into_iter().collect::<HashMap<_, _>>(),
        key_values,
    }
}

fn sorted(mut digest: Vec<DigestPair>) -> Vec<DigestPair> {
    digest.sort_by_key(|line| line.replica_id);
    digest
}

#[test]
fn digest_has_a_line_for_every_replica() {
    let mut a = replica(8000, &[8001, 8002]);
    push(&mut a, "one");
    push(&mut a, "two");
    assert_eq!(
        sorted(a.digest()),
        vec![
            DigestPair { replica_id: local(8000), keys: 2 },
            DigestPair { replica_id: local(8001), keys: 0 },
            DigestPair { replica_id: local(8002), keys: 0 },
        ]
    );
}

#[test]
fn digest_of_a_map_counts_the_keys_of_each_list() {
    let mut map = LockFreeMap::<Vec<u64>>::new();
    assert_eq!(create_digest(&map), vec![]);
    map.insert(5, Arc::new(vec![10, 11, 12]));
    map.insert(6, Arc::new(vec![]));
    assert_eq!(
        sorted(create_digest(&map)),
        vec![DigestPair { replica_id: 5, keys: 3 }, DigestPair { replica_id: 6, keys: 0 }]
    );
}

#[test]
fn answer_carries_the_keys_that_the_asker_lacks() {
    let mut a = replica(8000, &[8001]);
    let k0 = push(&mut a, "zero");
    let k1 = push(&mut a, "one");
    let k2 = push(&mut a, "two");
    let digest = vec![
        DigestPair { replica_id: local(8000), keys: 1 },
        DigestPair { replica_id: local(8001), keys: 0 },
    ];
    let body = a.answer_digest(local(8001), &digest, 7);
    assert_eq!(body.sending_rate, 7);
    assert_eq!(body.replica_keys.len(), 1);
    assert_eq!(body.replica_keys[&local(8000)], vec![(k1, 1), (k2, 2)]);
    let mut values = body.key_values.clone();
    values.sort_by(|x, y| x.value.cmp(&y.value));
    assert_eq!(values, vec![pair(k1, "one"), pair(k2, "two")]);
    assert_eq!(a.known_keys(local(8000)), Some(vec![k0, k1, k2]));
}

#[test]
fn answer_to_an_asker_that_knows_all_is_empty() {
    let mut a = replica(8000, &[8001]);
    push(&mut a, "zero");
    let digest = vec![
        DigestPair { replica_id: local(8000), keys: 1 },
        DigestPair { replica_id: local(8001), keys: 0 },
    ];
    let body = a.answer_digest(local(8001), &digest, 0);
    assert!(body.replica_keys.is_empty());
    assert!(body.key_values.is_empty());
    let ahead = vec![DigestPair { replica_id: local(8000), keys: 9 }];
    let body = a.answer_digest(local(8001), &ahead, 0);
    assert!(body.replica_keys.is_empty());
    assert!(body.key_values.is_empty());
}

#[test]
fn digest_makes_an_unknown_replica_known() {
    let mut a = replica(8000, &[8001]);
    assert_eq!(a.known_keys(local(9999)), None);
    let digest = vec![DigestPair { replica_id: local(9999), keys: 4 }];
    let body = a.answer_digest(local(8001), &digest, 0);
    assert_eq!(a.known_keys(local(9999)), Some(vec![]));
    assert!(body.replica_keys.is_empty());
    assert!(body.key_values.is_empty());
}

#[test]
fn list_of_the_sender_is_emptied_when_the_sender_claims_less() {
    let mut a = replica(8000, &[8001]);
    a.handle_update(&update(vec![(local(8001), vec![(1, 0), (2, 1), (3, 2)])], vec![]), 0);
    assert_eq!(a.known_keys(local(8001)), Some(vec![1, 2, 3]));
    let digest = vec![DigestPair { replica_id: local(8001), keys: 1 }];
    let body = a.answer_digest(local(8001), &digest, 0);
    assert_eq!(a.known_keys(local(8001)), Some(vec![]));
    assert!(body.replica_keys.is_empty());
    assert!(body.key_values.is_empty());
}

#[test]
fn list_of_the_sender_is_kept_when_the_sender_claims_as_much() {
    let mut a = replica(8000, &[8001]);
    a.handle_update(&update(vec![(local(8001), vec![(1, 0), (2, 1)])], vec![]), 0);
    let digest = vec![DigestPair { replica_id: local(8001), keys: 2 }];
    a.answer_digest(local(8001), &digest, 0);
    assert_eq!(a.known_keys(local(8001)), Some(vec![1, 2]));
}

#[test]
fn answer_tells_of_third_replicas() {
    let mut a = replica(8000, &[8001, 8002]);
    let k = fingerprint(&"v".to_string());
    a.handle_update(&update(vec![(local(8002), vec![(k, 0)])], vec![pair(k, "v")]), 0);
    let digest = vec![DigestPair { replica_id: local(8002), keys: 0 }];
    let body = a.answer_digest(local(8001), &digest, 0);
    assert_eq!(body.replica_keys[&local(8002)], vec![(k, 0)]);
    assert_eq!(body.key_values, vec![pair(k, "v")]);
}

#[test]
fn key_without_a_value_is_told_but_not_carried() {
    let mut a = replica(8000, &[8001, 8002]);
    a.handle_update(&update(vec![(local(8002), vec![(41, 0), (42, 1)])], vec![pair(42, "known")]), 0);
    let digest = vec![DigestPair { replica_id: local(8002), keys: 0 }];
    let body = a.answer_digest(local(8001), &digest, 0);
    assert_eq!(body.replica_keys[&local(8002)], vec![(41, 0), (42, 1)]);
    assert_eq!(body.key_values, vec![pair(42, "known")]);
}

#[test]
fn answer_never_carries_more_than_the_cap() {
    assert_eq!(UPDATE_CAP, 250);
    let mut a = replica(8000, &[8001]);
    let mut keys = Vec::new();
    for n in 0..300 {
        keys.push(push(&mut a, &format!("value {}", n)));
    }
    let digest = vec![DigestPair { replica_id: local(8000), keys: 0 }];
    let body = a.answer_digest(local(8001), &digest, 0);
    assert_eq!(body.key_values.len(), 250);
    let told = &body.replica_keys[&local(8000)];
    assert_eq!(told.len(), 250);
    for (position, (key, index)) in told.iter().enumerate() {
        assert_eq!(*index, position);
        assert_eq!(*key, keys[position]);
    }
    let mut carried: Vec<u64> = body.key_values.iter().map(|pair| pair.key).collect();
    carried.sort();
    carried.dedup();
    assert_eq!(carried.len(), 250);
    let rest = vec![DigestPair { replica_id: local(8000), keys: 250 }];
    let body = a.answer_digest(local(8001), &rest, 0);
    assert_eq!(body.key_values.len(), 50);
    assert_eq!(body.replica_keys[&local(8000)][0], (keys[250], 250));
}

#[test]
fn lines_after_a_full_answer_are_not_looked_at() {
    let mut a = replica(8000, &[8001, 8002]);
    for n in 0..250 {
        push(&mut a, &format!("value {}", n));
    }
    a.handle_update(&update(vec![(local(8002), vec![(1, 0)])], vec![pair(1, "other")]), 0);
    let digest = vec![
        DigestPair { replica_id: local(8000), keys: 0 },
        DigestPair { replica_id: local(8002), keys: 0 },
        DigestPair { replica_id: local(7777), keys: 0 },
    ];
    let body = a.answer_digest(local(8001), &digest, 0);
    assert_eq!(body.key_values.len(), 250);
    assert_eq!(body.replica_keys.len(), 1);
    assert!(body.replica_keys.contains_key(&local(8000)));
    assert_eq!(a.known_keys(local(7777)), None);
}

#[test]
fn shared_keys_count_once_against_the_cap() {
    let mut a = replica(8000, &[8001, 8002]);
    let k0 = push(&mut a, "shared");
    a.handle_update(&update(vec![(local(8002), vec![(k0, 0)])], vec![]), 0);
    let digest = vec![
        DigestPair { replica_id: local(8000), keys: 0 },
        DigestPair { replica_id: local(8002), keys: 0 },
    ];
    let body = a.answer_digest(local(8001), &digest, 0);
    assert_eq!(body.key_values, vec![pair(k0, "shared")]);
    assert_eq!(body.replica_keys[&local(8000)], vec![(k0, 0)]);
    assert_eq!(body.replica_keys[&local(8002)], vec![(k0, 0)]);
}

#[test]
fn handled_digest_is_answered_from_this_replica() {
    let mut a = replica(8000, &[8001]);
    let k = push(&mut a, "hello");
    let digest = vec![
        DigestPair { replica_id: local(8001), keys: 0 },
        DigestPair { replica_id: local(8000), keys: 0 },
    ];
    match a.handle_digest(local(8001), digest, 3) {
        Message::UpdateMessage(from, body) => {
            assert_eq!(from, local(8000));
            assert_eq!(body.sending_rate, 3);
            assert_eq!(body.key_values, vec![pair(k, "hello")]);
            assert_eq!(body.replica_keys[&local(8000)], vec![(k, 0)]);
        },
        other => panic!("no update: {:?}", other),
    }
}

#[test]
fn update_stores_values_and_gives_commits_for_new_ones() {
    let mut b = replica(8001, &[8000]);
    let kept = push(&mut b, "kept");
    let body = update(vec![], vec![pair(kept, "kept"), pair(10, "ten"), pair(11, "eleven"), pair(10, "ten")]);
    let commits = b.handle_update(&body, 99);
    let logged: Vec<(u64, String, u128)> =
        commits.iter().map(|c| (c.key, (*c.value).clone(), c.timestamp)).collect();
    assert_eq!(logged, vec![(10, "ten".to_string(), 99), (11, "eleven".to_string(), 99)]);
    assert_eq!(b.retrieve(10), FoundValue::Success { value: "ten".to_string() });
    assert_eq!(b.retrieve(11), FoundValue::Success { value: "eleven".to_string() });
    assert_eq!(b.known_keys(local(8001)), Some(vec![kept, 10, 11]));
    assert_eq!(b.dump_len(), 3);
}

#[test]
fn update_replaces_no_stored_value() {
    let mut b = replica(8001, &[8000]);
    assert_eq!(b.handle_update(&update(vec![], vec![pair(5, "a")]), 0).len(), 1);
    let commits = b.handle_update(&update(vec![], vec![pair(5, "b")]), 1);
    assert!(commits.is_empty());
    assert_eq!(b.retrieve(5), FoundValue::Success { value: "a".to_string() });
    assert_eq!(b.known_keys(local(8001)), Some(vec![5]));
    assert_eq!(b.dump_len(), 1);
}

#[test]
fn update_keeps_the_first_of_two_values_under_one_new_key() {
    let mut b = replica(8001, &[8000]);
    let commits = b.handle_update(&update(vec![], vec![pair(5, "a"), pair(6, "c"), pair(5, "b")]), 3);
    let logged: Vec<(u64, String)> = commits.iter().map(|c| (c.key, (*c.value).clone())).collect();
    assert_eq!(logged, vec![(5, "a".to_string()), (6, "c".to_string())]);
    assert_eq!(b.retrieve(5), FoundValue::Success { value: "a".to_string() });
    assert_eq!(b.known_keys(local(8001)), Some(vec![5, 6]));
}

#[test]
fn observed_value_is_never_replaced() {
    let mut b = replica(8001, &[8000]);
    assert!(b.observe(9, Arc::new("kept".to_string()), 0).is_some());
    assert!(b.observe(9, Arc::new("other".to_string()), 1).is_none());
    assert_eq!(b.retrieve(9), FoundValue::Success { value: "kept".to_string() });
}

#[test]
fn update_appends_only_at_the_end_of_a_list() {
    let mut b = replica(8001, &[8000]);
    b.handle_update(&update(vec![(local(8000), vec![(1, 0), (2, 1)])], vec![]), 0);
    assert_eq!(b.known_keys(local(8000)), Some(vec![1, 2]));
    b.handle_update(&update(vec![(local(8000), vec![(9, 0), (8, 1), (3, 2), (4, 3)])], vec![]), 0);
    assert_eq!(b.known_keys(local(8000)), Some(vec![1, 2, 3, 4]));
    b.handle_update(&update(vec![(local(8000), vec![(7, 10)])], vec![]), 0);
    assert_eq!(b.known_keys(local(8000)), Some(vec![1, 2, 3, 4, 7]));
    b.handle_update(&update(vec![(local(8000), vec![(5, 4), (6, 5), (6, 5)])], vec![]), 0);
    assert_eq!(b.known_keys(local(8000)), Some(vec![1, 2, 3, 4, 7, 6]));
}

#[test]
fn update_makes_an_unknown_replica_known_with_all_keys_told() {
    let mut b = replica(8001, &[8000]);
    b.handle_update(&update(vec![(local(8005), vec![(5, 3), (6, 0), (7, 9)])], vec![]), 0);
    assert_eq!(b.known_keys(local(8005)), Some(vec![5, 6, 7]));
}

#[test]
fn update_about_this_replica_itself_is_passed_over() {
    let mut b = replica(8001, &[8000]);
    let own = push(&mut b, "own");
    b.handle_update(&update(vec![(local(8001), vec![(1, 1), (2, 2)])], vec![]), 0);
    assert_eq!(b.known_keys(local(8001)), Some(vec![own]));
}

#[test]
fn digest_of_a_peer_is_answered_to_the_peer() {
    let mut a = replica(8000, &[8001]);
    let k = push(&mut a, "hello");
    let digest = vec![DigestPair { replica_id: local(8000), keys: 0 }];
    match a.handle_peer(Message::DigestMessage(local(8001), digest), 2, 0) {
        PeerAction::Answer { to, message: Message::UpdateMessage(from, body) } => {
            assert_eq!(to, local(8001));
            assert_eq!(from, local(8000));
            assert_eq!(body.sending_rate, 2);
            assert_eq!(body.key_values, vec![pair(k, "hello")]);
        },
        _ => panic!("no answer"),
    }
}

#[test]
fn update_of_a_peer_is_taken_up() {
    let mut b = replica(8001, &[8000]);
    let body = update(vec![(local(8000), vec![(4, 0)])], vec![pair(4, "four")]);
    match b.handle_peer(Message::UpdateMessage(local(8000), body), 0, 9) {
        PeerAction::Log(commits) => {
            assert_eq!(commits.len(), 1);
            assert_eq!(commits[0].key, 4);
            assert_eq!(*commits[0].value, "four");
            assert_eq!(commits[0].timestamp, 9);
        },
        _ => panic!("no commits"),
    }
    assert_eq!(b.known_keys(local(8000)), Some(vec![4]));
    assert_eq!(b.known_keys(local(8001)), Some(vec![4]));
}

#[test]
fn other_message_of_a_peer_is_refused() {
    let mut a = replica(8000, &[8001]);
    push(&mut a, "kept");
    for message in [
        Message::DumpReq,
        Message::PushReq(pair(1, "x")),
        Message::RetrieveReq { key: 1 },
        Message::ConnectionClosed,
        Message::Error("no".to_string()),
    ] {
        match a.handle_peer(message, 0, 0) {
            PeerAction::Refuse(reply) => {
                assert_eq!(reply, Message::Error("Invalid Message Sent.".to_string()))
            },
            _ => panic!("not refused"),
        }
    }
    assert_eq!(a.dump_len(), 1);
}

#[test]
fn gossip_without_peers_has_no_target() {
    let alone = Replica::new(local(8000));
    assert!(alone.gossip().is_none());
}

#[test]
fn gossip_picks_a_peer_and_sends_the_digest() {
    let mut a = replica(8000, &[8001, 8002]);
    push(&mut a, "hello");
    let mut seen = Vec::new();
    for _ in 0..200 {
        let (peer, message) = a.gossip().expect("there are peers");
        assert!(peer == local(8001) || peer == local(8002));
        if !seen.contains(&peer) {
            seen.push(peer);
        }
        match message {
            Message::DigestMessage(from, digest) => {
                assert_eq!(from, local(8000));
                assert_eq!(sorted(digest), sorted(a.digest()));
            },
            other => panic!("no digest: {:?}", other),
        }
    }
    assert_eq!(seen.len(), 2);
}

fn exchange(asker: &mut Replica, answerer: &mut Replica) {
    let digest = asker.digest();
    match answerer.handle_digest(asker.id(), digest, 0) {
        Message::UpdateMessage(from, body) => {
            assert_eq!(from, answerer.id());
            assert!(body.key_values.len() <= 250);
            asker.handle_update(&body, 0);
        },
        other => panic!("no update: {:?}", other),
    }
}

#[test]
fn asking_brings_what_the_peer_holds() {
    let mut a = replica(8000, &[8001]);
    let mut b = replica(8001, &[8000]);
    let k1 = push(&mut a, "one");
    let k2 = push(&mut a, "two");
    let commits = b.ask(&mut a, 0, 5);
    let mut logged: Vec<(u64, String, u128)> =
        commits.iter().map(|c| (c.key, (*c.value).clone(), c.timestamp)).collect();
    logged.sort();
    let mut expected = vec![(k1, "one".to_string(), 5), (k2, "two".to_string(), 5)];
    expected.sort();
    assert_eq!(logged, expected);
    assert_eq!(b.known_keys(local(8000)), Some(vec![k1, k2]));
    assert_eq!(a.known_keys(local(8001)), Some(vec![]));
    assert!(b.ask(&mut a, 0, 6).is_empty());
    assert!(a.ask(&mut b, 0, 7).is_empty());
    assert_eq!(a.known_keys(local(8001)), b.known_keys(local(8001)));
    assert_eq!(a.dump_len(), 2);
    assert_eq!(b.dump_len(), 2);
}

#[test]
fn replicas_that_ask_each_other_in_turn_come_to_hold_the_same() {
    let mut a = replica(8000, &[8001]);
    let mut b = replica(8001, &[8000]);
    for n in 0..300 {
        push(&mut a, &format!("a{}", n));
    }
    for n in 0..10 {
        push(&mut b, &format!("b{}", n));
    }
    let mut exchanges = 0;
    loop {
        let left = a.dump_len();
        let right = b.dump_len();
        b.ask(&mut a, 0, 0);
        a.ask(&mut b, 0, 0);
        exchanges += 2;
        if a.dump_len() == left && b.dump_len() == right {
            break;
        }
    }
    assert!(exchanges <= 8 * 310 + 2);
    let mut left = a.dump();
    let mut right = b.dump();
    left.sort_by_key(|pair| pair.key);
    right.sort_by_key(|pair| pair.key);
    assert_eq!(left.len(), 310);
    assert_eq!(left, right);
    assert_eq!(a.known_keys(local(8000)), b.known_keys(local(8000)));
    assert_eq!(a.known_keys(local(8001)), b.known_keys(local(8001)));
}

#[test]
fn value_pushed_to_one_replica_reaches_the_other() {
    let mut a = replica(8000, &[8001]);
    let mut b = replica(8001, &[8000]);
    let key = push(&mut a, "hello");
    assert_eq!(b.retrieve(key), FoundValue::Failure);
    exchange(&mut b, &mut a);
    assert_eq!(b.retrieve(key), FoundValue::Success { value: "hello".to_string() });
    assert_eq!(b.known_keys(local(8000)), Some(vec![key]));
    assert_eq!(b.known_keys(local(8001)), Some(vec![key]));
}

#[test]
fn two_replicas_come_to_hold_the_same() {
    let mut a = replica(8000, &[8001]);
    let mut b = replica(8001, &[8000]);
    for n in 0..400 {
        push(&mut a, &format!("a{}", n));
        push(&mut b, &format!("b{}", n));
    }
    for _ in 0..8 {
        exchange(&mut b, &mut a);
        exchange(&mut a, &mut b);
    }
    let mut left = a.dump();
    let mut right = b.dump();
    left.sort_by_key(|pair| pair.key);
    right.sort_by_key(|pair| pair.key);
    assert_eq!(left.len(), 800);
    assert_eq!(left, right);
}

#[test]
fn cluster_of_eight_comes_to_hold_every_value() {
    let ports: Vec<u16> = (8000..8008).collect();
    let mut cluster: Vec<Replica> = ports
        .iter()
        .map(|port| {
            let others: Vec<u16> = ports.iter().copied().filter(|other| other != port).collect();
            replica(*port, &others)
        })
        .collect();
    for (n, member) in cluster.iter_mut().enumerate() {
        for v in 0..250 {
            push(member, &format!("client {} value {}", n, v));
        }
    }
    for round in 0..40 {
        for i in 0..8 {
            let j = (i + 1 + round % 7) % 8;
            let (asker, answerer) = if i < j {
                let (left, right) = cluster.split_at_mut(j);
                (&mut left[i], &mut right[0])
            } else {
                let (left, right) = cluster.split_at_mut(i);
                (&mut right[0], &mut left[j])
            };
            exchange(asker, answerer);
        }
    }
    for member in &cluster {
        assert_eq!(member.dump_len(), 2000);
    }
}

#[test]
fn replica_without_reachable_peers_keeps_serving() {
    let mut a = replica(8000, &[8001]);
    for n in 0..10 {
        push(&mut a, &format!("value {}", n));
        assert_eq!(a.dump_len(), n + 1);
        assert!(a.gossip().is_some());
    }
}
