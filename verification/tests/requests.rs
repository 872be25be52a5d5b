use secko::address::{socketaddr_to_u64, SocketAddrV4};
use secko::hashing::fingerprint;
use secko::messages::{ClusterNode, FoundValue, KVPair, Message};
use secko::replica::Replica;

fn local(port: u16) -> u64 {
    socketaddr_to_u64(&SocketAddrV4 { octets: [127, 0, 0, 1], port })
}

fn push(value: &str) -> Message {
    let value = value.to_string();
    Message::PushReq(KVPair { key: fingerprint(&value), value })
}

#[test]
fn push_is_answered_with_success_and_gives_a_commit() {
    let mut replica = Replica::new(local(8000));
    let key = fingerprint(&"hello".to_string());
    let out = replica.handle_request(push("hello"), 17);
    assert_eq!(out.reply, Some(Message::PushResp { success: true }));
    assert!(!out.close);
    let commit = out.commit.expect("a first push gives a commit");
    assert_eq!(commit.key, key);
    assert_eq!(*commit.value, "hello");
    assert_eq!(commit.timestamp, 17);
    assert_eq!(replica.known_keys(local(8000)), Some(vec![key]));
}

#[test]
fn pushed_value_is_retrieved_at_once() {
    let mut replica = Replica::new(local(8000));
    let key = fingerprint(&"hello".to_string());
    replica.handle_request(push("hello"), 0);
    let out = replica.handle_request(Message::RetrieveReq { key }, 1);
    assert_eq!(
        out.reply,
        Some(Message::RetrieveResp { result: FoundValue::Success { value: "hello".to_string() } })
    );
    assert!(out.commit.is_none());
    assert!(!out.close);
}

#[test]
fn unknown_key_is_not_found() {
    let mut replica = Replica::new(local(8000));
    let out = replica.handle_request(Message::RetrieveReq { key: 5 }, 0);
    assert_eq!(out.reply, Some(Message::RetrieveResp { result: FoundValue::Failure }));
    assert!(!out.close);
}

#[test]
fn push_under_a_wrong_key_is_refused() {
    let mut replica = Replica::new(local(8000));
    replica.handle_request(push("kept"), 0);
    assert_ne!(fingerprint(&"x".to_string()), 0);
    let before = replica.handle_request(Message::DumpLenReq, 0).reply;
    let out = replica
        .handle_request(Message::PushReq(KVPair { key: 0, value: "x".to_string() }), 1);
    assert_eq!(out.reply, Some(Message::Error("Hash of value doesn't match.".to_string())));
    assert!(out.commit.is_none());
    assert!(!out.close);
    assert_eq!(replica.handle_request(Message::DumpLenReq, 2).reply, before);
    assert_eq!(before, Some(Message::DumpLenResp(1)));
    assert_eq!(replica.retrieve(0), FoundValue::Failure);
    assert_eq!(replica.known_keys(local(8000)).map(|keys| keys.len()), Some(1));
}

#[test]
fn second_push_of_a_value_gives_no_commit() {
    let mut replica = Replica::new(local(8000));
    assert!(replica.handle_request(push("twice"), 0).commit.is_some());
    let out = replica.handle_request(push("twice"), 1);
    assert_eq!(out.reply, Some(Message::PushResp { success: true }));
    assert!(out.commit.is_none());
    assert_eq!(replica.dump_len(), 1);
    assert_eq!(replica.known_keys(local(8000)).map(|keys| keys.len()), Some(1));
}

#[test]
fn own_list_keeps_the_order_of_the_pushes() {
    let mut replica = Replica::new(local(8000));
    let mut expected = Vec::new();
    for value in ["a", "b", "c", "b", "d"] {
        let key = fingerprint(&value.to_string());
        if !expected.contains(&key) {
            expected.push(key);
        }
        let before = replica.known_keys(local(8000)).unwrap();
        replica.handle_request(push(value), 0);
        let after = replica.known_keys(local(8000)).unwrap();
        assert_eq!(&after[..before.len()], &before[..]);
    }
    assert_eq!(replica.known_keys(local(8000)), Some(expected));
}

#[test]
fn dump_lists_every_entry_once() {
    let mut replica = Replica::new(local(8000));
    for value in ["one", "two", "three"] {
        replica.handle_request(push(value), 0);
    }
    let out = replica.handle_request(Message::DumpReq, 0);
    let mut pairs = match out.reply {
        Some(Message::DumpResp(pairs)) => pairs,
        other => panic!("no dump: {:?}", other),
    };
    pairs.sort_by(|a, b| a.value.cmp(&b.value));
    let values: Vec<&str> = pairs.iter().map(|pair| pair.value.as_str()).collect();
    assert_eq!(values, vec!["one", "three", "two"]);
    for pair in &pairs {
        assert_eq!(pair.key, fingerprint(&pair.value));
    }
    assert_eq!(replica.handle_request(Message::DumpLenReq, 0).reply, Some(Message::DumpLenResp(3)));
}

#[test]
fn dump_of_an_empty_store_is_empty() {
    let mut replica = Replica::new(local(8000));
    assert_eq!(replica.handle_request(Message::DumpReq, 0).reply, Some(Message::DumpResp(vec![])));
    assert_eq!(replica.handle_request(Message::DumpLenReq, 0).reply, Some(Message::DumpLenResp(0)));
}

#[test]
fn cluster_lists_the_replica_and_its_neighbours() {
    let neighbours = vec![local(8001), local(8002)];
    let mut replica = Replica::recover(local(8000), None, None, &neighbours).unwrap().replica;
    let out = replica.handle_request(Message::ClusterReq, 0);
    let mut nodes = match out.reply {
        Some(Message::ClusterResp(nodes)) => nodes,
        other => panic!("no cluster: {:?}", other),
    };
    nodes.sort_by(|a, b| a.replica_id.cmp(&b.replica_id));
    assert_eq!(
        nodes,
        vec![
            ClusterNode { replica_id: "127.0.0.1:8000".to_string() },
            ClusterNode { replica_id: "127.0.0.1:8001".to_string() },
            ClusterNode { replica_id: "127.0.0.1:8002".to_string() },
        ]
    );
    assert!(!out.close);
}

#[test]
fn closed_connection_ends_the_loop() {
    let mut replica = Replica::new(local(8000));
    let out = replica.handle_request(Message::ConnectionClosed, 0);
    assert!(out.close);
    assert!(out.reply.is_none());
    assert!(out.commit.is_none());
}

#[test]
fn message_that_is_no_request_drops_the_connection() {
    let mut replica = Replica::new(local(8000));
    for message in [
        Message::PushResp { success: true },
        Message::DumpResp(vec![]),
        Message::DumpLenResp(3),
        Message::Error("no".to_string()),
        Message::DigestMessage(1, vec![]),
        Message::RetrieveResp { result: FoundValue::Failure },
        Message::ClusterResp(vec![]),
    ] {
        let out = replica.handle_request(message, 0);
        assert!(out.close);
        assert!(out.reply.is_none());
        assert!(out.commit.is_none());
    }
    assert_eq!(replica.dump_len(), 0);
}

#[test]
fn new_replica_knows_only_itself() {
    let replica = Replica::new(local(8000));
    assert_eq!(replica.id(), local(8000));
    assert_eq!(replica.known_keys(local(8000)), Some(vec![]));
    assert_eq!(replica.known_keys(local(8001)), None);
    assert_eq!(replica.cluster(), vec![ClusterNode { replica_id: "127.0.0.1:8000".to_string() }]);
}
