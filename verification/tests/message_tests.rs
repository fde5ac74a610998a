use std::collections::HashSet;

use p2p_share::adj::{Adj, RawAdj};
use p2p_share::config::{Config, RawConfig};
use p2p_share::message::{LogicalClock, Message, MessageBody};

fn config(id: u32) -> Config {
    RawConfig {
        id: Some(id),
        target_node: None,
        listen_ip: None,
        adj: Some(RawAdj { n: 2, matrix: vec![vec![0, 1], vec![0, 0]] }),
        routes: Some(vec![("0".to_string(), "a:1".to_string()), ("1".to_string(), "b:2".to_string())]),
    }
    .to_valid()
    .unwrap()
}

fn message(sender: u32, timestamp: u64, body: MessageBody) -> Message {
    Message { sender, body, timestamp }
}

#[test]
fn the_key_joins_sender_and_timestamp() {
    assert_eq!(message(3, 7, MessageBody::Empty).get_key(), "3-7");
    assert_eq!(message(0, 0, MessageBody::Empty).get_key(), "0-0");
    assert_eq!(message(4294967295, 18446744073709551615, MessageBody::Empty).get_key(), "4294967295-18446744073709551615");
}

#[test]
fn keys_of_different_messages_differ() {
    let a = message(1, 23, MessageBody::Empty).get_key();
    let b = message(12, 3, MessageBody::Empty).get_key();
    assert_ne!(a, b);
}

#[test]
fn each_new_message_gets_the_next_time() {
    let c = config(1);
    let mut clock = LogicalClock::new();
    let a = Message::new(&c, &mut clock, MessageBody::InitRequest);
    let b = Message::new(&c, &mut clock, MessageBody::InitResponse);
    assert_eq!(a.sender, 1);
    assert_eq!(a.timestamp, 1);
    assert_eq!(b.timestamp, 2);
    assert_ne!(a.get_key(), b.get_key());
    assert_eq!(Message::get_current_timestamp(&mut clock), 3);
    assert_eq!(clock.value, 3);
}

#[test]
fn descriptions_name_the_body_and_sender() {
    assert_eq!(message(2, 1, MessageBody::Empty).describe(), "Empty Body from node 2");
    assert_eq!(message(2, 1, MessageBody::InitRequest).describe(), "Init Request from node 2");
    assert_eq!(message(2, 1, MessageBody::InitResponse).describe(), "Init Response from node 2");
    let search = MessageBody::SearchRequest { forwarder: 0, hop_count: 4, file_name: "a.txt".to_string() };
    assert_eq!(message(2, 1, search).describe(), "Search Request with hop count 4 for a.txt from node 2");
    let response = MessageBody::SearchResponse {
        forwarder: 0,
        file_name: "a.txt".to_string(),
        reply_to: "5-9".to_string(),
        file_size: 10,
    };
    assert_eq!(
        message(2, 1, response).describe(),
        "Search Response from 2 with file a.txt (is a reply to message 5-9) from node 2"
    );
    let request = MessageBody::FileDownloadRequest { file_name: "a.txt".to_string(), slice: 0, total_slices: 3 };
    assert_eq!(message(2, 1, request).describe(), "File Download Request for file a.txt (slice 1 of 3) from node 2");
    let data = MessageBody::FileDownloadResponse { slice: 1, data: vec![1, 2, 3] };
    assert_eq!(message(2, 1, data).describe(), "File Download Response from 2 (3 bytes) from node 2");
    let adj = MessageBody::AdjUpdate { adj: Adj { n: 4, data: vec![false; 16], deactivated: HashSet::new() } };
    assert_eq!(message(2, 1, adj).describe(), "Adjacency update (matrix size 4) from node 2");
}

#[test]
fn clones_are_equal_copies() {
    let m = message(2, 5, MessageBody::FileDownloadResponse { slice: 1, data: vec![9, 8] });
    let c = m.clone();
    assert_eq!(c.sender, 2);
    assert_eq!(c.timestamp, 5);
    match c.body {
        MessageBody::FileDownloadResponse { slice, data } => {
            assert_eq!(slice, 1);
            assert_eq!(data, vec![9, 8]);
        }
        _ => panic!("body changed"),
    }
}
