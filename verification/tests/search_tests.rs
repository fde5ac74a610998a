use p2p_share::adj::RawAdj;
use p2p_share::bus::Event;
use p2p_share::config::{Config, RawConfig};
use p2p_share::file_manifest::FileManifest;
use p2p_share::message::{LogicalClock, Message, MessageBody};
use p2p_share::search::{Forward, SearchError, SearchLayer, SearchStep};

// 0 - 1 - 2, with 3 hanging off 1.
fn config(id: u32) -> Config {
    RawConfig {
        id: Some(id),
        target_node: None,
        listen_ip: None,
        adj: Some(RawAdj {
            n: 4,
            matrix: vec![vec![0, 1, 0, 0], vec![0, 0, 1, 1], vec![0, 0, 0, 0], vec![0, 0, 0, 0]],
        }),
        routes: Some(
            (0..4).map(|i: u32| (i.to_string(), format!("dc0{}.utdallas.edu:5089{}", i, i))).collect(),
        ),
    }
    .to_valid()
    .unwrap()
}

fn search(sender: u32, timestamp: u64, forwarder: u32, hop_count: u32, file: &str) -> Message {
    Message {
        sender,
        timestamp,
        body: MessageBody::SearchRequest { forwarder, hop_count, file_name: file.to_string() },
    }
}

fn answer(sender: u32, timestamp: u64, reply_to: &str) -> Message {
    Message {
        sender,
        timestamp,
        body: MessageBody::SearchResponse {
            forwarder: sender,
            file_name: "a.txt".to_string(),
            reply_to: reply_to.to_string(),
            file_size: 42,
        },
    }
}

#[test]
fn broadcast_targets_are_the_neighbours_but_the_excluded() {
    let c = config(1);
    assert_eq!(SearchLayer::get_broadcastable_nodes(&c, &vec![]), vec![0, 2, 3]);
    assert_eq!(SearchLayer::get_broadcastable_nodes(&c, &vec![2, 7]), vec![0, 3]);
}

#[test]
fn a_search_is_passed_on_with_one_hop_less() {
    let c = config(1);
    let layer = SearchLayer::new();
    match layer.try_forward_request(&c, &search(0, 5, 0, 3, "a.txt")) {
        Forward::Broadcast { message, targets } => {
            assert_eq!(targets, vec![2, 3]);
            assert_eq!(message.sender, 0);
            assert_eq!(message.timestamp, 5);
            match message.body {
                MessageBody::SearchRequest { forwarder, hop_count, file_name } => {
                    assert_eq!(forwarder, 1);
                    assert_eq!(hop_count, 2);
                    assert_eq!(file_name, "a.txt");
                }
                _ => panic!("wrong body"),
            }
        }
        _ => panic!("expected a broadcast"),
    }
}

#[test]
fn a_layer_knows_which_messages_it_passed_on() {
    let mut layer = SearchLayer::new();
    let m = search(0, 5, 0, 3, "a.txt");
    assert!(!layer.has_seen(&"0-5".to_string()));
    layer.record_forwarded(&m, vec![]).unwrap();
    assert!(layer.has_seen(&"0-5".to_string()));
    assert!(!layer.has_seen(&"0-6".to_string()));
}

#[test]
fn a_search_without_hops_stops() {
    let c = config(1);
    let layer = SearchLayer::new();
    assert!(matches!(layer.try_forward_request(&c, &search(0, 5, 0, 0, "a.txt")), Forward::Discard));
}

#[test]
fn a_search_is_passed_on_once() {
    let c = config(1);
    let mut layer = SearchLayer::new();
    let m = search(0, 5, 0, 3, "a.txt");
    assert!(matches!(layer.try_forward_request(&c, &m), Forward::Broadcast { .. }));
    assert!(layer.record_forwarded(&m, vec![]).is_ok());
    assert!(matches!(layer.try_forward_request(&c, &m), Forward::Duplicate));
    let copy = search(0, 5, 2, 7, "a.txt");
    assert!(matches!(layer.try_forward_request(&c, &copy), Forward::Duplicate));
}

#[test]
fn a_failed_broadcast_is_not_remembered() {
    let c = config(1);
    let mut layer = SearchLayer::new();
    let m = search(0, 5, 0, 3, "a.txt");
    let errors: Vec<Box<dyn std::error::Error>> =
        vec!["Could not get connection for node 2".into(), "Could not get connection for node 3".into()];
    let texts: Vec<String> = errors.iter().map(|e| format!("{:?}", e)).collect();
    match layer.record_forwarded(&m, texts) {
        Err(e) => {
            assert!(matches!(&e, SearchError::ForwardFailed(list) if list.len() == 2));
            let expected = format!("Failed to forward message to {} nodes. {:?}", errors.len(), errors.iter().collect::<Vec<_>>());
            assert_eq!(e.message(), expected);
        }
        Ok(()) => panic!("expected an error"),
    }
    assert!(matches!(layer.try_forward_request(&c, &m), Forward::Broadcast { .. }));
}

#[test]
fn answers_go_back_to_the_node_the_search_came_from() {
    let mut layer = SearchLayer::new();
    let m = search(0, 5, 3, 3, "a.txt");
    layer.record_forwarded(&m, vec![]).unwrap();
    let (back, to) = layer.try_forward_response(&answer(2, 9, "0-5")).unwrap();
    assert_eq!(to, 3);
    assert_eq!(back.sender, 2);
    assert_eq!(back.timestamp, 9);
}

#[test]
fn answers_to_unknown_searches_are_refused() {
    let layer = SearchLayer::new();
    match layer.try_forward_response(&answer(2, 9, "0-5")) {
        Err(SearchError::UnknownRequest(k)) => assert_eq!(k, "0-5"),
        _ => panic!("expected an unknown request"),
    }
    let e = layer.try_forward_response(&search(0, 1, 0, 1, "a")).unwrap_err();
    assert!(matches!(e, SearchError::NotSearchResponse));
    assert_eq!(e.message(), "Message has wrong body format. Expected SearchResponse.");
    assert_eq!(
        SearchError::UnknownRequest("0-5".to_string()).message(),
        "Received search request reply, but did not originally receive corresponding request. Request message key: 0-5"
    );
}

#[test]
fn a_node_that_has_the_file_answers() {
    let c = config(2);
    let mut clock = LogicalClock::new();
    let layer = SearchLayer::new();
    let manifest = FileManifest { files: vec!["a.txt".to_string()] };
    let m = search(0, 5, 1, 3, "a.txt");
    assert_eq!(layer.classify(&m, &manifest), SearchStep::ConsumeRequest);
    assert_eq!(layer.classify(&search(0, 5, 1, 3, "b.txt"), &manifest), SearchStep::ForwardRequest);
    let (reply, to) = SearchLayer::try_consume_request(&c, &mut clock, &m, 42);
    assert_eq!(to, 1);
    assert_eq!(reply.sender, 2);
    assert_eq!(reply.timestamp, 1);
    match reply.body {
        MessageBody::SearchResponse { forwarder, file_name, reply_to, file_size } => {
            assert_eq!(forwarder, 2);
            assert_eq!(file_name, "a.txt");
            assert_eq!(reply_to, "0-5");
            assert_eq!(file_size, 42);
        }
        _ => panic!("wrong body"),
    }
}

#[test]
fn a_node_reports_answers_to_its_own_searches() {
    let c = config(0);
    let mut clock = LogicalClock::new();
    let mut layer = SearchLayer::new();
    let manifest = FileManifest { files: vec![] };
    let (request, targets) = layer.send_search_request(&c, &mut clock, &"a.txt".to_string(), 4);
    assert_eq!(targets, vec![1]);
    assert_eq!(request.get_key(), "0-1");
    match &request.body {
        MessageBody::SearchRequest { forwarder, hop_count, file_name } => {
            assert_eq!((*forwarder, *hop_count, file_name.as_str()), (0, 4, "a.txt"));
        }
        _ => panic!("wrong body"),
    }
    let reply = answer(3, 7, "0-1");
    assert!(layer.should_consume_response(&reply));
    assert_eq!(layer.classify(&reply, &manifest), SearchStep::ConsumeResponse);
    assert_eq!(layer.classify(&answer(3, 7, "0-2"), &manifest), SearchStep::ForwardResponse);
    match SearchLayer::try_consume_response(&reply) {
        Event::FileFound(r) => {
            assert_eq!(r.node_id, 3);
            assert_eq!(r.file_name, "a.txt");
            assert_eq!(r.file_size, 42);
        }
        _ => panic!("expected a find"),
    }
}

#[test]
fn other_messages_are_not_for_the_search_layer() {
    let layer = SearchLayer::new();
    let manifest = FileManifest { files: vec![] };
    let m = Message { sender: 1, timestamp: 1, body: MessageBody::InitRequest };
    assert_eq!(layer.classify(&m, &manifest), SearchStep::Ignore);
}

#[test]
fn a_new_matrix_is_installed_and_passed_on_once() {
    let mut c = config(1);
    let mut layer = SearchLayer::new();
    let grown = c.apply_outside_connection(4, 1);
    let update = Message { sender: 2, timestamp: 3, body: MessageBody::AdjUpdate { adj: grown } };
    assert_eq!(layer.classify(&update, &FileManifest { files: vec![] }), SearchStep::ForwardAdjUpdate);
    match layer.try_forward_adj_update(&mut c, &update) {
        Ok(Forward::Broadcast { message, targets }) => {
            assert_eq!(targets, vec![0, 3, 4]);
            assert_eq!(message.get_key(), "2-3");
        }
        _ => panic!("expected a broadcast"),
    }
    assert_eq!(c.adj.n, 5);
    layer.record_forwarded(&update, vec![]).unwrap();
    assert!(matches!(layer.try_forward_adj_update(&mut c, &update), Ok(Forward::Duplicate)));
    let failed = layer.record_forwarded(&update, vec!["\"gone\"".to_string()]).unwrap_err();
    assert_eq!(failed.message(), "Failed to forward adjacency update to 1 nodes. [\"gone\"]");
}

#[test]
fn only_matrix_updates_carry_a_matrix() {
    let mut c = config(1);
    let layer = SearchLayer::new();
    let e = layer.try_forward_adj_update(&mut c, &search(0, 1, 0, 1, "a")).unwrap_err();
    assert!(matches!(e, SearchError::NotAdjUpdate));
    assert_eq!(e.message(), "Message body does not contain Adj");
}
