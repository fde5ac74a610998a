use std::collections::HashSet;

use p2p_share::adj::RawAdj;
use p2p_share::config::{Config, RawConfig};
use p2p_share::message::{LogicalClock, MessageBody};
use p2p_share::session::{SessionAction, SessionLayer};

// 0 -> 1 <-> 2, 3 -> 2
fn config(id: u32, target: Option<u32>) -> Config {
    RawConfig {
        id: Some(id),
        target_node: target,
        listen_ip: None,
        adj: Some(RawAdj {
            n: 4,
            matrix: vec![vec![0, 1, 0, 0], vec![0, 0, 1, 0], vec![0, 1, 0, 0], vec![0, 0, 1, 0]],
        }),
        routes: Some((0..6).map(|i: u32| (i.to_string(), format!("host{}:{}", i, 5000 + i))).collect()),
    }
    .to_valid()
    .unwrap()
}

fn set(items: &[u32]) -> HashSet<u32> {
    items.iter().copied().collect()
}

#[test]
fn the_network_is_established_when_the_last_awaited_connection_is_made() {
    let c = config(2, None);
    let mut s = SessionLayer::new(&c);
    assert_eq!(s.on_new_connection(&c, 3), SessionAction::Nothing);
    assert_eq!(s.on_new_connection(&c, 3), SessionAction::Nothing);
    assert_eq!(s.on_new_connection(&c, 1), SessionAction::Established);
    assert_eq!(s.on_new_connection(&c, 1), SessionAction::Nothing);
}

#[test]
fn an_outside_node_is_taken_in() {
    let c = config(1, None);
    let mut s = SessionLayer::new(&c);
    assert_eq!(s.on_new_connection(&c, 5), SessionAction::TakeIn(5));
    assert_eq!(s.on_new_connection(&c, 0), SessionAction::Nothing);
    assert_eq!(s.on_new_connection(&c, 2), SessionAction::Established);
}

#[test]
fn an_outside_node_waits_for_its_target_only() {
    let c = config(5, Some(2));
    let mut s = SessionLayer::new(&c);
    assert_eq!(s.on_new_connection(&c, 2), SessionAction::Established);
}

#[test]
fn taking_in_an_outside_node_grows_the_matrix_and_announces_it() {
    let mut c = config(2, None);
    let mut clock = LogicalClock::new();
    let (update, targets) = SessionLayer::handle_new_outside_connection(&mut c, &mut clock, 5);
    assert_eq!(c.adj.n, 6);
    assert!(c.adj.get(5, 2));
    assert!(!c.adj.get(2, 5));
    assert!(c.adj.is_deactivated(&4));
    assert_eq!(targets, vec![1, 3, 5]);
    assert_eq!(update.sender, 2);
    assert_eq!(update.timestamp, 1);
    match update.body {
        MessageBody::AdjUpdate { adj } => assert_eq!(adj.n, 6),
        _ => panic!("wrong body"),
    }
}

#[test]
fn a_matrix_update_goes_to_every_neighbour() {
    let c = config(1, None);
    let mut clock = LogicalClock::new();
    let (update, targets) = SessionLayer::broadcast_adj_update(&c, &mut clock, c.adj.clone());
    assert_eq!(targets, vec![0, 2]);
    assert_eq!(update.get_key(), "1-1");
}

#[test]
fn download_streams_open_once_to_unconnected_nodes() {
    let temp = SessionLayer::establish_download_streams(&vec![4, 1, 4, 2, 7], &set(&[1, 2]));
    assert_eq!(temp, vec![4, 7]);
    assert!(SessionLayer::establish_download_streams(&vec![1], &set(&[1])).is_empty());
}

#[test]
fn repair_asks_for_missing_connections_this_node_makes() {
    let c = config(1, None);
    assert_eq!(SessionLayer::repair_connections(&c, &set(&[0])), vec![2]);
    assert!(SessionLayer::repair_connections(&c, &set(&[0, 2])).is_empty());
    let c2 = config(2, None);
    assert!(SessionLayer::repair_connections(&c2, &set(&[])).is_empty());
    let outside = config(5, Some(2));
    assert_eq!(SessionLayer::repair_connections(&outside, &set(&[])), vec![2]);
}

#[test]
fn a_node_that_waits_for_no_connection_is_ready_at_once() {
    let lone = RawConfig {
        id: Some(0),
        target_node: None,
        listen_ip: None,
        adj: Some(RawAdj { n: 1, matrix: vec![vec![0]] }),
        routes: Some(vec![("0".to_string(), "host0:5000".to_string())]),
    }
    .to_valid()
    .unwrap();
    let mut s = SessionLayer::new(&lone);
    assert_eq!(s.on_start(), SessionAction::Established);
    assert_eq!(s.on_new_connection(&lone, 0), SessionAction::Nothing);
    let c = config(2, None);
    assert_eq!(SessionLayer::new(&c).on_start(), SessionAction::Nothing);
}
