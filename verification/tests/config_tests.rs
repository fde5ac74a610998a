use std::collections::HashSet;

use p2p_share::adj::{AdjError, RawAdj};
use p2p_share::config::{AdjCell, Config, ConfigError, ListenIp, RawConfig};

fn line_matrix() -> RawAdj {
    RawAdj { n: 3, matrix: vec![vec![0, 1, 0], vec![0, 0, 1], vec![0, 0, 0]] }
}

fn routes(list: &[(&str, &str)]) -> Option<Vec<(String, String)>> {
    Some(list.iter().map(|(k, v)| (k.to_string(), v.to_string())).collect())
}

fn raw(id: Option<u32>, target: Option<u32>, adj: Option<RawAdj>, r: Option<Vec<(String, String)>>) -> RawConfig {
    RawConfig { id, target_node: target, listen_ip: None, adj, routes: r }
}

fn three_routes() -> Option<Vec<(String, String)>> {
    routes(&[("0", "dc01.utdallas.edu:50890"), ("2", "dc03.utdallas.edu:50892"), ("1", "dc02.utdallas.edu:50891")])
}

fn config(id: u32) -> Config {
    raw(Some(id), None, Some(line_matrix()), three_routes()).to_valid().unwrap()
}

fn error_text(r: Result<Config, ConfigError>) -> String {
    match r {
        Ok(_) => panic!("expected an error"),
        Err(e) => e.message(),
    }
}

#[test]
fn a_complete_config_is_accepted() {
    let c = config(1);
    assert_eq!(c.id, 1);
    assert_eq!(c.target_node, None);
    assert_eq!(c.listen_ip, ListenIp::V4(0, 0, 0, 0));
    assert_eq!(c.adj.n, 3);
    assert_eq!(c.routes.len(), 3);
    assert_eq!(c.resolve_route(2), "dc03.utdallas.edu:50892");
    assert_eq!(c.routes[1].port, 50891);
    assert_eq!(c.get_listen_address(), (ListenIp::V4(0, 0, 0, 0), 50891));
}

#[test]
fn the_listen_address_is_kept() {
    let mut r = raw(Some(0), None, Some(line_matrix()), three_routes());
    r.listen_ip = Some(ListenIp::V4(127, 0, 0, 1));
    let c = r.to_valid().unwrap();
    assert_eq!(c.get_listen_address(), (ListenIp::V4(127, 0, 0, 1), 50890));
}

#[test]
fn missing_settings_are_named() {
    assert_eq!(
        error_text(raw(None, None, Some(line_matrix()), three_routes()).to_valid()),
        "The \"id\" setting is missing from the config."
    );
    assert_eq!(
        error_text(raw(Some(0), None, None, three_routes()).to_valid()),
        "The \"adj\" setting is missing from the config."
    );
    assert_eq!(
        error_text(raw(Some(7), None, Some(line_matrix()), three_routes()).to_valid()),
        "The \"target_node\" setting is missing from the config."
    );
}

#[test]
fn a_bad_matrix_is_refused() {
    let bad = RawAdj { n: 3, matrix: vec![vec![0, 1, 0], vec![0, 0, 1]] };
    match raw(Some(0), None, Some(bad), three_routes()).to_valid() {
        Err(ConfigError::Adj(e)) => assert_eq!(e, AdjError::BadDimensions),
        _ => panic!("expected a matrix error"),
    }
    let apart = RawAdj { n: 3, matrix: vec![vec![0, 1, 0], vec![0, 0, 0], vec![0, 0, 0]] };
    let r = raw(Some(0), None, Some(apart), three_routes()).to_valid();
    assert_eq!(error_text(r), "The Adj matrix is incorrectly configured: Adj matrix is not connected");
}

#[test]
fn a_target_outside_the_matrix_is_refused() {
    assert_eq!(
        error_text(raw(Some(5), Some(3), Some(line_matrix()), three_routes()).to_valid()),
        "The \"target_node\" setting value is invalid."
    );
}

#[test]
fn an_outside_node_with_a_target_is_accepted() {
    let r = routes(&[("0", "a:1"), ("1", "b:2"), ("2", "c:3"), ("3", "d:4")]);
    let c = raw(Some(3), Some(2), Some(line_matrix()), r).to_valid().unwrap();
    assert!(c.is_outside());
    assert_eq!(c.get_nodes_to_connect(), (vec![2], vec![]));
}

#[test]
fn route_problems_are_reported() {
    assert_eq!(
        error_text(raw(Some(0), None, Some(line_matrix()), None).to_valid()),
        "The \"Route list is empty\" setting value is invalid."
    );
    assert_eq!(
        error_text(raw(Some(0), None, Some(line_matrix()), routes(&[])).to_valid()),
        "The \"Route list is empty\" setting value is invalid."
    );
    assert_eq!(
        error_text(raw(Some(0), None, Some(line_matrix()), routes(&[("0", "a:1"), ("2", "c:3")])).to_valid()),
        "The \"Route list is incomplete\" setting value is invalid."
    );
    assert_eq!(
        error_text(raw(Some(0), None, Some(line_matrix()), routes(&[("0", "a:1"), ("1", "b b:2")])).to_valid()),
        "The \"Route list has invalid authority\" setting value is invalid."
    );
    assert_eq!(
        error_text(raw(Some(0), None, Some(line_matrix()), routes(&[("0", "a:1"), ("1", "b")])).to_valid()),
        "The \"A route is missing port\" setting value is invalid."
    );
}

#[test]
fn the_port_is_read_after_the_last_colon() {
    let c = raw(Some(0), None, Some(line_matrix()), routes(&[("0", "[::1]:8080"), ("1", "b:9"), ("2", "c:65535")]))
        .to_valid()
        .unwrap();
    assert_eq!(c.routes[0].port, 8080);
    assert_eq!(c.routes[0].authority, "[::1]:8080");
    assert_eq!(c.routes[2].port, 65535);
}

#[test]
fn nodes_to_connect_follow_the_edges() {
    let both = RawAdj { n: 3, matrix: vec![vec![0, 1, 1], vec![1, 0, 0], vec![0, 1, 0]] };
    let c = raw(Some(1), None, Some(both), three_routes()).to_valid().unwrap();
    assert_eq!(c.get_nodes_to_connect(), (vec![], vec![0, 2]));
    let both0 = RawAdj { n: 3, matrix: vec![vec![0, 1, 1], vec![1, 0, 0], vec![0, 1, 0]] };
    let c = raw(Some(0), None, Some(both0), three_routes()).to_valid().unwrap();
    assert_eq!(c.get_nodes_to_connect(), (vec![1, 2], vec![]));
    let c0 = config(0);
    assert_eq!(c0.get_nodes_to_connect(), (vec![1], vec![]));
    let c2 = config(2);
    assert_eq!(c2.get_nodes_to_connect(), (vec![], vec![1]));
}

#[test]
fn adjacent_nodes_ignore_direction() {
    let c = config(1);
    let want: HashSet<u32> = [0, 2].into_iter().collect();
    assert_eq!(c.get_adjacent_nodes(), want);
}

#[test]
fn outside_nodes_are_those_beyond_or_departed() {
    let mut c = config(0);
    assert!(c.is_node_outside(&3));
    assert!(!c.is_node_outside(&2));
    let mut adj = c.adj.clone();
    adj.deactivate_node(2);
    c.replace_adj(adj);
    assert!(c.is_node_outside(&2));
    assert!(!c.is_node_active(&2));
    assert!(c.is_node_active(&1));
}

#[test]
fn an_outside_node_joins_through_its_target() {
    let c = config(1);
    let grown = c.apply_outside_connection(4, 1);
    assert_eq!(grown.n, 5);
    assert!(grown.get(4, 1));
    assert!(grown.get(0, 1));
    assert!(!grown.is_deactivated(&4));
    assert!(grown.is_deactivated(&3));
    assert!(grown.is_connected());
}

#[test]
fn a_departed_node_rejoins_in_place() {
    let mut c = config(1);
    let mut adj = c.adj.clone();
    adj.deactivate_node(2);
    c.replace_adj(adj);
    let back = c.apply_outside_connection(2, 1);
    assert_eq!(back.n, 3);
    assert!(back.get(2, 1));
    assert!(back.get(1, 2));
    assert!(!back.is_deactivated(&2));
}

#[test]
fn the_matrix_rows_show_departed_nodes_as_disconnected() {
    let mut c = config(0);
    let mut adj = c.adj.clone();
    adj.deactivate_node(2);
    c.replace_adj(adj);
    let rows = c.adj_rows();
    assert_eq!(rows.len(), 3);
    assert_eq!(rows[0], vec![AdjCell::NoEdge, AdjCell::Edge, AdjCell::Disconnected]);
    assert_eq!(rows[1][2], AdjCell::Disconnected);
    assert_eq!(rows[2], vec![AdjCell::Disconnected; 3]);
}

#[test]
fn merge_prefers_the_first_config() {
    let a = raw(Some(1), None, None, None);
    let b = raw(Some(2), Some(0), Some(line_matrix()), three_routes());
    let m = RawConfig::merge(a, b);
    assert_eq!(m.id, Some(1));
    assert_eq!(m.target_node, Some(0));
    assert_eq!(m.adj.unwrap().n, 3);
    assert_eq!(m.routes.unwrap().len(), 3);
}

#[test]
fn merge_all_takes_each_setting_from_the_first_file_that_has_it() {
    let files = vec![
        raw(None, None, Some(line_matrix()), three_routes()),
        raw(Some(2), None, None, None),
        raw(Some(9), Some(1), None, None),
    ];
    let m = RawConfig::merge_all(files).unwrap();
    assert_eq!(m.id, Some(2));
    assert_eq!(m.target_node, Some(1));
    assert!(m.adj.is_some());
    assert!(RawConfig::merge_all(vec![]).is_none());
}

#[test]
fn own_cells_fit_checks_the_index_range() {
    let c = config(2);
    assert!(c.own_cells_fit());
}
