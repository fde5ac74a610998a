use std::collections::HashSet;

use p2p_share::adj::{Adj, AdjError, RawAdj};

fn matrix(n: u32, edges: &[(u32, u32)]) -> Adj {
    let mut data = vec![false; (n * n) as usize];
    for (i, j) in edges {
        data[(i * n + j) as usize] = true;
    }
    Adj { n, data, deactivated: HashSet::new() }
}

#[test]
fn get_follows_the_direction_of_an_edge() {
    let adj = matrix(3, &[(0, 1), (1, 2)]);
    assert!(adj.get(0, 1));
    assert!(!adj.get(1, 0));
    assert!(adj.get(1, 2));
    assert!(!adj.get(0, 2));
}

#[test]
fn get_ignores_departed_nodes_but_get_with_deactivated_does_not() {
    let mut adj = matrix(3, &[(0, 1), (1, 2)]);
    assert!(adj.deactivate_node(1));
    assert!(!adj.get(0, 1));
    assert!(adj.get_with_deactivated(0, 1));
    assert!(adj.is_deactivated(&1));
    assert!(!adj.is_activated(&1));
    assert!(adj.activate_node(&1));
    assert!(adj.get(0, 1));
}

#[test]
fn the_diagonal_is_never_an_edge() {
    let mut adj = matrix(2, &[]);
    adj.set(1, 1, true);
    assert!(!adj.get(1, 1));
    assert_eq!(adj.data, vec![false; 4]);
}

#[test]
fn cells_past_the_data_read_as_no_edge() {
    let adj = Adj { n: 3, data: vec![false, true], deactivated: HashSet::new() };
    assert!(adj.get_with_deactivated(0, 1));
    assert!(!adj.get_with_deactivated(2, 1));
}

#[test]
fn set_writes_the_cell_of_the_edge() {
    let mut adj = matrix(3, &[]);
    adj.set(2, 0, true);
    assert!(adj.data[6]);
    assert!(adj.get(2, 0));
    adj.set(2, 0, false);
    assert!(!adj.get(2, 0));
}

#[test]
fn degree_counts_edges_in_and_out() {
    let adj = matrix(3, &[(0, 1), (1, 2), (2, 1)]);
    assert_eq!(adj.node_degree(1), 3);
    assert_eq!(adj.node_degree(0), 1);
}

#[test]
fn a_line_is_connected() {
    let adj = matrix(3, &[(0, 1), (1, 2)]);
    assert!(adj.is_connected());
}

#[test]
fn two_pairs_are_not_connected() {
    let adj = matrix(4, &[(0, 1), (2, 3)]);
    assert!(!adj.is_connected());
}

#[test]
fn a_network_without_its_middle_node_falls_apart() {
    let mut adj = matrix(3, &[(0, 1), (1, 2)]);
    adj.deactivate_node(1);
    assert!(!adj.is_connected());
}

#[test]
fn components_group_linked_nodes() {
    let adj = matrix(5, &[(0, 1), (3, 2), (4, 3)]);
    let comps = adj.get_components();
    assert_eq!(comps.len(), 2);
    let a: HashSet<u32> = [0, 1].into_iter().collect();
    let b: HashSet<u32> = [2, 3, 4].into_iter().collect();
    assert!(comps.contains(&a));
    assert!(comps.contains(&b));
}

#[test]
fn components_leave_out_departed_nodes() {
    let mut adj = matrix(3, &[(0, 1), (1, 2)]);
    adj.deactivate_node(1);
    let comps = adj.get_components();
    assert_eq!(comps.len(), 2);
    assert!(comps.iter().all(|c| !c.contains(&1)));
}

#[test]
fn repair_joins_every_component() {
    let mut adj = matrix(6, &[(0, 1), (1, 2), (3, 4)]);
    assert!(!adj.is_connected());
    adj.repair();
    assert!(adj.is_connected());
    assert_eq!(adj.n, 6);
}

#[test]
fn repair_leaves_a_connected_network_alone() {
    let mut adj = matrix(3, &[(0, 1), (1, 2)]);
    let before = adj.data.clone();
    adj.repair();
    assert_eq!(adj.data, before);
}

#[test]
fn repair_links_the_busiest_node_of_the_largest_component() {
    let mut adj = matrix(4, &[(0, 1), (1, 2)]);
    adj.repair();
    assert!(adj.is_connected());
    assert!(adj.get(1, 3));
}

#[test]
fn expand_keeps_edges_and_parks_new_nodes_outside() {
    let adj = matrix(2, &[(0, 1)]);
    let big = adj.expand(4);
    assert_eq!(big.n, 4);
    assert_eq!(big.data.len(), 16);
    assert!(big.get(0, 1));
    assert!(!big.get(1, 0));
    assert!(big.is_deactivated(&2));
    assert!(big.is_deactivated(&3));
    assert!(!big.is_deactivated(&0));
}

#[test]
fn to_valid_flattens_a_connected_matrix() {
    let raw = RawAdj { n: 2, matrix: vec![vec![0, 1], vec![0, 0]] };
    let adj = raw.to_valid().unwrap();
    assert_eq!(adj.n, 2);
    assert_eq!(adj.data, vec![false, true, false, false]);
    assert!(adj.deactivated.is_empty());
}

#[test]
fn to_valid_refuses_wrong_dimensions() {
    let raw = RawAdj { n: 2, matrix: vec![vec![0, 1], vec![0, 0], vec![0, 0]] };
    assert_eq!(raw.to_valid().unwrap_err(), AdjError::BadDimensions);
    let raw = RawAdj { n: 2, matrix: vec![vec![0, 1, 0], vec![0, 0]] };
    assert_eq!(raw.to_valid().unwrap_err(), AdjError::BadDimensions);
}

#[test]
fn to_valid_refuses_a_disconnected_matrix() {
    let raw = RawAdj { n: 2, matrix: vec![vec![0, 0], vec![0, 0]] };
    assert_eq!(raw.to_valid().unwrap_err(), AdjError::NotConnected);
}

#[test]
fn adj_errors_describe_themselves() {
    assert_eq!(AdjError::NotConnected.message(), "Adj matrix is not connected");
    assert_eq!(AdjError::BadDimensions.message(), "Adj dimensions are invalid");
}

#[test]
fn clone_copies_the_matrix() {
    let mut adj = matrix(3, &[(0, 1), (1, 2)]);
    adj.deactivate_node(2);
    let copy = adj.clone();
    assert_eq!(copy.n, 3);
    assert_eq!(copy.data, adj.data);
    assert_eq!(copy.deactivated, adj.deactivated);
}

#[test]
fn expand_keeps_connectivity_and_components() {
    let apart = matrix(4, &[(0, 1), (2, 3)]);
    let big = apart.expand(6);
    assert!(!big.is_connected());
    let mut a = apart.get_components();
    let mut b = big.get_components();
    a.sort_by_key(|c| *c.iter().min().unwrap());
    b.sort_by_key(|c| *c.iter().min().unwrap());
    assert_eq!(a, b);
    let line = matrix(3, &[(0, 1), (1, 2)]);
    assert!(line.expand(5).is_connected());
    assert!(!line.expand(5).get(2, 4));
}

#[test]
fn degree_of_a_node_beyond_the_matrix_reads_the_cells_its_indices_reach() {
    let adj = matrix(3, &[]);
    assert_eq!(adj.node_degree(7), 0);
    let adj = matrix(3, &[(1, 2)]);
    assert_eq!(adj.node_degree(5), 1);
}
