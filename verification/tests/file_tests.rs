use std::collections::HashSet;

use p2p_share::adj::{Adj, RawAdj};
use p2p_share::config::{Config, RawConfig};
use p2p_share::file::{
    after_round, find_start, request_exit, search_round, send_file_requests, serve_slice, slice_fits, DownloadError, FileSearchResult,
    FindNext, FindStart, SearchResults, SliceAssembler,
};
use p2p_share::file_manifest::{FileManifest, RawFileManifest};
use p2p_share::message::{LogicalClock, Message, MessageBody};

fn line_config(id: u32) -> Config {
    RawConfig {
        id: Some(id),
        target_node: None,
        listen_ip: None,
        adj: Some(RawAdj { n: 3, matrix: vec![vec![0, 1, 0], vec![0, 0, 1], vec![0, 0, 0]] }),
        routes: Some((0..3).map(|i: u32| (i.to_string(), format!("host{}:{}", i, 6000 + i))).collect()),
    }
    .to_valid()
    .unwrap()
}

fn result(node_id: u32, file: &str, size: u64) -> FileSearchResult {
    FileSearchResult { node_id, file_name: file.to_string(), file_size: size }
}

fn request(sender: u32, slice: u32, total_slices: u32) -> Message {
    Message {
        sender,
        timestamp: 4,
        body: MessageBody::FileDownloadRequest { file_name: "a.bin".to_string(), slice, total_slices },
    }
}

fn served(slice: u32, total: u32, data: &Vec<u8>) -> Vec<u8> {
    let c = line_config(1);
    let mut clock = LogicalClock::new();
    let (reply, to) = serve_slice(&c, &mut clock, &request(2, slice, total), data);
    assert_eq!(to, 2);
    assert_eq!(reply.sender, 1);
    match reply.body {
        MessageBody::FileDownloadResponse { slice: s, data } => {
            assert_eq!(s, slice);
            data
        }
        _ => panic!("wrong body"),
    }
}

#[test]
fn slices_start_at_slice_times_length_over_total() {
    let data: Vec<u8> = (0..10).collect();
    assert_eq!(served(0, 3, &data), vec![0, 1, 2]);
    assert_eq!(served(1, 3, &data), vec![3, 4, 5]);
    assert_eq!(served(2, 3, &data), vec![6, 7, 8, 9]);
}

#[test]
fn the_slices_of_a_file_make_up_the_file() {
    let data: Vec<u8> = (0..23).map(|x| x * 3).collect();
    for total in 1..7u32 {
        let mut whole = Vec::new();
        for slice in 0..total {
            whole.extend(served(slice, total, &data));
        }
        assert_eq!(whole, data, "{} slices", total);
    }
}

#[test]
fn an_empty_file_has_empty_slices() {
    assert!(served(0, 2, &vec![]).is_empty());
    assert!(served(1, 2, &vec![]).is_empty());
}

#[test]
fn slices_that_arrive_in_order_are_joined_in_order() {
    let mut a = SliceAssembler::new(3);
    assert!(!a.add(0, vec![1, 2]));
    assert!(!a.add(1, vec![3]));
    assert!(a.add(2, vec![4, 5]));
    assert_eq!(a.finish(), vec![1, 2, 3, 4, 5]);
}

#[test]
fn two_slices_are_joined_in_order_whichever_comes_first() {
    let mut a = SliceAssembler::new(2);
    assert!(!a.add(1, vec![3, 4]));
    assert!(a.add(0, vec![1, 2]));
    assert_eq!(a.finish(), vec![1, 2, 3, 4]);
}

#[test]
fn slices_are_joined_by_index_whatever_the_arrival_order() {
    let orders: [[u32; 3]; 6] = [[0, 1, 2], [0, 2, 1], [1, 0, 2], [1, 2, 0], [2, 0, 1], [2, 1, 0]];
    for order in orders {
        let mut a = SliceAssembler::new(3);
        for (k, s) in order.iter().enumerate() {
            let done = a.add(*s, vec![*s as u8, 10 + *s as u8]);
            assert_eq!(done, k == 2);
        }
        assert_eq!(a.finish(), vec![0, 10, 1, 11, 2, 12], "{:?}", order);
    }
}

#[test]
fn a_download_of_no_slices_is_empty() {
    assert!(SliceAssembler::new(0).finish().is_empty());
}

#[test]
fn search_rounds_double_the_hops_and_wait_longer() {
    assert_eq!(search_round(0), Some((1, 2)));
    assert_eq!(search_round(1), Some((2, 4)));
    assert_eq!(search_round(2), Some((4, 6)));
    assert_eq!(search_round(3), Some((8, 8)));
    assert_eq!(search_round(4), Some((16, 10)));
    assert_eq!(search_round(5), None);
    assert_eq!(search_round(u32::MAX), None);
}

#[test]
fn a_search_starts_unless_the_node_has_the_file() {
    let manifest = FileManifest { files: vec!["a.bin".to_string()] };
    assert_eq!(find_start(&manifest, &"a.bin".to_string(), None), FindStart::AlreadyHave);
    assert_eq!(find_start(&manifest, &"b.bin".to_string(), None), FindStart::Search(0));
    assert_eq!(find_start(&manifest, &"b.bin".to_string(), Some(3)), FindStart::Search(3));
}

#[test]
fn stored_results_are_picked_by_node() {
    let mut r = SearchResults::new();
    r.store(vec![result(2, "a.bin", 10), result(5, "a.bin", 10), result(2, "a.bin", 11)]);
    let items = r.select(&vec![5, 2]).unwrap();
    assert_eq!(items.len(), 2);
    assert_eq!(items[0].node_id, 5);
    assert_eq!(items[1].node_id, 2);
    assert_eq!(items[1].file_size, 11);
    assert_eq!(r.select(&vec![2, 3, 4]).unwrap_err(), DownloadError::UnknownNode(3));
    assert_eq!(
        DownloadError::UnknownNode(3).message(),
        "Could not find any result from node 3 in the list of search results"
    );
}

#[test]
fn storing_results_forgets_the_last_search() {
    let mut r = SearchResults::new();
    r.store(vec![result(2, "a.bin", 10)]);
    r.store(vec![result(4, "b.bin", 1)]);
    assert_eq!(r.select(&vec![2]).unwrap_err(), DownloadError::UnknownNode(2));
    assert_eq!(r.select(&vec![4]).unwrap()[0].file_name, "b.bin");
}

#[test]
fn stored_results_are_shown_one_line_per_node() {
    let mut r = SearchResults::new();
    r.store(vec![result(2, "a.bin", 10), result(7, "a.bin", 10), result(2, "a.bin", 10)]);
    let mut lines = r.lines();
    lines.sort();
    assert_eq!(lines, vec!["2 = (\"a.bin\", node 2)".to_string(), "7 = (\"a.bin\", node 7)".to_string()]);
}

#[test]
fn the_key_of_a_result_is_its_node() {
    assert_eq!(result(12, "x", 1).get_key(), "12");
    let m = Message {
        sender: 6,
        timestamp: 2,
        body: MessageBody::SearchResponse {
            forwarder: 1,
            file_name: "x.bin".to_string(),
            reply_to: "0-1".to_string(),
            file_size: 77,
        },
    };
    let r = FileSearchResult::new(&m);
    assert_eq!((r.node_id, r.file_name.as_str(), r.file_size), (6, "x.bin", 77));
}

#[test]
fn each_source_is_asked_for_its_slice() {
    let c = line_config(0);
    let mut clock = LogicalClock::new();
    let items = vec![result(2, "a.bin", 10), result(1, "a.bin", 10)];
    let requests = send_file_requests(&c, &mut clock, &items);
    assert_eq!(requests.len(), 2);
    for (k, (msg, to)) in requests.iter().enumerate() {
        assert_eq!(*to, items[k].node_id);
        assert_eq!(msg.timestamp, k as u64 + 1);
        match &msg.body {
            MessageBody::FileDownloadRequest { file_name, slice, total_slices } => {
                assert_eq!(file_name, "a.bin");
                assert_eq!(*slice, k as u32);
                assert_eq!(*total_slices, 2);
            }
            _ => panic!("wrong body"),
        }
    }
}

#[test]
fn leaving_keeps_the_rest_connected() {
    let middle = request_exit(&line_config(1));
    assert!(middle.is_deactivated(&1));
    assert!(middle.is_connected());
    assert!(middle.get(0, 2) || middle.get(2, 0));
    let end = request_exit(&line_config(0));
    assert!(end.is_deactivated(&0));
    assert!(end.is_connected());
    assert_eq!(end.data, line_config(0).adj.data);
    let outside = RawConfig {
        id: Some(5),
        target_node: Some(0),
        listen_ip: None,
        adj: Some(RawAdj { n: 3, matrix: vec![vec![0, 1, 0], vec![0, 0, 1], vec![0, 0, 0]] }),
        routes: Some((0..6).map(|i: u32| (i.to_string(), format!("host{}:{}", i, 6000 + i))).collect()),
    }
    .to_valid()
    .unwrap();
    let gone = request_exit(&outside);
    assert!(gone.is_deactivated(&5));
    assert_eq!(gone.data, outside.adj.data);
}

#[test]
fn the_manifest_lists_the_files_a_node_has() {
    let mut m = FileManifest::from_raw(RawFileManifest { files: vec!["a".to_string()] });
    assert!(m.has_file(&"a".to_string()));
    assert!(!m.has_file(&"b".to_string()));
    m.add_file(&"b".to_string());
    assert!(m.has_file(&"b".to_string()));
    assert_eq!(m.to_raw().files, vec!["a".to_string(), "b".to_string()]);
}

#[test]
fn a_clone_of_a_matrix_leaves_its_source_unchanged() {
    let adj = Adj { n: 2, data: vec![false, true, false, false], deactivated: HashSet::new() };
    let mut copy = adj.clone();
    copy.deactivate_node(0);
    assert!(!adj.is_deactivated(&0));
}

#[test]
fn a_slice_can_be_served_when_it_lies_inside_the_file() {
    let data: Vec<u8> = (0..10).collect();
    assert!(slice_fits(&request(2, 2, 3), &data));
    assert!(!slice_fits(&request(2, 3, 3), &data));
    assert!(!slice_fits(&request(2, 0, 0), &data));
    assert!(!slice_fits(&request(2, u32::MAX, 3), &vec![]));
    assert!(slice_fits(&request(2, 3, 3), &vec![]));
    let m = Message { sender: 1, timestamp: 1, body: MessageBody::Empty };
    assert!(!slice_fits(&m, &data));
}

#[test]
fn a_search_stops_at_the_first_round_with_answers() {
    let mut r = SearchResults::new();
    r.store(vec![result(9, "old.bin", 1)]);
    assert_eq!(after_round(&mut r, 0, vec![]), FindNext::Round(1));
    assert_eq!(after_round(&mut r, 3, vec![]), FindNext::Round(4));
    assert_eq!(r.select(&vec![9]).unwrap()[0].file_name, "old.bin");
    assert_eq!(after_round(&mut r, 2, vec![result(4, "a.bin", 5)]), FindNext::Found);
    assert_eq!(r.select(&vec![9]).unwrap_err(), DownloadError::UnknownNode(9));
    assert_eq!(r.select(&vec![4]).unwrap()[0].file_size, 5);
}

#[test]
fn a_search_gives_up_after_the_last_round_keeping_old_results() {
    let mut r = SearchResults::new();
    r.store(vec![result(9, "old.bin", 1)]);
    assert_eq!(after_round(&mut r, 4, vec![]), FindNext::GiveUp);
    assert_eq!(after_round(&mut r, 7, vec![]), FindNext::GiveUp);
    assert_eq!(r.select(&vec![9]).unwrap()[0].file_name, "old.bin");
}

#[test]
fn components_are_listed_in_the_order_the_search_merges_them() {
    let adj = Adj { n: 4, data: vec![false; 16], deactivated: HashSet::new() };
    let comps = adj.get_components();
    let singles: Vec<HashSet<u32>> = (0..4u32).map(|i| [i].into_iter().collect()).collect();
    assert_eq!(comps, singles);
    let mut data = vec![false; 16];
    data[0 * 4 + 3] = true;
    let adj = Adj { n: 4, data, deactivated: HashSet::new() };
    let comps = adj.get_components();
    let want: Vec<HashSet<u32>> = vec![[0u32, 3].into_iter().collect(), [1u32].into_iter().collect(), [2u32].into_iter().collect()];
    assert_eq!(comps, want);
}
